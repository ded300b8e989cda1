//! The catalog of registry packages, the install state derived from the mod
//! root's listing, and the reading of installed manifests.
use crate::package::{InstallState, Manifest, Package};
use unicode_bom::Bom;
use vstd::prelude::*;

verus! {

/// `name` is the `full_name` of some package of `s`.
pub open spec fn has_full_name(s: Seq<Package>, name: Seq<char>) -> bool {
    exists|j: int| 0 <= j < s.len() && (#[trigger] s[j]).full_name@ == name
}

/// No two packages of `s` share a `full_name`.
pub open spec fn names_unique(s: Seq<Package>) -> bool {
    forall|i: int, j: int|
        0 <= i < j < s.len() ==> (#[trigger] s[i]).full_name@ != (#[trigger] s[j]).full_name@
}

/// The packages of `s` whose `full_name` did not occur before them, in order.
pub open spec fn first_occurrences(s: Seq<Package>) -> Seq<Package>
    decreases s.len(),
{
    if s.len() == 0 {
        seq![]
    } else {
        let r = first_occurrences(s.drop_last());
        if has_full_name(r, s.last().full_name@) {
            r
        } else {
            r.push(s.last())
        }
    }
}

/// The packages known from the registry for one session, keyed by
/// `full_name`.
pub struct Catalog {
    pub packages: Vec<Package>,
}

impl View for Catalog {
    type V = Seq<Package>;

    open spec fn view(&self) -> Seq<Package> {
        self.packages@
    }
}

impl Catalog {
    /// Every `full_name` stands for one package.
    pub open spec fn wf(&self) -> bool {
        names_unique(self@)
    }

    /// Builds the catalog of a registry listing; where a `full_name` repeats,
    /// the first package listed under it is kept.
    pub fn new(pkgs: Vec<Package>) -> (c: Catalog)
        ensures
            c.wf(),
            c@ == first_occurrences(pkgs@),
    {
        let ghost all = pkgs@;
        let mut rest = pkgs;
        let mut kept: Vec<Package> = Vec::new();
        while rest.len() > 0
            invariant
                rest@.len() <= all.len(),
                rest@ == all.subrange(all.len() - rest@.len(), all.len() as int),
                kept@ == first_occurrences(all.subrange(0, all.len() - rest@.len())),
                names_unique(kept@),
            decreases rest@.len(),
        {
            let ghost done = all.len() - rest@.len();
            let p = rest.remove(0);
            proof {
                let s = all.subrange(0, done + 1);
                assert(s.drop_last() =~= all.subrange(0, done));
                assert(s.last() == p);
                assert(rest@ =~= all.subrange(done + 1, all.len() as int));
            }
            if !has_package(&kept, &p.full_name) {
                kept.push(p);
            }
        }
        assert(all.subrange(0, all.len() as int) =~= all);
        Catalog { packages: kept }
    }

    /// The package listed under `full_name`.
    pub fn lookup(&self, full_name: &String) -> (r: Option<&Package>)
        requires
            self.wf(),
        ensures
            match r {
                Some(p) => self@.contains(*p) && p.full_name@ == full_name@,
                None => !has_full_name(self@, full_name@),
            },
    {
        let mut i: usize = 0;
        while i < self.packages.len()
            invariant
                i <= self@.len(),
                forall|j: int| 0 <= j < i ==> (#[trigger] self@[j]).full_name@ != full_name@,
            decreases self@.len() - i,
        {
            if self.packages[i].full_name == *full_name {
                return Some(&self.packages[i]);
            }
            i = i + 1;
        }
        None
    }
}

/// Whether some package of `v` has this `full_name`.
fn has_package(v: &Vec<Package>, full_name: &String) -> (r: bool)
    ensures
        r == has_full_name(v@, full_name@),
{
    let mut i: usize = 0;
    while i < v.len()
        invariant
            i <= v@.len(),
            forall|j: int| 0 <= j < i ==> (#[trigger] v@[j]).full_name@ != full_name@,
        decreases v@.len() - i,
    {
        if v[i].full_name == *full_name {
            return true;
        }
        i = i + 1;
    }
    false
}

/// A directory of this name is listed in the mod root.
pub open spec fn dir_listed(dirs: Seq<String>, name: Seq<char>) -> bool {
    exists|j: int| 0 <= j < dirs.len() && (#[trigger] dirs[j])@ == name
}

/// The install state of `pkg` when the mod root lists `dirs`.
pub open spec fn state_of(pkg: Package, dirs: Seq<String>) -> InstallState {
    if dir_listed(dirs, pkg.full_name@) {
        InstallState::Downloaded
    } else {
        InstallState::Undownloaded
    }
}

/// Whether `pkg` is extracted, given the names of the directories in the
/// mod root.
pub fn check_pkg(pkg: &Package, dirs: &Vec<String>) -> (r: bool)
    ensures
        r == dir_listed(dirs@, pkg.full_name@),
{
    let mut i: usize = 0;
    while i < dirs.len()
        invariant
            i <= dirs@.len(),
            forall|j: int| 0 <= j < i ==> (#[trigger] dirs@[j])@ != pkg.full_name@,
        decreases dirs@.len() - i,
    {
        if dirs[i] == pkg.full_name {
            return true;
        }
        i = i + 1;
    }
    false
}

/// `Downloaded` exactly when the mod root lists a directory named after
/// the package.
pub fn installed_state(pkg: &Package, dirs: &Vec<String>) -> (r: InstallState)
    ensures
        r == state_of(*pkg, dirs@),
{
    if check_pkg(pkg, dirs) {
        InstallState::Downloaded
    } else {
        InstallState::Undownloaded
    }
}

/// The install state of each catalog package, in catalog order.
pub fn package_states(catalog: &Catalog, dirs: &Vec<String>) -> (r: Vec<InstallState>)
    ensures
        r@.len() == catalog@.len(),
        forall|i: int| 0 <= i < r@.len() ==> r@[i] == state_of(#[trigger] catalog@[i], dirs@),
{
    let mut r: Vec<InstallState> = Vec::new();
    let mut i: usize = 0;
    while i < catalog.packages.len()
        invariant
            i <= catalog@.len(),
            r@.len() == i,
            forall|j: int| 0 <= j < i ==> r@[j] == state_of(#[trigger] catalog@[j], dirs@),
        decreases catalog@.len() - i,
    {
        let s = installed_state(&catalog.packages[i], dirs);
        r.push(s);
        i = i + 1;
    }
    r
}

/// The install state follows the mod root's listing exactly: listing the
/// package's directory makes it `Downloaded`, and taking every directory of
/// that name away makes it `Undownloaded`, with nothing remembered between.
pub proof fn lemma_state_follows_listing(pkg: Package, dirs: Seq<String>, d: String)
    requires
        d@ == pkg.full_name@,
    ensures
        state_of(pkg, dirs.push(d)) == InstallState::Downloaded,
        state_of(pkg, dirs.filter(|x: String| x@ != pkg.full_name@))
            == InstallState::Undownloaded,
{
    assert(dirs.push(d)[dirs.len() as int] == d);
    let f = dirs.filter(|x: String| x@ != pkg.full_name@);
    assert forall|j: int| 0 <= j < f.len() implies (#[trigger] f[j])@ != pkg.full_name@ by {
        dirs.lemma_filter_pred(|x: String| x@ != pkg.full_name@, j);
    }
}

/// Gives the first package whose name is the manifest's name.
pub fn pkg_from_manifest(m: Manifest, pkgs: Vec<Package>) -> (r: Option<Package>)
    ensures
        match r {
            Some(p) => exists|i: int|
                0 <= i < pkgs@.len() && pkgs@[i] == p && p.name@ == m.name@ && forall|j: int|
                    0 <= j < i ==> (#[trigger] pkgs@[j]).name@ != m.name@,
            None => forall|j: int| 0 <= j < pkgs@.len() ==> (#[trigger] pkgs@[j]).name@ != m.name@,
        },
{
    let ghost all = pkgs@;
    let mut v = pkgs;
    let mut i: usize = 0;
    while i < v.len()
        invariant
            v@ == all,
            all == pkgs@,
            i <= all.len(),
            forall|j: int| 0 <= j < i ==> (#[trigger] all[j]).name@ != m.name@,
        decreases all.len() - i,
    {
        if v[i].name == m.name {
            let p = v.remove(i);
            assert(all[i as int] == p);
            return Some(p);
        }
        i = i + 1;
    }
    None
}

/// The length of the byte-order mark that starts `bytes`, 0 where none does.
pub uninterp spec fn bom_len_of(bytes: Seq<u8>) -> nat;

/// `bytes` starts with the UTF-8 byte-order mark `EF BB BF`.
pub open spec fn starts_utf8_mark(bytes: Seq<u8>) -> bool {
    bytes.len() >= 3 && bytes[0] == 0xef && bytes[1] == 0xbb && bytes[2] == 0xbf
}

/// `bytes` cannot start any byte-order mark: it is shorter than two bytes,
/// or its first byte begins none of them.
pub open spec fn starts_no_mark(bytes: Seq<u8>) -> bool {
    ||| bytes.len() < 2
    ||| {
        &&& bytes[0] != 0x00
        &&& bytes[0] != 0x0e
        &&& bytes[0] != 0x2b
        &&& bytes[0] != 0x84
        &&& bytes[0] != 0xdd
        &&& bytes[0] != 0xef
        &&& bytes[0] != 0xf7
        &&& bytes[0] != 0xfb
        &&& bytes[0] != 0xfe
        &&& bytes[0] != 0xff
    }
}

/// Relies on unicode_bom's `Bom::from(&[u8])` and `Bom::len`: which mark
/// starts the bytes, as a length. Every mark it detects lies within the
/// bytes; bytes that cannot start a mark give none; `EF BB BF` is the
/// UTF-8 mark.
#[verifier::external_body]
fn bom_len(bytes: &[u8]) -> (n: usize)
    ensures
        n == bom_len_of(bytes@),
        n <= bytes@.len(),
        starts_no_mark(bytes@) ==> n == 0,
        starts_utf8_mark(bytes@) ==> n == 3,
{
    Bom::from(bytes).len()
}

/// The content of a manifest file without its byte-order mark: a leading
/// `EF BB BF` is dropped, and content that cannot start a mark (a JSON
/// document starts with `{`) comes back whole.
pub fn manifest_text(raw: &Vec<u8>) -> (r: Vec<u8>)
    ensures
        r@ == raw@.subrange(bom_len_of(raw@) as int, raw@.len() as int),
        starts_utf8_mark(raw@) ==> r@ == raw@.subrange(3, raw@.len() as int),
        starts_no_mark(raw@) ==> r@ == raw@,
{
    let start = bom_len(raw.as_slice());
    let mut r: Vec<u8> = Vec::new();
    let mut i: usize = start;
    while i < raw.len()
        invariant
            start <= i <= raw@.len(),
            start == bom_len_of(raw@),
            starts_utf8_mark(raw@) ==> start == 3,
            starts_no_mark(raw@) ==> start == 0,
            r@ == raw@.subrange(start as int, i as int),
        decreases raw@.len() - i,
    {
        r.push(raw[i]);
        i = i + 1;
        assert(r@ =~= raw@.subrange(start as int, i as int));
    }
    assert(starts_no_mark(raw@) ==> raw@.subrange(0, raw@.len() as int) =~= raw@);
    r
}

/// The manifests that could be read, in listing order; a directory whose
/// manifest is absent or malformed stands as `None` and is skipped.
pub fn scan_installed(found: Vec<Option<Manifest>>) -> (r: Vec<Manifest>)
    ensures
        r@ == found@.filter(|m: Option<Manifest>| m is Some).map_values(
            |m: Option<Manifest>| m->Some_0,
        ),
{
    let ghost all = found@;
    let mut rest = found;
    let mut r: Vec<Manifest> = Vec::new();
    while rest.len() > 0
        invariant
            rest@.len() <= all.len(),
            rest@ == all.subrange(all.len() - rest@.len(), all.len() as int),
            r@ == all.subrange(0, all.len() - rest@.len()).filter(
                |m: Option<Manifest>| m is Some,
            ).map_values(|m: Option<Manifest>| m->Some_0),
        decreases rest@.len(),
    {
        let ghost done = all.len() - rest@.len();
        let ghost before = r@;
        let item = rest.remove(0);
        proof {
            let s = all.subrange(0, done + 1);
            assert(s.drop_last() =~= all.subrange(0, done));
            assert(s.last() == item);
            assert(rest@ =~= all.subrange(done + 1, all.len() as int));
            reveal(Seq::filter);
        }
        match item {
            Some(m) => {
                r.push(m);
                proof {
                    let s = all.subrange(0, done + 1);
                    assert(r@ =~= s.filter(|m: Option<Manifest>| m is Some).map_values(
                        |m: Option<Manifest>| m->Some_0,
                    ));
                }
            },
            None => {
                proof {
                    let s = all.subrange(0, done + 1);
                    assert(r@ =~= s.filter(|m: Option<Manifest>| m is Some).map_values(
                        |m: Option<Manifest>| m->Some_0,
                    ));
                }
            },
        }
    }
    assert(all.subrange(0, all.len() as int) =~= all);
    r
}

} // verus!
