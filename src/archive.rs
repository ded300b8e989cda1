//! Archive installation: decoding a zip container and planning its
//! extraction under `mod_root/<full_name>`, refusing any entry that could
//! escape that directory.
use std::io::Cursor;
use crate::text::chars_of;
use vstd::prelude::*;
use zip::result::ZipError;
use zip::ZipArchive;

verus! {

/// std's in-memory reader, which the archive reads from; opaque here.
#[verifier::external_type_specification]
#[verifier::external_body]
#[verifier::reject_recursive_types(T)]
pub struct ExCursor<T>(Cursor<T>);

/// zip's open container; opaque here, carried between the calls below.
#[verifier::external_type_specification]
#[verifier::external_body]
#[verifier::reject_recursive_types(R)]
pub struct ExZipArchive<R>(ZipArchive<R>);

/// zip's error; every one of them is reported as a corrupt archive.
#[verifier::external_type_specification]
#[verifier::external_body]
pub struct ExZipError(ZipError);

/// One entry of an archive, decoded to plain values.
pub struct ArchiveEntry {
    /// The name as stored in the archive, `/`-separated.
    pub name: String,
    /// The POSIX permission bits stored with the entry, if any.
    pub unix_mode: Option<u32>,
    /// The decompressed content.
    pub data: Vec<u8>,
}

impl View for ArchiveEntry {
    type V = (Seq<char>, Option<u32>, Seq<u8>);

    open spec fn view(&self) -> (Seq<char>, Option<u32>, Seq<u8>) {
        (self.name@, self.unix_mode, self.data@)
    }
}

/// The entries as plain values.
pub open spec fn entries_view(s: Seq<ArchiveEntry>) -> Seq<(Seq<char>, Option<u32>, Seq<u8>)> {
    s.map_values(|e: ArchiveEntry| e@)
}

/// What zip makes of `bytes`: each entry's name, stored mode and content,
/// in archive order; `None` where the container cannot be opened or one of
/// its entries cannot be read.
pub uninterp spec fn zip_entries_of(bytes: Seq<u8>) -> Option<Seq<(Seq<char>, Option<u32>, Seq<u8>)>>;

/// What an open container holds, entry by entry: its name, stored mode and
/// content, or `None` where the entry cannot be read.
pub uninterp spec fn archive_contents(a: ZipArchive<Cursor<Vec<u8>>>) -> Seq<Option<(Seq<char>, Option<u32>, Seq<u8>)>>;

/// Why an archive could not be installed.
#[derive(PartialEq, Eq, Structural, Clone, Copy, Debug)]
pub enum InstallError {
    /// The container cannot be opened or read.
    ArchiveCorrupt,
    /// A filesystem operation failed.
    Io,
    /// A path would leave the package's directory.
    UnsafePath,
}

/// One filesystem operation of an extraction.
pub enum InstallStep {
    /// Create the directory and its missing parents.
    CreateDir { path: String },
    /// Write the content of the archive entry with this index to the path.
    WriteFile { path: String, entry: usize },
    /// Apply POSIX permission bits to the path.
    SetMode { path: String, mode: u32 },
}

/// The mathematical value of an [`InstallStep`].
pub enum StepSpec {
    CreateDir(Seq<char>),
    WriteFile(Seq<char>, nat),
    SetMode(Seq<char>, u32),
}

impl View for InstallStep {
    type V = StepSpec;

    open spec fn view(&self) -> StepSpec {
        match self {
            InstallStep::CreateDir { path } => StepSpec::CreateDir(path@),
            InstallStep::WriteFile { path, entry } => StepSpec::WriteFile(path@, *entry as nat),
            InstallStep::SetMode { path, mode } => StepSpec::SetMode(path@, *mode),
        }
    }
}

/// What an install call hands back: the decoded entries and the operations
/// that extract them.
pub struct Extraction {
    pub entries: Vec<ArchiveEntry>,
    pub steps: Vec<InstallStep>,
}

pub open spec fn steps_view(s: Seq<InstallStep>) -> Seq<StepSpec> {
    s.map_values(|x: InstallStep| x@)
}

pub open spec fn is_sep(c: char) -> bool {
    c == '/' || c == '\\'
}

/// A `..` component starts at position `i` of `s`.
pub open spec fn parent_component_at(s: Seq<char>, i: int) -> bool {
    &&& 0 <= i
    &&& i + 2 <= s.len()
    &&& s[i] == '.'
    &&& s[i + 1] == '.'
    &&& (i == 0 || is_sep(s[i - 1]))
    &&& (i + 2 == s.len() || is_sep(s[i + 2]))
}

pub open spec fn is_absolute(s: Seq<char>) -> bool {
    s.len() > 0 && is_sep(s[0])
}

pub open spec fn has_traversal(s: Seq<char>) -> bool {
    exists|i: int| parent_component_at(s, i)
}

/// An archive entry name that stays inside the directory it is joined to.
pub open spec fn entry_name_safe(s: Seq<char>) -> bool {
    !is_absolute(s) && !has_traversal(s)
}

/// A package name usable as one directory under the mod root.
pub open spec fn package_dir_safe(s: Seq<char>) -> bool {
    &&& s.len() > 0
    &&& forall|i: int| 0 <= i < s.len() ==> !is_sep(#[trigger] s[i])
    &&& s != seq!['.']
    &&& s != seq!['.', '.']
}

/// `base/name`
pub open spec fn join(base: Seq<char>, name: Seq<char>) -> Seq<char> {
    base + seq!['/'] + name
}

/// The directory a package is extracted into.
pub open spec fn package_dir(mod_root: Seq<char>, full_name: Seq<char>) -> Seq<char> {
    join(mod_root, full_name)
}

/// A trailing separator marks a directory entry.
pub open spec fn is_dir_name(s: Seq<char>) -> bool {
    s.len() > 0 && is_sep(s.last())
}

/// Index of the last separator of `s`, or -1.
pub open spec fn last_sep(s: Seq<char>) -> int
    decreases s.len(),
{
    if s.len() == 0 {
        -1
    } else if is_sep(s.last()) {
        s.len() - 1
    } else {
        last_sep(s.drop_last())
    }
}

/// The operations that extract entry `i` into `dest`.
pub open spec fn entry_steps(dest: Seq<char>, e: (Seq<char>, Option<u32>, Seq<u8>), i: nat) -> Seq<StepSpec> {
    let name = e.0;
    let out = join(dest, name);
    let body = if is_dir_name(name) {
        seq![StepSpec::CreateDir(out)]
    } else if last_sep(name) >= 0 {
        seq![
            StepSpec::CreateDir(join(dest, name.subrange(0, last_sep(name)))),
            StepSpec::WriteFile(out, i),
        ]
    } else {
        seq![StepSpec::WriteFile(out, i)]
    };
    match e.1 {
        Some(m) => body.push(StepSpec::SetMode(out, m)),
        None => body,
    }
}

/// The operations that extract all of `es` into `dest`, entry by entry.
pub open spec fn entries_steps(dest: Seq<char>, es: Seq<(Seq<char>, Option<u32>, Seq<u8>)>) -> Seq<StepSpec>
    decreases es.len(),
{
    if es.len() == 0 {
        seq![]
    } else {
        entries_steps(dest, es.drop_last()) + entry_steps(
            dest,
            es.last(),
            (es.len() - 1) as nat,
        )
    }
}

/// The extraction of `es` as package `full_name` under `mod_root`: the
/// package directory first, then each entry in archive order; refused when
/// the package name or any entry name is unsafe.
pub open spec fn extraction_plan(
    mod_root: Seq<char>,
    full_name: Seq<char>,
    es: Seq<(Seq<char>, Option<u32>, Seq<u8>)>,
) -> Result<Seq<StepSpec>, InstallError> {
    let dest = package_dir(mod_root, full_name);
    if !package_dir_safe(full_name) {
        Err(InstallError::UnsafePath)
    } else if exists|i: int| 0 <= i < es.len() && !entry_name_safe(#[trigger] es[i].0) {
        Err(InstallError::UnsafePath)
    } else {
        Ok(seq![StepSpec::CreateDir(dest)] + entries_steps(dest, es))
    }
}

/// What installing the archive `bytes` does, given whether the package
/// directory already exists: nothing at all when it does.
pub open spec fn install_outcome(
    mod_root: Seq<char>,
    full_name: Seq<char>,
    dest_exists: bool,
    bytes: Seq<u8>,
) -> Result<Seq<StepSpec>, InstallError> {
    if dest_exists {
        Ok(seq![])
    } else if !package_dir_safe(full_name) {
        Err(InstallError::UnsafePath)
    } else {
        match zip_entries_of(bytes) {
            None => Err(InstallError::ArchiveCorrupt),
            Some(es) => extraction_plan(mod_root, full_name, es),
        }
    }
}

/// The path an operation acts on.
pub open spec fn step_path(s: StepSpec) -> Seq<char> {
    match s {
        StepSpec::CreateDir(p) => p,
        StepSpec::WriteFile(p, _) => p,
        StepSpec::SetMode(p, _) => p,
    }
}

/// `p` is `dest` itself, or `dest/rel` for a relative path `rel` without
/// `..` components.
pub open spec fn inside(dest: Seq<char>, p: Seq<char>) -> bool {
    ||| p == dest
    ||| {
        &&& p.len() >= dest.len() + 1
        &&& p.subrange(0, dest.len() + 1 as int) == dest.push('/')
        &&& entry_name_safe(p.subrange(dest.len() + 1 as int, p.len() as int))
    }
}

/// The directories that exist after running `steps` where `dirs` existed.
pub open spec fn created_dirs(dirs: Set<Seq<char>>, steps: Seq<StepSpec>) -> Set<Seq<char>>
    decreases steps.len(),
{
    if steps.len() == 0 {
        dirs
    } else {
        let d = created_dirs(dirs, steps.drop_last());
        match steps.last() {
            StepSpec::CreateDir(p) => d.insert(p),
            _ => d,
        }
    }
}

proof fn lemma_last_sep_bounds(s: Seq<char>)
    ensures
        -1 <= last_sep(s) < s.len(),
        last_sep(s) >= 0 ==> is_sep(s[last_sep(s)]),
    decreases s.len(),
{
    if s.len() > 0 && !is_sep(s.last()) {
        lemma_last_sep_bounds(s.drop_last());
    }
}

proof fn lemma_join_inside(dest: Seq<char>, rel: Seq<char>)
    requires
        entry_name_safe(rel),
    ensures
        inside(dest, join(dest, rel)),
{
    let p = join(dest, rel);
    assert(p.subrange(0, dest.len() + 1 as int) =~= dest.push('/'));
    assert(p.subrange(dest.len() + 1 as int, p.len() as int) =~= rel);
}

/// A prefix of a safe name that ends before a separator is safe.
proof fn lemma_parent_safe(name: Seq<char>, k: int)
    requires
        entry_name_safe(name),
        0 < k < name.len(),
        is_sep(name[k]),
    ensures
        entry_name_safe(name.subrange(0, k)),
{
    let t = name.subrange(0, k);
    assert forall|j: int| !parent_component_at(t, j) by {
        if parent_component_at(t, j) {
            assert(parent_component_at(name, j));
        }
    }
}

proof fn lemma_entry_steps_inside(dest: Seq<char>, e: (Seq<char>, Option<u32>, Seq<u8>), i: nat)
    requires
        entry_name_safe(e.0),
    ensures
        forall|k: int|
            0 <= k < entry_steps(dest, e, i).len() ==> inside(
                dest,
                step_path(#[trigger] entry_steps(dest, e, i)[k]),
            ),
{
    let name = e.0;
    lemma_join_inside(dest, name);
    lemma_last_sep_bounds(name);
    if !is_dir_name(name) && last_sep(name) >= 0 {
        assert(last_sep(name) != 0);
        lemma_parent_safe(name, last_sep(name));
        lemma_join_inside(dest, name.subrange(0, last_sep(name)));
    }
}

proof fn lemma_entries_steps_inside(dest: Seq<char>, es: Seq<(Seq<char>, Option<u32>, Seq<u8>)>)
    requires
        forall|i: int| 0 <= i < es.len() ==> entry_name_safe(#[trigger] es[i].0),
    ensures
        forall|k: int|
            0 <= k < entries_steps(dest, es).len() ==> inside(
                dest,
                step_path(#[trigger] entries_steps(dest, es)[k]),
            ),
    decreases es.len(),
{
    if es.len() > 0 {
        let front = es.drop_last();
        assert forall|i: int| 0 <= i < front.len() implies entry_name_safe(
            #[trigger] front[i].0,
        ) by {
            assert(front[i] == es[i]);
        }
        lemma_entries_steps_inside(dest, front);
        assert(entry_name_safe(es[es.len() - 1].0));
        lemma_entry_steps_inside(dest, es.last(), (es.len() - 1) as nat);
        let a = entries_steps(dest, front);
        let b = entry_steps(dest, es.last(), (es.len() - 1) as nat);
        assert forall|k: int|
            0 <= k < entries_steps(dest, es).len() implies inside(
                dest,
                step_path(#[trigger] entries_steps(dest, es)[k]),
            ) by {
            if k < a.len() {
                assert(entries_steps(dest, es)[k] == a[k]);
            } else {
                assert(entries_steps(dest, es)[k] == b[k - a.len()]);
            }
        }
    }
}

/// Path safety: an archive with an absolute entry name or one holding a `..`
/// component is refused with `UnsafePath`, so nothing of it is written; and
/// every path of an accepted extraction lies inside the package directory.
pub proof fn lemma_extraction_enclosed(
    mod_root: Seq<char>,
    full_name: Seq<char>,
    es: Seq<(Seq<char>, Option<u32>, Seq<u8>)>,
)
    ensures
        (exists|i: int| 0 <= i < es.len() && !entry_name_safe(#[trigger] es[i].0))
            ==> extraction_plan(mod_root, full_name, es) == Err::<Seq<StepSpec>, InstallError>(
            InstallError::UnsafePath,
        ),
        extraction_plan(mod_root, full_name, es) is Ok ==> forall|k: int|
            0 <= k < extraction_plan(mod_root, full_name, es)->Ok_0.len() ==> inside(
                package_dir(mod_root, full_name),
                step_path(#[trigger] extraction_plan(mod_root, full_name, es)->Ok_0[k]),
            ),
{
    let dest = package_dir(mod_root, full_name);
    if extraction_plan(mod_root, full_name, es) is Ok {
        lemma_entries_steps_inside(dest, es);
        let steps = extraction_plan(mod_root, full_name, es)->Ok_0;
        let rest = entries_steps(dest, es);
        assert forall|k: int| 0 <= k < steps.len() implies inside(
            dest,
            step_path(#[trigger] steps[k]),
        ) by {
            if k > 0 {
                assert(steps[k] == rest[k - 1]);
            }
        }
    }
}

proof fn lemma_created_dirs_keeps(dirs: Set<Seq<char>>, steps: Seq<StepSpec>, p: Seq<char>)
    requires
        dirs.contains(p) || (steps.len() > 0 && steps[0] == StepSpec::CreateDir(p)),
    ensures
        created_dirs(dirs, steps).contains(p),
    decreases steps.len(),
{
    if steps.len() > 0 {
        let front = steps.drop_last();
        if steps.len() == 1 && !dirs.contains(p) {
            assert(steps.last() == StepSpec::CreateDir(p));
        } else {
            if !dirs.contains(p) {
                assert(front[0] == steps[0]);
            }
            lemma_created_dirs_keeps(dirs, front, p);
        }
    }
}

/// The directories after carrying out what an install call decided: its
/// operations when it succeeded, nothing when it failed.
pub open spec fn dirs_after_install(
    dirs: Set<Seq<char>>,
    outcome: Result<Seq<StepSpec>, InstallError>,
) -> Set<Seq<char>> {
    match outcome {
        Ok(steps) => created_dirs(dirs, steps),
        Err(_) => dirs,
    }
}

/// Idempotence: installing the same archive twice leaves the directories
/// as one install does. After a success the package directory exists and
/// the second call plans no operation; after a failure nothing was planned,
/// and the second call fails in the same way.
pub proof fn lemma_install_idempotent(
    mod_root: Seq<char>,
    full_name: Seq<char>,
    bytes: Seq<u8>,
    dirs: Set<Seq<char>>,
)
    ensures
        ({
            let dest = package_dir(mod_root, full_name);
            let first = install_outcome(mod_root, full_name, dirs.contains(dest), bytes);
            let after = dirs_after_install(dirs, first);
            let second = install_outcome(mod_root, full_name, after.contains(dest), bytes);
            &&& dirs_after_install(after, second) == after
            &&& first is Ok ==> after.contains(dest) && second == Ok::<
                Seq<StepSpec>,
                InstallError,
            >(seq![])
            &&& first is Err ==> second == first
        }),
{
    let dest = package_dir(mod_root, full_name);
    let first = install_outcome(mod_root, full_name, dirs.contains(dest), bytes);
    if first is Ok {
        let steps = first->Ok_0;
        if !dirs.contains(dest) {
            assert(steps[0] == StepSpec::CreateDir(dest));
        }
        lemma_created_dirs_keeps(dirs, steps, dest);
        let after = created_dirs(dirs, steps);
        assert(created_dirs(after, seq![]) == after);
    }
}

/// Relies on `ZipArchive::new` over an in-memory cursor: opens the
/// container. Decoding is opening it and reading each entry, so bytes that
/// do not open decode to nothing, and bytes that open decode to the
/// container's entries exactly when each of them can be read.
#[verifier::external_body]
fn open_archive(bytes: Vec<u8>) -> (r: Result<ZipArchive<Cursor<Vec<u8>>>, ZipError>)
    ensures
        r is Err ==> zip_entries_of(bytes@) is None,
        r is Ok ==> (zip_entries_of(bytes@) is Some <==> forall|i: int|
            0 <= i < archive_contents(r->Ok_0).len() ==> (#[trigger] archive_contents(
                r->Ok_0,
            )[i]) is Some),
        r is Ok && zip_entries_of(bytes@) is Some ==> zip_entries_of(bytes@)->Some_0
            == archive_contents(r->Ok_0).map_values(|o: Option<(Seq<char>, Option<u32>, Seq<u8>)>| o->Some_0),
{
    ZipArchive::new(Cursor::new(bytes))
}

/// Relies on `ZipArchive::len`: the number of entries of the container.
#[verifier::external_body]
fn archive_len(a: &ZipArchive<Cursor<Vec<u8>>>) -> (r: usize)
    ensures
        r == archive_contents(*a).len(),
{
    a.len()
}

/// Relies on `ZipArchive::by_index`: entry `i`, converted to its name, its
/// stored mode and its decompressed bytes. Reading an entry leaves what the
/// container holds as it was.
#[verifier::external_body]
fn read_entry(a: &mut ZipArchive<Cursor<Vec<u8>>>, i: usize) -> (r: Result<
    ArchiveEntry,
    ZipError,
>)
    ensures
        archive_contents(*final(a)) == archive_contents(*old(a)),
        i < archive_contents(*old(a)).len() ==> (r is Ok <==> archive_contents(
            *old(a),
        )[i as int] is Some),
        r is Ok ==> i < archive_contents(*old(a)).len() && archive_contents(*old(a))[i as int]
            == Some(r->Ok_0@),
{
    let mut file = a.by_index(i)?;
    let mut data: Vec<u8> = Vec::new();
    std::io::Read::read_to_end(&mut file, &mut data)?;
    Ok(ArchiveEntry { name: file.name().to_string(), unix_mode: file.unix_mode(), data })
}

/// Decodes every entry of a zip container, in archive order; bytes that zip
/// cannot decode give `ArchiveCorrupt`.
pub fn read_archive(bytes: Vec<u8>) -> (r: Result<Vec<ArchiveEntry>, InstallError>)
    ensures
        match zip_entries_of(bytes@) {
            None => r == Err::<Vec<ArchiveEntry>, InstallError>(InstallError::ArchiveCorrupt),
            Some(es) => r is Ok && entries_view(r->Ok_0@) == es,
        },
{
    let ghost b = bytes@;
    let mut zip = match open_archive(bytes) {
        Ok(z) => z,
        Err(_) => {
            return Err(InstallError::ArchiveCorrupt);
        },
    };
    let ghost c = archive_contents(zip);
    let n = archive_len(&zip);
    let mut entries: Vec<ArchiveEntry> = Vec::new();
    let mut i: usize = 0;
    while i < n
        invariant
            b == bytes@,
            archive_contents(zip) == c,
            n == c.len(),
            i <= n,
            forall|j: int| 0 <= j < i ==> (#[trigger] c[j]) is Some,
            entries@.len() == i,
            entries_view(entries@) == c.subrange(0, i as int).map_values(
                |o: Option<(Seq<char>, Option<u32>, Seq<u8>)>| o->Some_0,
            ),
            zip_entries_of(b) is Some <==> forall|j: int| 0 <= j < c.len() ==> (#[trigger] c[j]) is Some,
            zip_entries_of(b) is Some ==> zip_entries_of(b)->Some_0 == c.map_values(
                |o: Option<(Seq<char>, Option<u32>, Seq<u8>)>| o->Some_0,
            ),
        decreases n - i,
    {
        match read_entry(&mut zip, i) {
            Ok(e) => {
                let ghost ev = e@;
                let ghost before = entries@;
                assert(c[i as int] == Some(ev));
                entries.push(e);
                assert(entries@ == before.push(e));
                assert forall|k: int| 0 <= k < i + 1 implies #[trigger] entries_view(entries@)[k]
                    == c.subrange(0, i + 1).map_values(
                    |o: Option<(Seq<char>, Option<u32>, Seq<u8>)>| o->Some_0,
                )[k] by {
                    if k < i {
                        assert(entries@[k] == before[k]);
                        assert(entries_view(before)[k] == c.subrange(0, i as int).map_values(
                            |o: Option<(Seq<char>, Option<u32>, Seq<u8>)>| o->Some_0,
                        )[k]);
                    }
                }
                assert(entries_view(entries@) =~= c.subrange(0, i + 1).map_values(
                    |o: Option<(Seq<char>, Option<u32>, Seq<u8>)>| o->Some_0,
                ));
            },
            Err(_) => {
                assert(c[i as int] is None);
                assert(!(forall|j: int| 0 <= j < c.len() ==> (#[trigger] c[j]) is Some));
                assert(zip_entries_of(b) is None);
                return Err(InstallError::ArchiveCorrupt);
            },
        }
        i = i + 1;
    }
    assert(c.subrange(0, n as int) =~= c);
    Ok(entries)
}

fn is_separator(c: char) -> (r: bool)
    ensures
        r == is_sep(c),
{
    c == '/' || c == '\\'
}

/// Whether an archive entry name stays inside the directory it is joined to.
pub fn check_entry_name(name: &String) -> (r: bool)
    ensures
        r == entry_name_safe(name@),
{
    let v = chars_of(name.as_str());
    let n = v.len();
    if n > 0 && is_separator(v[0]) {
        return false;
    }
    let mut i: usize = 0;
    while i < n
        invariant
            v@ == name@,
            n == v@.len(),
            i <= n,
            forall|j: int| 0 <= j < i ==> !parent_component_at(name@, j),
        decreases n - i,
    {
        if v[i] == '.' && i + 1 < n && v[i + 1] == '.' && (i == 0 || is_separator(v[i - 1])) && (
        i + 2 == n || is_separator(v[i + 2])) {
            assert(parent_component_at(name@, i as int));
            return false;
        }
        i = i + 1;
    }
    assert(!has_traversal(name@)) by {
        assert forall|j: int| !parent_component_at(name@, j) by {
            if 0 <= j < n {
            }
        }
    }
    true
}

/// Whether a package name can be used as one directory under the mod root.
pub fn check_package_dir(full_name: &String) -> (r: bool)
    ensures
        r == package_dir_safe(full_name@),
{
    let v = chars_of(full_name.as_str());
    let n = v.len();
    if n == 0 {
        return false;
    }
    if n == 1 && v[0] == '.' {
        assert(full_name@ =~= seq!['.']);
        return false;
    }
    if n == 2 && v[0] == '.' && v[1] == '.' {
        assert(full_name@ =~= seq!['.', '.']);
        return false;
    }
    let mut i: usize = 0;
    while i < n
        invariant
            v@ == full_name@,
            n == v@.len(),
            i <= n,
            forall|j: int| 0 <= j < i ==> !is_sep(#[trigger] full_name@[j]),
        decreases n - i,
    {
        if is_separator(v[i]) {
            return false;
        }
        i = i + 1;
    }
    assert(full_name@ != seq!['.']) by {
        if n == 1 {
            assert(full_name@[0] != seq!['.'][0]);
        }
    }
    assert(full_name@ != seq!['.', '.']) by {
        if n == 2 {
            if full_name@[0] == '.' {
                assert(full_name@[1] != seq!['.', '.'][1]);
            } else {
                assert(full_name@[0] != seq!['.', '.'][0]);
            }
        }
    }
    true
}

/// `base/name`
pub(crate) fn join_path(base: &String, name: &str) -> (r: String)
    ensures
        r@ == join(base@, name@),
{
    let mut r = base.clone();
    proof {
        reveal_strlit("/");
    }
    r.append("/");
    r.append(name);
    r
}

/// Index of the last separator of `v`, or `None`.
fn find_last_sep(v: &Vec<char>) -> (r: Option<usize>)
    ensures
        match r {
            Some(k) => last_sep(v@) == k as int && k < v@.len(),
            None => last_sep(v@) == -1,
        },
{
    let mut k: usize = v.len();
    assert(v@.subrange(0, k as int) =~= v@);
    while k > 0
        invariant
            k <= v@.len(),
            last_sep(v@) == last_sep(v@.subrange(0, k as int)),
        decreases k,
    {
        let ghost s = v@.subrange(0, k as int);
        assert(s.drop_last() =~= v@.subrange(0, k - 1));
        if is_separator(v[k - 1]) {
            return Some(k - 1);
        }
        k = k - 1;
    }
    None
}

/// The operations for entry `i`, appended to `steps`.
fn push_entry_steps(dest: &String, e: &ArchiveEntry, i: usize, steps: &mut Vec<InstallStep>)
    ensures
        steps_view(final(steps)@) == steps_view(old(steps)@) + entry_steps(dest@, e@, i as nat),
{
    let name = e.name.as_str();
    let v = chars_of(name);
    let out = join_path(dest, name);
    let ghost before = steps_view(steps@);
    let ghost body: Seq<StepSpec>;
    if v.len() > 0 && is_separator(v[v.len() - 1]) {
        steps.push(InstallStep::CreateDir { path: out.clone() });
        proof {
            body = seq![StepSpec::CreateDir(out@)];
        }
    } else {
        match find_last_sep(&v) {
            Some(k) => {
                let parent = join_path(dest, name.substring_char(0, k));
                steps.push(InstallStep::CreateDir { path: parent });
                steps.push(InstallStep::WriteFile { path: out.clone(), entry: i });
                proof {
                    body = seq![
                        StepSpec::CreateDir(join(dest@, e.name@.subrange(0, k as int))),
                        StepSpec::WriteFile(out@, i as nat),
                    ];
                }
            },
            None => {
                steps.push(InstallStep::WriteFile { path: out.clone(), entry: i });
                proof {
                    body = seq![StepSpec::WriteFile(out@, i as nat)];
                }
            },
        }
    }
    assert(steps_view(steps@) =~= before + body);
    match e.unix_mode {
        Some(m) => {
            steps.push(InstallStep::SetMode { path: out, mode: m });
            assert(steps_view(steps@) =~= before + body.push(StepSpec::SetMode(out@, m)));
        },
        None => {},
    }
}

/// Plans the extraction of decoded archive entries as package `full_name`
/// under `mod_root`. Every path of the plan lies under
/// `mod_root/<full_name>`; an unsafe package or entry name yields
/// `UnsafePath` before any operation is planned.
pub fn plan_extraction(mod_root: &String, full_name: &String, entries: &Vec<ArchiveEntry>) -> (r:
    Result<Vec<InstallStep>, InstallError>)
    ensures
        match r {
            Ok(s) => extraction_plan(mod_root@, full_name@, entries_view(entries@)) == Ok::<
                Seq<StepSpec>,
                InstallError,
            >(steps_view(s@)),
            Err(e) => extraction_plan(mod_root@, full_name@, entries_view(entries@)) == Err::<
                Seq<StepSpec>,
                InstallError,
            >(e),
        },
{
    if !check_package_dir(full_name) {
        return Err(InstallError::UnsafePath);
    }
    let n = entries.len();
    let mut i: usize = 0;
    while i < n
        invariant
            n == entries@.len(),
            i <= n,
            forall|j: int| 0 <= j < i ==> entry_name_safe(#[trigger] entries@[j].name@),
        decreases n - i,
    {
        if !check_entry_name(&entries[i].name) {
            assert(entries_view(entries@)[i as int].0 == entries@[i as int].name@);
            return Err(InstallError::UnsafePath);
        }
        i = i + 1;
    }
    let dest = join_path(mod_root, full_name.as_str());
    let mut steps: Vec<InstallStep> = Vec::new();
    steps.push(InstallStep::CreateDir { path: dest.clone() });
    let mut i: usize = 0;
    while i < n
        invariant
            n == entries@.len(),
            i <= n,
            dest@ == package_dir(mod_root@, full_name@),
            steps_view(steps@) == seq![StepSpec::CreateDir(dest@)] + entries_steps(
                dest@,
                entries_view(entries@).subrange(0, i as int),
            ),
        decreases n - i,
    {
        proof {
            let s = entries_view(entries@).subrange(0, i + 1);
            assert(s.drop_last() =~= entries_view(entries@).subrange(0, i as int));
        }
        push_entry_steps(&dest, &entries[i], i, &mut steps);
        i = i + 1;
    }
    assert(entries_view(entries@).subrange(0, n as int) =~= entries_view(entries@));
    Ok(steps)
}

/// Installs an archive as package `full_name` under `mod_root`, given
/// whether `mod_root/<full_name>` already exists. An existing directory is
/// taken as a complete earlier install: nothing is decoded and nothing is
/// planned, whatever the name and the bytes. Otherwise the name must be one
/// plain directory name (else `UnsafePath`), and the archive is decoded and
/// its extraction planned; bytes that zip cannot decode give
/// `ArchiveCorrupt`.
pub fn install(full_name: &String, archive: Vec<u8>, mod_root: &String, dest_exists: bool) -> (r:
    Result<Extraction, InstallError>)
    ensures
        match r {
            Ok(x) => install_outcome(mod_root@, full_name@, dest_exists, archive@) == Ok::<
                Seq<StepSpec>,
                InstallError,
            >(steps_view(x.steps@)),
            Err(e) => install_outcome(mod_root@, full_name@, dest_exists, archive@) == Err::<
                Seq<StepSpec>,
                InstallError,
            >(e),
        },
        r is Ok && dest_exists ==> r->Ok_0.entries@.len() == 0,
        r is Ok && !dest_exists ==> zip_entries_of(archive@) == Some(
            entries_view(r->Ok_0.entries@),
        ),
{
    if dest_exists {
        let x = Extraction { entries: Vec::new(), steps: Vec::new() };
        assert(steps_view(x.steps@) =~= seq![]);
        return Ok(x);
    }
    if !check_package_dir(full_name) {
        return Err(InstallError::UnsafePath);
    }
    let entries = read_archive(archive)?;
    let steps = plan_extraction(mod_root, full_name, &entries)?;
    Ok(Extraction { entries, steps })
}

} // verus!
