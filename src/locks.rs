//! The guard that keeps extractions of one package from overlapping: a
//! package name is claimed before its check-then-extract sequence and
//! released after it.
use vstd::prelude::*;

verus! {

/// The names of the packages whose extraction is under way.
pub struct ExtractionLocks {
    pub held: Vec<String>,
}

impl ExtractionLocks {
    /// Extraction of `name` is under way.
    pub open spec fn holds(&self, name: Seq<char>) -> bool {
        exists|j: int| 0 <= j < self.held@.len() && (#[trigger] self.held@[j])@ == name
    }

    /// Each name is held at most once.
    pub open spec fn wf(&self) -> bool {
        forall|i: int, j: int|
            0 <= i < j < self.held@.len() ==> (#[trigger] self.held@[i])@ != (#[trigger] self.held@[j])@
    }

    pub fn new() -> (r: ExtractionLocks)
        ensures
            r.wf(),
            forall|n: Seq<char>| !r.holds(n),
    {
        ExtractionLocks { held: Vec::new() }
    }

    /// Claims `name`; refused while it is held. Other names are untouched.
    pub fn try_claim(&mut self, name: &String) -> (r: bool)
        requires
            old(self).wf(),
        ensures
            final(self).wf(),
            r == !old(self).holds(name@),
            final(self).holds(name@),
            forall|n: Seq<char>| n != name@ ==> final(self).holds(n) == old(self).holds(n),
    {
        let mut i: usize = 0;
        while i < self.held.len()
            invariant
                old(self).wf(),
                self.held@ == old(self).held@,
                i <= self.held@.len(),
                forall|j: int| 0 <= j < i ==> (#[trigger] self.held@[j])@ != name@,
            decreases self.held@.len() - i,
        {
            if self.held[i] == *name {
                return false;
            }
            i = i + 1;
        }
        let ghost before = self.held@;
        self.held.push(name.clone());
        proof {
            assert(self.held@[before.len() as int]@ == name@);
            assert forall|n: Seq<char>| n != name@ implies self.holds(n) == old(self).holds(n) by {
                if self.holds(n) {
                    let j = choose|j: int| 0 <= j < self.held@.len() && (#[trigger] self.held@[j])@ == n;
                    assert(before[j] == self.held@[j]);
                }
                if old(self).holds(n) {
                    let j = choose|j: int| 0 <= j < before.len() && (#[trigger] before[j])@ == n;
                    assert(self.held@[j] == before[j]);
                }
            }
        }
        true
    }

    /// Releases `name`. Other names are untouched.
    pub fn release(&mut self, name: &String)
        requires
            old(self).wf(),
        ensures
            final(self).wf(),
            !final(self).holds(name@),
            forall|n: Seq<char>| n != name@ ==> final(self).holds(n) == old(self).holds(n),
    {
        let mut i: usize = 0;
        while i < self.held.len()
            invariant
                old(self).wf(),
                self.held@ == old(self).held@,
                i <= self.held@.len(),
                forall|j: int| 0 <= j < i ==> (#[trigger] self.held@[j])@ != name@,
            decreases self.held@.len() - i,
        {
            if self.held[i] == *name {
                let ghost before = self.held@;
                assert(before[i as int]@ == name@);
                self.held.remove(i);
                proof {
                    assert forall|k: int| 0 <= k < self.held@.len() implies #[trigger] self.held@[k]
                        == before[if k < i {
                        k
                    } else {
                        k + 1
                    }] by {
                        assert(self.held@ == before.remove(i as int));
                    }
                    assert forall|a: int, b: int|
                        0 <= a < b < self.held@.len() implies (#[trigger] self.held@[a])@
                        != (#[trigger] self.held@[b])@ by {
                        let a0 = if a < i { a } else { a + 1 };
                        let b0 = if b < i { b } else { b + 1 };
                        assert(self.held@[a] == before[a0]);
                        assert(self.held@[b] == before[b0]);
                    }
                    assert forall|j: int| 0 <= j < self.held@.len() implies (#[trigger] self.held@[j])@
                        != name@ by {
                        let j0 = if j < i { j } else { j + 1 };
                        assert(self.held@[j] == before[j0]);
                    }
                    assert forall|n: Seq<char>| n != name@ implies self.holds(n) == old(self).holds(
                        n,
                    ) by {
                        if self.holds(n) {
                            let j = choose|j: int|
                                0 <= j < self.held@.len() && (#[trigger] self.held@[j])@ == n;
                            let j0 = if j < i { j } else { j + 1 };
                            assert(self.held@[j] == before[j0]);
                        }
                        if old(self).holds(n) {
                            let j = choose|j: int| 0 <= j < before.len() && (#[trigger] before[j])@ == n;
                            assert(j != i);
                            let j1 = if j < i { j } else { j - 1 };
                            assert(self.held@[j1] == before[j]);
                        }
                    }
                }
                return ;
            }
            i = i + 1;
        }
    }
}

} // verus!
