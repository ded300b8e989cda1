//! The decisions of an acquisition run: which package comes next, whether
//! to fetch it, and what each package's outcome was. The caller performs
//! each action (probe the mod root, fetch, install) and reports back with an
//! event; failures are recorded and never stop the run.
use crate::archive::InstallError;
use crate::catalog::Catalog;
use crate::package::{InstallState, Package};
use crate::resolve::{at_positions, resolution, resolve};
use vstd::prelude::*;

verus! {

/// One package of a run: its directory name and where its archive is.
pub struct PlanItem {
    pub full_name: String,
    pub download_url: String,
}

/// How one package of a run ended.
#[derive(PartialEq, Eq, Structural, Clone, Copy, Debug)]
pub enum Outcome {
    /// Its directory already existed; nothing was fetched.
    AlreadyInstalled,
    /// Fetched and installed.
    Installed,
    /// The transport could not deliver its archive.
    FetchFailed,
    /// Delivered, but the install failed.
    InstallFailed(InstallError),
}

/// Where the run stands within the current package.
#[derive(PartialEq, Eq, Structural, Clone, Copy, Debug)]
pub enum Stage {
    Probing,
    Fetching,
    Installing,
}

/// What the caller is to do next.
#[derive(PartialEq, Eq, Structural, Clone, Copy, Debug)]
pub enum Action {
    /// Tell whether the directory of item `index` exists under the mod root.
    Probe { index: usize },
    /// Fetch the archive of item `index`.
    Fetch { index: usize },
    /// Install the fetched archive of item `index`.
    Install { index: usize },
    /// The run is over.
    Finish,
}

/// What the caller reports back.
#[derive(PartialEq, Eq, Structural, Clone, Copy, Debug)]
pub enum Event {
    Probed { exists: bool },
    FetchSucceeded,
    FetchFailed,
    InstallSucceeded,
    InstallFailed { error: InstallError },
    /// Start no further package; the current one runs to its end.
    Cancelled,
}

/// An acquisition run: the target's resolved dependencies in order, then
/// the target itself, and the outcome of each package finished so far.
pub struct Acquisition {
    pub items: Vec<PlanItem>,
    pub outcomes: Vec<Outcome>,
    pub stage: Stage,
    pub cancelled: bool,
}

/// Whether a run with this record is over.
pub open spec fn run_over(n_items: nat, outcomes: Seq<Outcome>, stage: Stage, cancelled: bool) -> bool {
    outcomes.len() >= n_items || (cancelled && stage == Stage::Probing)
}

/// The record after `ev`. An event that does not answer the pending action,
/// or comes after the run is over, changes nothing.
pub open spec fn transition(
    n_items: nat,
    outcomes: Seq<Outcome>,
    stage: Stage,
    cancelled: bool,
    ev: Event,
) -> (Seq<Outcome>, Stage, bool) {
    if run_over(n_items, outcomes, stage, cancelled) {
        (outcomes, stage, cancelled)
    } else {
        match (stage, ev) {
            (_, Event::Cancelled) => (outcomes, stage, true),
            (Stage::Probing, Event::Probed { exists }) => if exists {
                (outcomes.push(Outcome::AlreadyInstalled), Stage::Probing, cancelled)
            } else {
                (outcomes, Stage::Fetching, cancelled)
            },
            (Stage::Fetching, Event::FetchSucceeded) => (outcomes, Stage::Installing, cancelled),
            (Stage::Fetching, Event::FetchFailed) => (
                outcomes.push(Outcome::FetchFailed),
                Stage::Probing,
                cancelled,
            ),
            (Stage::Installing, Event::InstallSucceeded) => (
                outcomes.push(Outcome::Installed),
                Stage::Probing,
                cancelled,
            ),
            (Stage::Installing, Event::InstallFailed { error }) => (
                outcomes.push(Outcome::InstallFailed(error)),
                Stage::Probing,
                cancelled,
            ),
            _ => (outcomes, stage, cancelled),
        }
    }
}

/// A package that ended with its directory in place.
pub open spec fn succeeded(o: Outcome) -> bool {
    o == Outcome::Installed || o == Outcome::AlreadyInstalled
}

impl Acquisition {
    pub open spec fn wf(&self) -> bool {
        &&& self.items@.len() >= 1
        &&& self.outcomes@.len() <= self.items@.len()
        &&& self.stage != Stage::Probing ==> self.outcomes@.len() < self.items@.len()
    }

    pub open spec fn over(&self) -> bool {
        run_over(self.items@.len(), self.outcomes@, self.stage, self.cancelled)
    }

    /// The action the record calls for: the next package is probed, a
    /// missing one fetched, a fetched one installed.
    pub open spec fn pending(&self) -> Action {
        let i = self.outcomes@.len() as usize;
        if self.over() {
            Action::Finish
        } else {
            match self.stage {
                Stage::Probing => Action::Probe { index: i },
                Stage::Fetching => Action::Fetch { index: i },
                Stage::Installing => Action::Install { index: i },
            }
        }
    }

    /// How item `i` looks while the run goes on: `Downloading` between its
    /// fetch and the end of its install, `Downloaded` once it ended with its
    /// directory in place.
    pub open spec fn status_of(&self, i: int) -> InstallState {
        if i < self.outcomes@.len() {
            if succeeded(self.outcomes@[i]) {
                InstallState::Downloaded
            } else {
                InstallState::Undownloaded
            }
        } else if i == self.outcomes@.len() && self.stage != Stage::Probing {
            InstallState::Downloading
        } else {
            InstallState::Undownloaded
        }
    }

    /// Starts a run over the catalog packages at `positions`, in order,
    /// then `target`.
    pub fn from_positions(target: &Package, catalog: &Catalog, positions: &Vec<usize>) -> (a:
        Acquisition)
        requires
            forall|i: int| 0 <= i < positions@.len() ==> (#[trigger] positions@[i]) < catalog@.len(),
        ensures
            a.wf(),
            a.items@.len() == positions@.len() + 1,
            forall|i: int|
                0 <= i < positions@.len() ==> {
                    &&& (#[trigger] a.items@[i]).full_name@ == catalog@[positions@[i] as int].full_name@
                    &&& a.items@[i].download_url@ == catalog@[positions@[i] as int].latest.download_url@
                },
            a.items@.last().full_name@ == target.full_name@,
            a.items@.last().download_url@ == target.latest.download_url@,
            a.outcomes@.len() == 0,
            a.stage == Stage::Probing,
            !a.cancelled,
    {
        let mut items: Vec<PlanItem> = Vec::new();
        let mut i: usize = 0;
        while i < positions.len()
            invariant
                forall|j: int| 0 <= j < positions@.len() ==> (#[trigger] positions@[j]) < catalog@.len(),
                i <= positions@.len(),
                items@.len() == i,
                forall|j: int|
                    0 <= j < i ==> {
                        &&& (#[trigger] items@[j]).full_name@ == catalog@[positions@[j] as int].full_name@
                        &&& items@[j].download_url@ == catalog@[positions@[j] as int].latest.download_url@
                    },
            decreases positions@.len() - i,
        {
            let p = &catalog.packages[positions[i]];
            items.push(
                PlanItem {
                    full_name: p.full_name.clone(),
                    download_url: p.latest.download_url.clone(),
                },
            );
            i = i + 1;
        }
        items.push(
            PlanItem {
                full_name: target.full_name.clone(),
                download_url: target.latest.download_url.clone(),
            },
        );
        Acquisition { items, outcomes: Vec::new(), stage: Stage::Probing, cancelled: false }
    }

    /// Starts a run for `target`: each package that its dependencies
    /// resolve to, in resolver order, then the target.
    pub fn new(target: &Package, catalog: &Catalog) -> (a: Acquisition)
        ensures
            a.wf(),
            a.items@.len() == resolution(target.latest.dependencies@, catalog@).len() + 1,
            forall|i: int|
                0 <= i < a.items@.len() - 1 ==> {
                    &&& (#[trigger] a.items@[i]).full_name@ == resolution(
                        target.latest.dependencies@,
                        catalog@,
                    )[i].full_name@
                    &&& a.items@[i].download_url@ == resolution(
                        target.latest.dependencies@,
                        catalog@,
                    )[i].latest.download_url@
                },
            a.items@.last().full_name@ == target.full_name@,
            a.items@.last().download_url@ == target.latest.download_url@,
            a.outcomes@.len() == 0,
            a.stage == Stage::Probing,
            !a.cancelled,
    {
        let deps = resolve(target, catalog);
        let a = Acquisition::from_positions(target, catalog, &deps);
        proof {
            let res = resolution(target.latest.dependencies@, catalog@);
            assert forall|i: int| 0 <= i < a.items@.len() - 1 implies {
                &&& (#[trigger] a.items@[i]).full_name@ == res[i].full_name@
                &&& a.items@[i].download_url@ == res[i].latest.download_url@
            } by {
                assert(res[i] == at_positions(catalog@, deps@)[i]);
            }
        }
        a
    }

    /// Failures never end a run early: short of a cancellation, the run is
    /// over exactly when every package has an outcome, and each event adds
    /// at most one outcome without cancelling the run.
    pub proof fn lemma_run_covers_every_package(&self, ev: Event)
        requires
            self.wf(),
            !self.cancelled,
            ev != Event::Cancelled,
        ensures
            (self.pending() == Action::Finish) == (self.outcomes@.len() == self.items@.len()),
            ({
                let (o, s, c) = transition(
                    self.items@.len(),
                    self.outcomes@,
                    self.stage,
                    self.cancelled,
                    ev,
                );
                !c && (o.len() == self.outcomes@.len() || o.len() == self.outcomes@.len() + 1)
                    && o.len() <= self.items@.len() && (s != Stage::Probing ==> o.len()
                    < self.items@.len())
            }),
    {
    }

    /// The action to perform next.
    pub fn next_action(&self) -> (r: Action)
        requires
            self.wf(),
        ensures
            r == self.pending(),
    {
        let i = self.outcomes.len();
        if i >= self.items.len() || (self.cancelled && self.stage == Stage::Probing) {
            Action::Finish
        } else {
            match self.stage {
                Stage::Probing => Action::Probe { index: i },
                Stage::Fetching => Action::Fetch { index: i },
                Stage::Installing => Action::Install { index: i },
            }
        }
    }

    /// Records what the caller reports.
    pub fn on_event(&mut self, ev: Event)
        requires
            old(self).wf(),
        ensures
            final(self).wf(),
            final(self).items == old(self).items,
            (final(self).outcomes@, final(self).stage, final(self).cancelled) == transition(
                old(self).items@.len(),
                old(self).outcomes@,
                old(self).stage,
                old(self).cancelled,
                ev,
            ),
    {
        if self.outcomes.len() >= self.items.len() || (self.cancelled && self.stage
            == Stage::Probing) {
            return ;
        }
        match (self.stage, ev) {
            (_, Event::Cancelled) => {
                self.cancelled = true;
            },
            (Stage::Probing, Event::Probed { exists }) => {
                if exists {
                    self.outcomes.push(Outcome::AlreadyInstalled);
                } else {
                    self.stage = Stage::Fetching;
                }
            },
            (Stage::Fetching, Event::FetchSucceeded) => {
                self.stage = Stage::Installing;
            },
            (Stage::Fetching, Event::FetchFailed) => {
                self.outcomes.push(Outcome::FetchFailed);
                self.stage = Stage::Probing;
            },
            (Stage::Installing, Event::InstallSucceeded) => {
                self.outcomes.push(Outcome::Installed);
                self.stage = Stage::Probing;
            },
            (Stage::Installing, Event::InstallFailed { error }) => {
                self.outcomes.push(Outcome::InstallFailed(error));
                self.stage = Stage::Probing;
            },
            _ => {},
        }
    }

    /// How item `i` looks while the run goes on.
    pub fn status(&self, i: usize) -> (r: InstallState)
        ensures
            r == self.status_of(i as int),
    {
        if i < self.outcomes.len() {
            match self.outcomes[i] {
                Outcome::Installed | Outcome::AlreadyInstalled => InstallState::Downloaded,
                _ => InstallState::Undownloaded,
            }
        } else if i == self.outcomes.len() && self.stage != Stage::Probing {
            InstallState::Downloading
        } else {
            InstallState::Undownloaded
        }
    }

    /// Whether the requested package ended with its directory in place;
    /// failed dependencies do not count against the request.
    pub fn target_installed(&self) -> (r: bool)
        requires
            self.wf(),
        ensures
            r == (self.outcomes@.len() == self.items@.len() && succeeded(
                self.outcomes@.last(),
            )),
    {
        let n = self.items.len();
        if self.outcomes.len() == n {
            match self.outcomes[n - 1] {
                Outcome::Installed | Outcome::AlreadyInstalled => true,
                _ => false,
            }
        } else {
            false
        }
    }
}

} // verus!
