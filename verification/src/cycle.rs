//! One synchronisation cycle, as a machine that the caller drives.
//!
//! A cycle lists the local artifacts and reduces them, fetches the listing
//! of the newest release and reduces its assets, and then brings in every
//! remote artifact that is missing locally or newer than the local one.
//! What has to be done outside (reading the directory, comparing two
//! versions, fetching, removing, installing) the machine asks for as an
//! action; the caller performs it and reports what came of it as an event.
//!
//! Artifacts that are held locally and no longer published are left alone.
//! A removal that fails does not stop the cycle. Any other failure ends it.

use vstd::prelude::*;
use crate::error::SyncError;
use crate::layout::{
    artifact_dir, artifact_dir_of, artifact_path, artifact_path_of, download_url, download_url_of,
    index_path, index_path_of, listing_url, listing_url_of,
};
use crate::listing::{listing_of_text, release_assets};
use crate::name::{decode_pkgname, logical_name, package_files, package_files_of};
use crate::reduce::{slot_of, ReducedSet, Reducer, ReducerView};
use crate::version::{comparison_sign, parse_sign};

verus! {

/// What the machine asks its caller to do.
#[derive(Debug, PartialEq, Eq)]
pub enum Action {
    /// List the names of the entries of the directory `dir`.
    ListLocal { dir: String },
    /// Compare the versions of two artifacts of one logical name: run the
    /// comparison utility on `first` and `second`, in that order. What it
    /// printed is reported as `Event::Compared` if it ran and exited
    /// normally. If it could not be run or exited abnormally, that is
    /// reported as `Event::Failed` with `SyncError::Comparator`.
    Compare { first: String, second: String },
    /// Fetch the release listing from `url`.
    FetchListing { url: String },
    /// Remove the file `path`.
    Remove { path: String },
    /// Download `url` into the file `path`, then have the index `index`
    /// rebuilt with that file.
    Install { url: String, path: String, index: String },
    /// Nothing more: the cycle is over, with this outcome.
    Finish { outcome: Result<(), SyncError> },
}

/// What the caller reports back.
#[derive(Debug, PartialEq, Eq)]
pub enum Event {
    /// The names of the entries of the directory, all of them. A
    /// directory or an entry that cannot be read is a `Failed`.
    LocalEntries { names: Vec<String> },
    /// What the version comparison printed, for a comparison that ran and
    /// exited normally. Any other end of the comparison is a `Failed`.
    Compared { output: Vec<u8> },
    /// The bytes of the release listing.
    Listing { body: Vec<u8> },
    /// The file is removed.
    Removed,
    /// The artifact is downloaded and the index builder has run.
    Installed,
    /// The action failed.
    Failed { error: SyncError },
}

/// An action, with its texts as sequences of characters.
pub ghost enum ActionView {
    ListLocal { dir: Seq<char> },
    Compare { first: Seq<char>, second: Seq<char> },
    FetchListing { url: Seq<char> },
    Remove { path: Seq<char> },
    Install { url: Seq<char>, path: Seq<char>, index: Seq<char> },
    Finish { outcome: Result<(), SyncError> },
}

/// An event, with its texts and bytes as sequences.
pub ghost enum EventView {
    LocalEntries { names: Seq<Seq<char>> },
    Compared { output: Seq<u8> },
    Listing { body: Seq<u8> },
    Removed,
    Installed,
    Failed { error: SyncError },
}

impl View for Action {
    type V = ActionView;

    open spec fn view(&self) -> ActionView {
        match *self {
            Action::ListLocal { dir } => ActionView::ListLocal { dir: dir@ },
            Action::Compare { first, second } => ActionView::Compare {
                first: first@,
                second: second@,
            },
            Action::FetchListing { url } => ActionView::FetchListing { url: url@ },
            Action::Remove { path } => ActionView::Remove { path: path@ },
            Action::Install { url, path, index } => ActionView::Install {
                url: url@,
                path: path@,
                index: index@,
            },
            Action::Finish { outcome } => ActionView::Finish { outcome },
        }
    }
}

impl View for Event {
    type V = EventView;

    open spec fn view(&self) -> EventView {
        match *self {
            Event::LocalEntries { names } => EventView::LocalEntries { names: names.deep_view() },
            Event::Compared { output } => EventView::Compared { output: output@ },
            Event::Listing { body } => EventView::Listing { body: body@ },
            Event::Removed => EventView::Removed,
            Event::Installed => EventView::Installed,
            Event::Failed { error } => EventView::Failed { error },
        }
    }
}

/// The two reduced sets and the remote artifact that is being dealt with.
pub ghost struct DiffView {
    pub local: Seq<Seq<char>>,
    pub remote: Seq<Seq<char>>,
    pub pos: int,
}

impl DiffView {
    /// The remote artifact that is being dealt with.
    pub open spec fn offered(self) -> Seq<char> {
        self.remote[self.pos]
    }

    /// The local artifact of the same logical name.
    pub open spec fn held(self) -> Seq<char> {
        match slot_of(self.local, logical_name(self.offered())) {
            Some(i) => self.local[i],
            None => Seq::empty(),
        }
    }
}

/// Where a cycle stands, by what it waits for.
pub ghost enum PhaseView {
    /// The entries of the directory.
    ListingLocal,
    /// A comparison between two local artifacts.
    ReducingLocal { reducer: ReducerView },
    /// The release listing.
    ListingRemote { local: Seq<Seq<char>> },
    /// A comparison between two remote artifacts.
    ReducingRemote { local: Seq<Seq<char>>, reducer: ReducerView },
    /// The comparison of a remote artifact with the local one of its name.
    Judging { diff: DiffView },
    /// The removal of the local artifact that a newer one replaces.
    Removing { diff: DiffView },
    /// The installation of a remote artifact.
    Installing { diff: DiffView },
    /// Nothing: the cycle is over.
    Finished,
}

/// A cycle: the repository directory, the remote repository, and the phase.
pub ghost struct CycleView {
    pub base_dir: Seq<char>,
    pub github_repo: Seq<char>,
    pub phase: PhaseView,
}

impl CycleView {
    /// The same cycle in another phase.
    pub open spec fn at(self, phase: PhaseView) -> CycleView {
        CycleView { base_dir: self.base_dir, github_repo: self.github_repo, phase }
    }

    /// A cycle that has not begun, and the action that begins it.
    pub open spec fn begin(base_dir: Seq<char>, github_repo: Seq<char>) -> (CycleView, ActionView) {
        (
            CycleView { base_dir, github_repo, phase: PhaseView::ListingLocal },
            ActionView::ListLocal { dir: artifact_dir_of(base_dir) },
        )
    }

    /// The end of the cycle.
    pub open spec fn finish(self, outcome: Result<(), SyncError>) -> (CycleView, ActionView) {
        (self.at(PhaseView::Finished), ActionView::Finish { outcome })
    }

    /// The action that installs `artifact`.
    pub open spec fn install(self, artifact: Seq<char>) -> ActionView {
        ActionView::Install {
            url: download_url_of(self.github_repo, artifact),
            path: artifact_path_of(self.base_dir, artifact),
            index: index_path_of(self.base_dir, self.github_repo),
        }
    }

    /// Goes on with the local reduction: to its next comparison, or, when it
    /// is done, to the release listing.
    pub open spec fn reduce_local(self, reducer: ReducerView) -> (CycleView, ActionView) {
        match reducer.pending() {
            Some((first, second)) => (
                self.at(PhaseView::ReducingLocal { reducer }),
                ActionView::Compare { first, second },
            ),
            None => (
                self.at(PhaseView::ListingRemote { local: reducer.set }),
                ActionView::FetchListing { url: listing_url_of(self.github_repo) },
            ),
        }
    }

    /// Goes on with the remote reduction: to its next comparison, or, when
    /// it is done, to the first remote artifact.
    pub open spec fn reduce_remote(self, local: Seq<Seq<char>>, reducer: ReducerView) -> (
        CycleView,
        ActionView,
    ) {
        match reducer.pending() {
            Some((first, second)) => (
                self.at(PhaseView::ReducingRemote { local, reducer }),
                ActionView::Compare { first, second },
            ),
            None => self.visit(DiffView { local, remote: reducer.set, pos: 0 }),
        }
    }

    /// Turns to the remote artifact at `diff.pos`: one whose name is missing
    /// locally is installed, one whose name is held is compared with the
    /// held artifact. Behind the last one the cycle ends.
    pub open spec fn visit(self, diff: DiffView) -> (CycleView, ActionView) {
        if 0 <= diff.pos < diff.remote.len() {
            match slot_of(diff.local, logical_name(diff.offered())) {
                Some(i) => (
                    self.at(PhaseView::Judging { diff }),
                    ActionView::Compare { first: diff.offered(), second: diff.local[i] },
                ),
                None => (self.at(PhaseView::Installing { diff }), self.install(diff.offered())),
            }
        } else {
            self.finish(Ok(()))
        }
    }

    /// Turns to the remote artifact behind the one at `diff.pos`.
    pub open spec fn visit_next(self, diff: DiffView) -> (CycleView, ActionView) {
        self.visit(DiffView { local: diff.local, remote: diff.remote, pos: diff.pos + 1 })
    }

    /// The cycle after `event`, and what it asks for next.
    pub open spec fn step(self, event: EventView) -> (CycleView, ActionView) {
        match (self.phase, event) {
            (PhaseView::Finished, _) => self.finish(Err(SyncError::OutOfTurn)),
            (PhaseView::Removing { diff }, EventView::Removed)
            | (PhaseView::Removing { diff }, EventView::Failed { .. }) => (
                self.at(PhaseView::Installing { diff }),
                self.install(diff.offered()),
            ),
            (_, EventView::Failed { error }) => self.finish(Err(error)),
            (PhaseView::ListingLocal, EventView::LocalEntries { names }) => self.reduce_local(
                ReducerView::start(package_files_of(names)),
            ),
            (PhaseView::ReducingLocal { reducer }, EventView::Compared { output }) => {
                match comparison_sign(output) {
                    Some(sign) => self.reduce_local(reducer.answer(sign)),
                    None => self.finish(Err(SyncError::Comparator)),
                }
            },
            (PhaseView::ListingRemote { local }, EventView::Listing { body }) => {
                match listing_of_text(body) {
                    Ok(Some(names)) => self.reduce_remote(local, ReducerView::start(names)),
                    Ok(None) => self.finish(Ok(())),
                    Err(error) => self.finish(Err(error)),
                }
            },
            (PhaseView::ReducingRemote { local, reducer }, EventView::Compared { output }) => {
                match comparison_sign(output) {
                    Some(sign) => self.reduce_remote(local, reducer.answer(sign)),
                    None => self.finish(Err(SyncError::Comparator)),
                }
            },
            (PhaseView::Judging { diff }, EventView::Compared { output }) => {
                match comparison_sign(output) {
                    Some(sign) => if sign > 0 {
                        (
                            self.at(PhaseView::Removing { diff }),
                            ActionView::Remove {
                                path: artifact_path_of(self.base_dir, diff.held()),
                            },
                        )
                    } else {
                        self.visit_next(diff)
                    },
                    None => self.finish(Err(SyncError::Comparator)),
                }
            },
            (PhaseView::Installing { diff }, EventView::Installed) => self.visit_next(diff),
            _ => self.finish(Err(SyncError::OutOfTurn)),
        }
    }

    /// The phase holds what its actions need: reductions that are
    /// well-formed, and a remote artifact to deal with.
    pub open spec fn wf(self) -> bool {
        match self.phase {
            PhaseView::ReducingLocal { reducer } => reducer.wf(),
            PhaseView::ReducingRemote { local, reducer } => reducer.wf(),
            PhaseView::Judging { diff } | PhaseView::Removing { diff } => {
                &&& 0 <= diff.pos < diff.remote.len()
                &&& slot_of(diff.local, logical_name(diff.offered())) is Some
            },
            PhaseView::Installing { diff } => 0 <= diff.pos < diff.remote.len(),
            _ => true,
        }
    }
}

/// The repository directory and the remote repository.
struct Site {
    base_dir: String,
    github_repo: String,
}

/// The two reduced sets and the position of the remote artifact that is
/// being dealt with.
struct Diff {
    local: ReducedSet,
    remote: ReducedSet,
    pos: usize,
}

/// Where a cycle stands, with what it holds there.
enum Phase {
    ListingLocal,
    ReducingLocal { reducer: Reducer },
    ListingRemote { local: ReducedSet },
    ReducingRemote { local: ReducedSet, reducer: Reducer },
    Judging { diff: Diff },
    Removing { diff: Diff },
    Installing { diff: Diff },
    Finished,
}

/// One synchronisation cycle.
pub struct SyncCycle {
    site: Site,
    phase: Phase,
}

impl View for Diff {
    type V = DiffView;

    closed spec fn view(&self) -> DiffView {
        DiffView { local: self.local@, remote: self.remote@, pos: self.pos as int }
    }
}

impl Diff {
    /// Both sets are well-formed.
    spec fn wf(&self) -> bool {
        self.local.wf() && self.remote.wf()
    }
}

impl View for Phase {
    type V = PhaseView;

    closed spec fn view(&self) -> PhaseView {
        match *self {
            Phase::ListingLocal => PhaseView::ListingLocal,
            Phase::ReducingLocal { reducer } => PhaseView::ReducingLocal { reducer: reducer@ },
            Phase::ListingRemote { local } => PhaseView::ListingRemote { local: local@ },
            Phase::ReducingRemote { local, reducer } => PhaseView::ReducingRemote {
                local: local@,
                reducer: reducer@,
            },
            Phase::Judging { diff } => PhaseView::Judging { diff: diff@ },
            Phase::Removing { diff } => PhaseView::Removing { diff: diff@ },
            Phase::Installing { diff } => PhaseView::Installing { diff: diff@ },
            Phase::Finished => PhaseView::Finished,
        }
    }
}

impl Phase {
    /// What the phase holds is well-formed.
    spec fn wf(&self) -> bool {
        match *self {
            Phase::ReducingLocal { reducer } => reducer.wf(),
            Phase::ListingRemote { local } => local.wf(),
            Phase::ReducingRemote { local, reducer } => local.wf() && reducer.wf(),
            Phase::Judging { diff } | Phase::Removing { diff } | Phase::Installing { diff } => {
                diff.wf()
            },
            _ => true,
        }
    }
}

impl Site {
    /// The cycle of this site in the phase `phase`.
    spec fn at(&self, phase: PhaseView) -> CycleView {
        CycleView { base_dir: self.base_dir@, github_repo: self.github_repo@, phase }
    }

    /// The cycle of this site before anything is known.
    spec fn bare(&self) -> CycleView {
        self.at(PhaseView::Finished)
    }

    /// Ends the cycle with `outcome`.
    fn finish(self, outcome: Result<(), SyncError>) -> (next: (SyncCycle, Action))
        ensures
            (next.0@, next.1@) == self.bare().finish(outcome),
            next.0.wf(),
    {
        (SyncCycle { site: self, phase: Phase::Finished }, Action::Finish { outcome })
    }

    /// The action that installs `artifact`.
    fn install(&self, artifact: &str) -> (action: Action)
        ensures
            action@ == self.bare().install(artifact@),
    {
        Action::Install {
            url: download_url(self.github_repo.as_str(), artifact),
            path: artifact_path(self.base_dir.as_str(), artifact),
            index: index_path(self.base_dir.as_str(), self.github_repo.as_str()),
        }
    }

    /// Goes on with the local reduction, or on to the release listing.
    fn reduce_local(self, reducer: Reducer) -> (next: (SyncCycle, Action))
        requires
            reducer.wf(),
        ensures
            (next.0@, next.1@) == self.bare().reduce_local(reducer@),
            next.0.wf(),
    {
        proof {
            reducer.lemma_view_wf();
        }
        match reducer.pending() {
            Some((first, second)) => (
                SyncCycle { site: self, phase: Phase::ReducingLocal { reducer } },
                Action::Compare { first, second },
            ),
            None => {
                let url = listing_url(self.github_repo.as_str());
                let local = reducer.into_set();
                (
                    SyncCycle { site: self, phase: Phase::ListingRemote { local } },
                    Action::FetchListing { url },
                )
            },
        }
    }

    /// Goes on with the remote reduction, or on to the first remote artifact.
    fn reduce_remote(self, local: ReducedSet, reducer: Reducer) -> (next: (SyncCycle, Action))
        requires
            local.wf(),
            reducer.wf(),
        ensures
            (next.0@, next.1@) == self.bare().reduce_remote(local@, reducer@),
            next.0.wf(),
    {
        proof {
            reducer.lemma_view_wf();
        }
        match reducer.pending() {
            Some((first, second)) => (
                SyncCycle { site: self, phase: Phase::ReducingRemote { local, reducer } },
                Action::Compare { first, second },
            ),
            None => {
                let remote = reducer.into_set();
                self.visit(Diff { local, remote, pos: 0 })
            },
        }
    }

    /// Turns to the remote artifact at `diff.pos`.
    fn visit(self, diff: Diff) -> (next: (SyncCycle, Action))
        requires
            diff.wf(),
        ensures
            (next.0@, next.1@) == self.bare().visit(diff@),
            next.0.wf(),
    {
        let offered = match diff.remote.artifact_at(diff.pos) {
            Some(offered) => offered.clone(),
            None => {
                return self.finish(Ok(()));
            },
        };
        let name = decode_pkgname(offered.as_str());
        match diff.local.get(name.as_str()) {
            Some(held) => {
                let second = held.clone();
                (
                    SyncCycle { site: self, phase: Phase::Judging { diff } },
                    Action::Compare { first: offered, second },
                )
            },
            None => {
                let action = self.install(offered.as_str());
                (SyncCycle { site: self, phase: Phase::Installing { diff } }, action)
            },
        }
    }

    /// The file of the local artifact that the one at `diff.pos` replaces.
    fn held_path(&self, diff: &Diff) -> (path: String)
        requires
            diff.wf(),
            diff.pos < diff.remote@.len(),
        ensures
            path@ == artifact_path_of(self.base_dir@, diff@.held()),
    {
        let held = match diff.remote.artifact_at(diff.pos) {
            Some(offered) => {
                let name = decode_pkgname(offered.as_str());
                match diff.local.get(name.as_str()) {
                    Some(held) => held.clone(),
                    None => String::new(),
                }
            },
            None => String::new(),
        };
        artifact_path(self.base_dir.as_str(), held.as_str())
    }

    /// Turns to the remote artifact behind the one at `diff.pos`.
    fn visit_next(self, diff: Diff) -> (next: (SyncCycle, Action))
        requires
            diff.wf(),
            diff.pos < diff.remote@.len(),
        ensures
            (next.0@, next.1@) == self.bare().visit_next(diff@),
            next.0.wf(),
    {
        let Diff { local, remote, pos } = diff;
        let next: usize = if pos < remote.len() {
            pos + 1
        } else {
            pos
        };
        self.visit(Diff { local, remote, pos: next })
    }
}

impl View for SyncCycle {
    type V = CycleView;

    closed spec fn view(&self) -> CycleView {
        self.site.at(self.phase@)
    }
}

impl SyncCycle {
    /// The parts of the cycle are well-formed.
    pub closed spec fn wf(&self) -> bool {
        self.phase.wf() && self@.wf()
    }

    /// A cycle on the repository directory `base_dir` and the remote
    /// repository `github_repo`, with the action that begins it.
    pub fn new(base_dir: String, github_repo: String) -> (next: (SyncCycle, Action))
        ensures
            (next.0@, next.1@) == CycleView::begin(base_dir@, github_repo@),
            next.0.wf(),
    {
        let dir = artifact_dir(base_dir.as_str());
        (
            SyncCycle { site: Site { base_dir, github_repo }, phase: Phase::ListingLocal },
            Action::ListLocal { dir },
        )
    }

    /// Whether the cycle is over.
    pub fn is_finished(&self) -> (over: bool)
        ensures
            over == (self@.phase is Finished),
    {
        match self.phase {
            Phase::Finished => true,
            _ => false,
        }
    }

    /// Takes in what came of the last action, and gives the next one.
    pub fn step(self, event: Event) -> (next: (SyncCycle, Action))
        requires
            self.wf(),
        ensures
            (next.0@, next.1@) == self@.step(event@),
            next.0.wf(),
    {
        let SyncCycle { site, phase } = self;
        match (phase, event) {
            (Phase::Finished, _) => site.finish(Err(SyncError::OutOfTurn)),
            (Phase::Removing { diff }, Event::Removed)
            | (Phase::Removing { diff }, Event::Failed { .. }) => {
                match diff.remote.artifact_at(diff.pos) {
                    Some(offered) => {
                        let action = site.install(offered.as_str());
                        (SyncCycle { site, phase: Phase::Installing { diff } }, action)
                    },
                    None => site.finish(Err(SyncError::OutOfTurn)),
                }
            },
            (_, Event::Failed { error }) => site.finish(Err(error)),
            (Phase::ListingLocal, Event::LocalEntries { names }) => {
                let reducer = Reducer::new(package_files(&names));
                site.reduce_local(reducer)
            },
            (Phase::ReducingLocal { reducer }, Event::Compared { output }) => {
                match parse_sign(output.as_slice()) {
                    Ok(sign) => {
                        let mut reducer = reducer;
                        reducer.answer(sign);
                        site.reduce_local(reducer)
                    },
                    Err(_) => site.finish(Err(SyncError::Comparator)),
                }
            },
            (Phase::ListingRemote { local }, Event::Listing { body }) => {
                match release_assets(body.as_slice()) {
                    Ok(Some(names)) => {
                        let reducer = Reducer::new(names);
                        site.reduce_remote(local, reducer)
                    },
                    Ok(None) => site.finish(Ok(())),
                    Err(error) => site.finish(Err(error)),
                }
            },
            (Phase::ReducingRemote { local, reducer }, Event::Compared { output }) => {
                match parse_sign(output.as_slice()) {
                    Ok(sign) => {
                        let mut reducer = reducer;
                        reducer.answer(sign);
                        site.reduce_remote(local, reducer)
                    },
                    Err(_) => site.finish(Err(SyncError::Comparator)),
                }
            },
            (Phase::Judging { diff }, Event::Compared { output }) => {
                match parse_sign(output.as_slice()) {
                    Ok(sign) => {
                        if sign > 0 {
                            let path = site.held_path(&diff);
                            (SyncCycle { site, phase: Phase::Removing { diff } }, Action::Remove {
                                path,
                            })
                        } else {
                            site.visit_next(diff)
                        }
                    },
                    Err(_) => site.finish(Err(SyncError::Comparator)),
                }
            },
            (Phase::Installing { diff }, Event::Installed) => site.visit_next(diff),
            _ => site.finish(Err(SyncError::OutOfTurn)),
        }
    }
}

} // verus!
