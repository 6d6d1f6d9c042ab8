//! A cycle that is driven without a fault.
//!
//! The world that a cycle meets is modelled by what it would answer: the
//! entries of the directory, the bytes of the release listing, and what the
//! version comparison prints for two artifacts. Driving the machine through
//! such a world, with every removal and installation succeeding, performs
//! exactly the plan of the cycle.

use vstd::prelude::*;
use crate::cycle::{ActionView, CycleView, DiffView, EventView, PhaseView};
use crate::error::SyncError;
use crate::layout::{artifact_path_of, listing_url_of};
use crate::listing::listing_of_text;
use crate::name::{is_package_file, logical_name, package_files_of};
use crate::plan::{
    cycle_plan, directory_after, lemma_no_assets_no_mutations, lemma_second_cycle_is_idle,
    mutations_for, orders_versions, plan, Mutation,
};
use crate::reduce::{
    follows, lemma_answer_follows, lemma_answer_wf, lemma_follows_done, lemma_follows_wf,
    lemma_settle_advances, lemma_settle_wf, lemma_start_follows, reduce, slot_of, ReducerView,
};
use crate::version::comparison_sign;

verus! {

/// What a cycle meets outside.
pub ghost struct World {
    /// The names of the entries of the directory.
    pub entries: Seq<Seq<char>>,
    /// The bytes of the release listing.
    pub body: Seq<u8>,
    /// What the version comparison prints for two artifacts.
    pub output: spec_fn(Seq<char>, Seq<char>) -> Seq<u8>,
}

impl World {
    /// The sign that the comparison of `first` with `second` stands for.
    pub open spec fn sign(self, first: Seq<char>, second: Seq<char>) -> Option<int> {
        comparison_sign((self.output)(first, second))
    }

    /// The comparison as a function into the integers.
    pub open spec fn order(self) -> spec_fn(Seq<char>, Seq<char>) -> int {
        |first: Seq<char>, second: Seq<char>|
            match self.sign(first, second) {
                Some(sign) => sign,
                None => 0,
            }
    }

    /// The listing can be read, and every comparison prints a number.
    pub open spec fn faultless(self) -> bool {
        &&& listing_of_text(self.body) is Ok
        &&& forall|first: Seq<char>, second: Seq<char>| #[trigger]
            self.sign(first, second) is Some
    }

    /// What comes of `action` when nothing fails.
    pub open spec fn respond(self, action: ActionView) -> EventView {
        match action {
            ActionView::ListLocal { .. } => EventView::LocalEntries { names: self.entries },
            ActionView::Compare { first, second } => EventView::Compared {
                output: (self.output)(first, second),
            },
            ActionView::FetchListing { .. } => EventView::Listing { body: self.body },
            ActionView::Remove { .. } => EventView::Removed,
            _ => EventView::Installed,
        }
    }

    /// The removals and installations that the cycle `v` performs from
    /// `action` on, in order, and the outcome with which it ends.
    pub open spec fn run(self, v: CycleView, action: ActionView) -> (
        Seq<ActionView>,
        Result<(), SyncError>,
    )
        decreases rank(v), inner(v),
        via Self::run_decreases
    {
        match action {
            ActionView::Finish { outcome } => (Seq::empty(), outcome),
            _ => if v.wf() && !(v.phase is Finished) {
                let next = v.step(self.respond(action));
                let rest = self.run(next.0, next.1);
                (effect_of(action) + rest.0, rest.1)
            } else {
                (Seq::empty(), Err(SyncError::OutOfTurn))
            },
        }
    }

    #[via_fn]
    proof fn run_decreases(self, v: CycleView, action: ActionView) {
        if !(action is Finish) && v.wf() && !(v.phase is Finished) {
            lemma_step_descends(v, self.respond(action));
        }
    }
}

/// `action` where it changes the repository directory, nothing otherwise.
pub open spec fn effect_of(action: ActionView) -> Seq<ActionView> {
    if action is Remove || action is Install {
        seq![action]
    } else {
        Seq::empty()
    }
}

/// The action that performs the mutation `m` in the cycle `v`.
pub open spec fn action_of(v: CycleView, m: Mutation) -> ActionView {
    match m {
        Mutation::Remove { artifact } => ActionView::Remove {
            path: artifact_path_of(v.base_dir, artifact),
        },
        Mutation::Install { artifact } => v.install(artifact),
    }
}

/// The actions that perform the mutations of `plan` in the cycle `v`.
pub open spec fn actions_of(v: CycleView, plan: Seq<Mutation>) -> Seq<ActionView> {
    Seq::new(plan.len(), |i: int| action_of(v, plan[i]))
}

/// How far a cycle is from its end, by its phase.
pub open spec fn rank(v: CycleView) -> int {
    match v.phase {
        PhaseView::ListingLocal => 5,
        PhaseView::ReducingLocal { .. } => 4,
        PhaseView::ListingRemote { .. } => 3,
        PhaseView::ReducingRemote { .. } => 2,
        PhaseView::Judging { .. } | PhaseView::Removing { .. } | PhaseView::Installing { .. } => 1,
        PhaseView::Finished => 0,
    }
}

/// How far a cycle is from the end of its phase.
pub open spec fn inner(v: CycleView) -> int {
    match v.phase {
        PhaseView::ReducingLocal { reducer } => reducer.input.len() - reducer.pos,
        PhaseView::ReducingRemote { reducer, .. } => reducer.input.len() - reducer.pos,
        PhaseView::Judging { diff } => 3 * (diff.remote.len() - diff.pos) + 2,
        PhaseView::Removing { diff } => 3 * (diff.remote.len() - diff.pos) + 1,
        PhaseView::Installing { diff } => 3 * (diff.remote.len() - diff.pos),
        _ => 0,
    }
}

/// A step keeps a cycle well-formed and brings it nearer to its end.
pub proof fn lemma_step_descends(v: CycleView, event: EventView)
    requires
        v.wf(),
        !(v.phase is Finished),
    ensures
        v.step(event).0.wf(),
        v.step(event).0.base_dir == v.base_dir,
        v.step(event).0.github_repo == v.github_repo,
        0 <= rank(v.step(event).0),
        0 <= inner(v.step(event).0),
        rank(v.step(event).0) < rank(v) || (rank(v.step(event).0) == rank(v) && inner(
            v.step(event).0,
        ) < inner(v)),
{
    match (v.phase, event) {
        (PhaseView::ListingLocal, EventView::LocalEntries { names }) => {
            lemma_start_wf(package_files_of(names));
        },
        (PhaseView::ReducingLocal { reducer }, EventView::Compared { output }) => {
            if let Some(sign) = comparison_sign(output) {
                lemma_answer_advances(reducer, sign);
            }
        },
        (PhaseView::ListingRemote { local }, EventView::Listing { body }) => {
            if let Ok(Some(names)) = listing_of_text(body) {
                lemma_start_wf(names);
            }
        },
        (PhaseView::ReducingRemote { local, reducer }, EventView::Compared { output }) => {
            if let Some(sign) = comparison_sign(output) {
                lemma_answer_advances(reducer, sign);
            }
        },
        _ => {},
    }
}

/// A reduction that has just been started is well-formed.
proof fn lemma_start_wf(list: Seq<Seq<char>>)
    ensures
        ReducerView::start(list).wf(),
        ReducerView::start(list).input == list,
{
    let first = ReducerView { input: list, pos: 0, set: Seq::empty() };
    assert(list.take(0) =~= Seq::<Seq<char>>::empty());
    lemma_settle_wf(first);
    lemma_settle_advances(first);
}

/// An answer keeps a reduction well-formed and, where a comparison was
/// pending, moves it forward.
proof fn lemma_answer_advances(r: ReducerView, sign: int)
    requires
        r.wf(),
    ensures
        r.answer(sign).wf(),
        r.answer(sign).input == r.input,
        r.pending() is Some ==> r.answer(sign).pos > r.pos,
        r.pending() is None ==> r.answer(sign) == r,
{
    lemma_answer_wf(r, sign);
    if r.pending() is Some {
        lemma_settle_advances(
            ReducerView {
                input: r.input,
                pos: r.pos + 1,
                set: crate::reduce::absorb(r.set, r.input[r.pos], sign),
            },
        );
    }
}

/// From any remote artifact on, a cycle that is driven without a fault
/// performs the plan for the artifacts that are left, and ends well.
proof fn lemma_diff_follows_plan(world: World, v: CycleView, diff: DiffView)
    requires
        world.faultless(),
        0 <= diff.pos <= diff.remote.len(),
    ensures
        world.run(v.visit(diff).0, v.visit(diff).1) == (
            actions_of(v, plan(diff.local, diff.remote.skip(diff.pos), world.order())),
            Ok::<(), SyncError>(()),
        ),
    decreases diff.remote.len() - diff.pos,
{
    let order = world.order();
    let left = diff.remote.skip(diff.pos);
    if diff.pos == diff.remote.len() {
        assert(actions_of(v, plan(diff.local, left, order)) =~= Seq::<ActionView>::empty());
    } else {
        let offered = diff.offered();
        let next = DiffView { local: diff.local, remote: diff.remote, pos: diff.pos + 1 };
        let rest = plan(diff.local, diff.remote.skip(diff.pos + 1), order);
        let here = mutations_for(diff.local, offered, order);
        assert(left.first() == offered);
        assert(left.drop_first() =~= diff.remote.skip(diff.pos + 1));
        assert(plan(diff.local, left, order) == here + rest);
        lemma_diff_follows_plan(world, v, next);
        let tail = world.run(v.visit(next).0, v.visit(next).1);
        assert(tail.0 == actions_of(v, rest));
        let installing = v.at(PhaseView::Installing { diff });
        let install = v.install(offered);
        assert(world.run(installing, install) == (seq![install] + tail.0, tail.1)) by {
            assert(installing.step(EventView::Installed) == v.visit(next));
        }
        match slot_of(diff.local, logical_name(offered)) {
            None => {
                assert(v.visit(diff) == (installing, install));
                assert(actions_of(v, here + rest) =~= seq![install] + actions_of(v, rest));
            },
            Some(i) => {
                let judging = v.at(PhaseView::Judging { diff });
                let held = diff.local[i];
                let ask = ActionView::Compare { first: offered, second: held };
                assert(v.visit(diff) == (judging, ask));
                assert(world.sign(offered, held) is Some);
                let sign = world.sign(offered, held).unwrap();
                assert(order(offered, held) == sign);
                let answered = judging.step(world.respond(ask));
                assert(world.run(judging, ask) == (
                    effect_of(ask) + world.run(answered.0, answered.1).0,
                    world.run(answered.0, answered.1).1,
                ));
                assert(effect_of(ask) + world.run(answered.0, answered.1).0 =~= world.run(
                    answered.0,
                    answered.1,
                ).0);
                if sign > 0 {
                    let removing = v.at(PhaseView::Removing { diff });
                    let remove = ActionView::Remove {
                        path: artifact_path_of(v.base_dir, held),
                    };
                    assert(answered == (removing, remove));
                    assert(removing.step(EventView::Removed) == (installing, install));
                    assert(world.run(removing, remove) == (
                        seq![remove] + (seq![install] + tail.0),
                        tail.1,
                    ));
                    assert(actions_of(v, here + rest) =~= seq![remove] + (seq![install]
                        + actions_of(v, rest)));
                } else {
                    assert(answered == v.visit(next));
                    assert(actions_of(v, here + rest) =~= actions_of(v, rest));
                }
            },
        }
    }
}

/// A remote reduction that follows the comparison of the world leads to
/// the first remote artifact with the reduced set of the assets.
proof fn lemma_remote_reduction(
    world: World,
    v: CycleView,
    local: Seq<Seq<char>>,
    r: ReducerView,
)
    requires
        world.faultless(),
        follows(r, world.order()),
    ensures
        world.run(v.reduce_remote(local, r).0, v.reduce_remote(local, r).1) == ({
            let first = v.visit(
                DiffView { local, remote: reduce(r.input, world.order()), pos: 0 },
            );
            world.run(first.0, first.1)
        }),
    decreases r.input.len() - r.pos,
{
    let order = world.order();
    match r.pending() {
        Some((first, second)) => {
            let here = v.at(PhaseView::ReducingRemote { local, reducer: r });
            let ask = ActionView::Compare { first, second };
            assert(world.sign(first, second) is Some);
            let sign = world.sign(first, second).unwrap();
            assert(order(first, second) == sign);
            lemma_follows_wf(r, order);
            lemma_answer_follows(r, order);
            let answered = here.step(world.respond(ask));
            assert(answered == v.reduce_remote(local, r.answer(sign)));
            assert(world.run(here, ask) == (
                effect_of(ask) + world.run(answered.0, answered.1).0,
                world.run(answered.0, answered.1).1,
            ));
            assert(effect_of(ask) + world.run(answered.0, answered.1).0 =~= world.run(
                answered.0,
                answered.1,
            ).0);
            lemma_remote_reduction(world, v, local, r.answer(sign));
        },
        None => {
            lemma_follows_done(r, order);
        },
    }
}

/// A local reduction that follows the comparison of the world leads to the
/// release listing with the reduced set of the package files.
proof fn lemma_local_reduction(world: World, v: CycleView, r: ReducerView)
    requires
        world.faultless(),
        follows(r, world.order()),
    ensures
        world.run(v.reduce_local(r).0, v.reduce_local(r).1) == world.run(
            v.at(PhaseView::ListingRemote { local: reduce(r.input, world.order()) }),
            ActionView::FetchListing { url: listing_url_of(v.github_repo) },
        ),
    decreases r.input.len() - r.pos,
{
    let order = world.order();
    match r.pending() {
        Some((first, second)) => {
            let here = v.at(PhaseView::ReducingLocal { reducer: r });
            let ask = ActionView::Compare { first, second };
            assert(world.sign(first, second) is Some);
            let sign = world.sign(first, second).unwrap();
            assert(order(first, second) == sign);
            lemma_follows_wf(r, order);
            lemma_answer_follows(r, order);
            let answered = here.step(world.respond(ask));
            assert(answered == v.reduce_local(r.answer(sign)));
            assert(world.run(here, ask) == (
                effect_of(ask) + world.run(answered.0, answered.1).0,
                world.run(answered.0, answered.1).1,
            ));
            assert(effect_of(ask) + world.run(answered.0, answered.1).0 =~= world.run(
                answered.0,
                answered.1,
            ).0);
            lemma_local_reduction(world, v, r.answer(sign));
        },
        None => {
            lemma_follows_done(r, order);
        },
    }
}

/// A cycle that is driven through a world without a fault performs the
/// plan of the cycle, mutation by mutation and in order, and ends well.
pub proof fn lemma_cycle_follows_plan(base_dir: Seq<char>, github_repo: Seq<char>, world: World)
    requires
        world.faultless(),
    ensures
        world.run(
            CycleView::begin(base_dir, github_repo).0,
            CycleView::begin(base_dir, github_repo).1,
        ) == (
            actions_of(
                CycleView::begin(base_dir, github_repo).0,
                cycle_plan(world.entries, listing_of_text(world.body)->Ok_0, world.order()),
            ),
            Ok::<(), SyncError>(()),
        ),
{
    let order = world.order();
    let (v, list) = CycleView::begin(base_dir, github_repo);
    let files = package_files_of(world.entries);
    let local = reduce(files, order);
    let started = v.step(world.respond(list));
    lemma_start_follows(files, order);
    assert(started == v.reduce_local(ReducerView::start(files)));
    assert(world.run(v, list) == (
        effect_of(list) + world.run(started.0, started.1).0,
        world.run(started.0, started.1).1,
    ));
    assert(effect_of(list) + world.run(started.0, started.1).0 =~= world.run(
        started.0,
        started.1,
    ).0);
    lemma_local_reduction(world, v, ReducerView::start(files));
    let listing = v.at(PhaseView::ListingRemote { local });
    let fetch = ActionView::FetchListing { url: listing_url_of(github_repo) };
    let fetched = listing.step(world.respond(fetch));
    assert(world.run(listing, fetch) == (
        effect_of(fetch) + world.run(fetched.0, fetched.1).0,
        world.run(fetched.0, fetched.1).1,
    ));
    assert(effect_of(fetch) + world.run(fetched.0, fetched.1).0 =~= world.run(
        fetched.0,
        fetched.1,
    ).0);
    match listing_of_text(world.body) {
        Ok(Some(assets)) => {
            lemma_start_follows(assets, order);
            assert(fetched == v.reduce_remote(local, ReducerView::start(assets)));
            lemma_remote_reduction(world, v, local, ReducerView::start(assets));
            let remote = reduce(assets, order);
            let diff = DiffView { local, remote, pos: 0 };
            lemma_diff_follows_plan(world, v, diff);
            assert(remote.skip(0) =~= remote);
        },
        Ok(None) => {
            assert(actions_of(v, Seq::<Mutation>::empty()) =~= Seq::<ActionView>::empty());
        },
        Err(_) => {},
    }
}

/// A cycle that finds no assets in the newest release, or no array of
/// them, removes nothing, installs nothing, and ends well.
pub proof fn lemma_no_assets_run_is_idle(
    base_dir: Seq<char>,
    github_repo: Seq<char>,
    world: World,
)
    requires
        world.faultless(),
        match listing_of_text(world.body) {
            Ok(Some(assets)) => assets.len() == 0,
            _ => true,
        },
    ensures
        world.run(
            CycleView::begin(base_dir, github_repo).0,
            CycleView::begin(base_dir, github_repo).1,
        ) == (Seq::<ActionView>::empty(), Ok::<(), SyncError>(())),
{
    let v = CycleView::begin(base_dir, github_repo).0;
    let listing = listing_of_text(world.body)->Ok_0;
    lemma_cycle_follows_plan(base_dir, github_repo, world);
    lemma_no_assets_no_mutations(world.entries, listing, world.order());
    assert(actions_of(v, Seq::<Mutation>::empty()) =~= Seq::<ActionView>::empty());
}

/// A cycle that follows a cycle removes nothing and installs nothing, as
/// long as neither meets a fault, the listing and the comparison are the
/// same for both, every asset is a package file, the comparison orders the
/// versions, and the directory that the second cycle finds is what the
/// first one left.
pub proof fn lemma_second_run_is_idle(
    base_dir: Seq<char>,
    github_repo: Seq<char>,
    first: World,
    second: World,
)
    requires
        first.faultless(),
        second.body == first.body,
        second.output == first.output,
        orders_versions(first.order()),
        match listing_of_text(first.body) {
            Ok(Some(assets)) => forall|i: int|
                0 <= i < assets.len() ==> is_package_file(#[trigger] assets[i]),
            _ => true,
        },
        second.entries.to_set() == directory_after(
            first.entries.to_set(),
            cycle_plan(first.entries, listing_of_text(first.body)->Ok_0, first.order()),
        ),
    ensures
        second.run(
            CycleView::begin(base_dir, github_repo).0,
            CycleView::begin(base_dir, github_repo).1,
        ) == (Seq::<ActionView>::empty(), Ok::<(), SyncError>(())),
{
    let v = CycleView::begin(base_dir, github_repo).0;
    let listing = listing_of_text(first.body)->Ok_0;
    assert(second.order() =~= first.order()) by {
        assert forall|a: Seq<char>, b: Seq<char>| second.sign(a, b) == first.sign(a, b) by {}
    }
    assert(second.faultless()) by {
        assert forall|a: Seq<char>, b: Seq<char>| #[trigger] second.sign(a, b) is Some by {
            assert(first.sign(a, b) is Some);
        }
    }
    lemma_second_cycle_is_idle(first.entries, listing, second.entries, first.order());
    lemma_cycle_follows_plan(base_dir, github_repo, second);
    assert(actions_of(v, Seq::<Mutation>::empty()) =~= Seq::<ActionView>::empty());
}

} // verus!
