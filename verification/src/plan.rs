//! What a cycle changes in the repository directory.
//!
//! The plan of a cycle is the list of removals and installations that it
//! performs, in order. It is a function of the two reduced sets and of the
//! version comparison: a remote artifact whose name is missing locally is
//! installed; one that is newer than the local artifact of its name has
//! that artifact removed and is installed; for any other nothing is done.

use vstd::prelude::*;
use crate::name::{is_package_file, lemma_package_files_of, logical_name, package_files_of};
use crate::reduce::{
    absorb, lemma_absorb_slots, lemma_reduce_covers, lemma_slot_of, mapping_of, reduce, slot_of,
};

verus! {

/// A change to the repository directory.
pub ghost enum Mutation {
    /// The file of the artifact is removed.
    Remove { artifact: Seq<char> },
    /// The artifact is downloaded and entered into the index.
    Install { artifact: Seq<char> },
}

/// What is done for the remote artifact `offered`.
pub open spec fn mutations_for(
    local: Seq<Seq<char>>,
    offered: Seq<char>,
    order: spec_fn(Seq<char>, Seq<char>) -> int,
) -> Seq<Mutation> {
    match slot_of(local, logical_name(offered)) {
        None => seq![Mutation::Install { artifact: offered }],
        Some(i) => if order(offered, local[i]) > 0 {
            seq![Mutation::Remove { artifact: local[i] }, Mutation::Install { artifact: offered }]
        } else {
            Seq::empty()
        },
    }
}

/// What is done for the remote artifacts `remote`, one after the other.
pub open spec fn plan(
    local: Seq<Seq<char>>,
    remote: Seq<Seq<char>>,
    order: spec_fn(Seq<char>, Seq<char>) -> int,
) -> Seq<Mutation>
    decreases remote.len(),
{
    if remote.len() == 0 {
        Seq::empty()
    } else {
        mutations_for(local, remote.first(), order) + plan(local, remote.drop_first(), order)
    }
}

/// What a cycle does that finds `entries` in the directory and `listing` as
/// the assets of the newest release (`None` where the release shows none).
pub open spec fn cycle_plan(
    entries: Seq<Seq<char>>,
    listing: Option<Seq<Seq<char>>>,
    order: spec_fn(Seq<char>, Seq<char>) -> int,
) -> Seq<Mutation> {
    match listing {
        None => Seq::empty(),
        Some(assets) => plan(
            reduce(package_files_of(entries), order),
            reduce(assets, order),
            order,
        ),
    }
}

/// The files of the directory after the mutations of `plan`.
pub open spec fn directory_after(dir: Set<Seq<char>>, plan: Seq<Mutation>) -> Set<Seq<char>>
    decreases plan.len(),
{
    if plan.len() == 0 {
        dir
    } else {
        let before = directory_after(dir, plan.drop_last());
        match plan.last() {
            Mutation::Remove { artifact } => before.remove(artifact),
            Mutation::Install { artifact } => before.insert(artifact),
        }
    }
}

/// The comparison orders the artifacts of each logical name: turning the
/// two artifacts round turns the sign round, and what is not newer than
/// something that is not newer than a third is not newer than the third.
pub open spec fn orders_versions(order: spec_fn(Seq<char>, Seq<char>) -> int) -> bool {
    &&& forall|a: Seq<char>, b: Seq<char>|
        logical_name(a) == logical_name(b) ==> (#[trigger] order(a, b) > 0 <==> order(b, a) < 0)
    &&& forall|a: Seq<char>, b: Seq<char>, c: Seq<char>|
        logical_name(a) == logical_name(b) && logical_name(b) == logical_name(c) && #[trigger] order(
            a,
            b,
        ) <= 0 && #[trigger] order(b, c) <= 0 ==> order(a, c) <= 0
}

/// A remote artifact whose logical name is missing locally is installed,
/// and nothing is removed for it.
pub proof fn lemma_missing_is_installed(
    local: Seq<Seq<char>>,
    offered: Seq<char>,
    order: spec_fn(Seq<char>, Seq<char>) -> int,
)
    requires
        slot_of(local, logical_name(offered)) is None,
    ensures
        mutations_for(local, offered, order) == seq![Mutation::Install { artifact: offered }],
{
}

/// A remote artifact that is newer than the local one of its name has the
/// local one removed, and is then installed.
pub proof fn lemma_newer_replaces(
    local: Seq<Seq<char>>,
    offered: Seq<char>,
    order: spec_fn(Seq<char>, Seq<char>) -> int,
)
    requires
        slot_of(local, logical_name(offered)) is Some,
        order(offered, local[slot_of(local, logical_name(offered)).unwrap()]) > 0,
    ensures
        mutations_for(local, offered, order) == seq![
            Mutation::Remove { artifact: local[slot_of(local, logical_name(offered)).unwrap()] },
            Mutation::Install { artifact: offered },
        ],
{
}

/// A release without assets, or with an empty list of them, changes
/// nothing.
pub proof fn lemma_no_assets_no_mutations(
    entries: Seq<Seq<char>>,
    listing: Option<Seq<Seq<char>>>,
    order: spec_fn(Seq<char>, Seq<char>) -> int,
)
    requires
        listing is None || listing.unwrap().len() == 0,
    ensures
        cycle_plan(entries, listing, order) == Seq::<Mutation>::empty(),
{
}

/// Local artifacts whose names the release does not show are never removed:
/// whatever is removed is the local artifact of a name that is published.
pub proof fn lemma_removed_is_superseded(
    local: Seq<Seq<char>>,
    remote: Seq<Seq<char>>,
    order: spec_fn(Seq<char>, Seq<char>) -> int,
    k: int,
)
    requires
        0 <= k < plan(local, remote, order).len(),
        plan(local, remote, order)[k] is Remove,
    ensures
        exists|j: int|
            0 <= j < remote.len() && slot_of(local, logical_name(#[trigger] remote[j])) is Some
                && plan(local, remote, order)[k]->Remove_artifact == local[slot_of(
                local,
                logical_name(remote[j]),
            ).unwrap()] && order(remote[j], plan(local, remote, order)[k]->Remove_artifact) > 0,
    decreases remote.len(),
{
    if remote.len() > 0 {
        let head = mutations_for(local, remote.first(), order);
        let rest = remote.drop_first();
        if k < head.len() {
            assert(plan(local, remote, order)[k] == head[k]);
            assert(remote[0] == remote.first());
        } else {
            assert(plan(local, remote, order)[k] == plan(local, rest, order)[k - head.len()]);
            lemma_removed_is_superseded(local, rest, order, k - head.len());
            let j = choose|j: int|
                0 <= j < rest.len() && slot_of(local, logical_name(#[trigger] rest[j])) is Some
                    && plan(local, rest, order)[k - head.len()]->Remove_artifact == local[slot_of(
                    local,
                    logical_name(rest[j]),
                ).unwrap()] && order(
                    rest[j],
                    plan(local, rest, order)[k - head.len()]->Remove_artifact,
                ) > 0;
            assert(remote[j + 1] == rest[j]);
        }
    }
}

/// Every remote artifact that is missing locally or newer than the local
/// one is installed.
pub proof fn lemma_installed(
    local: Seq<Seq<char>>,
    remote: Seq<Seq<char>>,
    order: spec_fn(Seq<char>, Seq<char>) -> int,
    j: int,
)
    requires
        0 <= j < remote.len(),
        mutations_for(local, remote[j], order).len() > 0,
    ensures
        plan(local, remote, order).contains(Mutation::Install { artifact: remote[j] }),
    decreases remote.len(),
{
    let head = mutations_for(local, remote.first(), order);
    let rest = remote.drop_first();
    let all = plan(local, remote, order);
    if j == 0 {
        assert(all[head.len() - 1] == head[head.len() - 1]);
    } else {
        assert(rest[j - 1] == remote[j]);
        lemma_installed(local, rest, order, j - 1);
        let k = choose|k: int|
            0 <= k < plan(local, rest, order).len() && plan(local, rest, order)[k]
                == (Mutation::Install { artifact: remote[j] });
        assert(all[head.len() + k] == plan(local, rest, order)[k]);
    }
}

/// Where nothing is to be done for any remote artifact, the plan is empty.
pub proof fn lemma_idle_plan(
    local: Seq<Seq<char>>,
    remote: Seq<Seq<char>>,
    order: spec_fn(Seq<char>, Seq<char>) -> int,
)
    requires
        forall|j: int|
            0 <= j < remote.len() ==> mutations_for(local, #[trigger] remote[j], order).len() == 0,
    ensures
        plan(local, remote, order) == Seq::<Mutation>::empty(),
    decreases remote.len(),
{
    if remote.len() > 0 {
        let rest = remote.drop_first();
        assert(mutations_for(local, remote[0], order).len() == 0);
        assert forall|j: int| 0 <= j < rest.len() implies mutations_for(
            local,
            #[trigger] rest[j],
            order,
        ).len() == 0 by {
            assert(rest[j] == remote[j + 1]);
        }
        lemma_idle_plan(local, rest, order);
        assert(plan(local, remote, order) =~= Seq::<Mutation>::empty());
    }
}

/// A file that no mutation removes is in the directory afterwards if it was
/// there before or is installed.
pub proof fn lemma_directory_keeps(dir: Set<Seq<char>>, plan: Seq<Mutation>, file: Seq<char>)
    requires
        !plan.contains(Mutation::Remove { artifact: file }),
        dir.contains(file) || plan.contains(Mutation::Install { artifact: file }),
    ensures
        directory_after(dir, plan).contains(file),
    decreases plan.len(),
{
    if plan.len() > 0 {
        let front = plan.drop_last();
        assert(plan.last() == plan[plan.len() - 1]);
        assert(plan.last() != (Mutation::Remove { artifact: file }));
        assert forall|k: int| 0 <= k < front.len() implies front[k] != (Mutation::Remove {
            artifact: file,
        }) by {
            assert(front[k] == plan[k]);
        }
        if plan.last() == (Mutation::Install { artifact: file }) {
        } else {
            if !dir.contains(file) {
                let k = choose|k: int|
                    0 <= k < plan.len() && plan[k] == (Mutation::Install { artifact: file });
                assert(front[k] == plan[k]);
            }
            lemma_directory_keeps(dir, front, file);
        }
    }
}

/// Under a comparison that orders the versions, the artifact that a
/// reduced set holds for a name is not older than any artifact of that name
/// in the list.
pub proof fn lemma_reduce_holds_newest(
    list: Seq<Seq<char>>,
    order: spec_fn(Seq<char>, Seq<char>) -> int,
    j: int,
)
    requires
        orders_versions(order),
        0 <= j < list.len(),
    ensures
        slot_of(reduce(list, order), logical_name(list[j])) is Some,
        order(
            list[j],
            reduce(list, order)[slot_of(reduce(list, order), logical_name(list[j])).unwrap()],
        ) <= 0,
    decreases list.len(),
{
    let front = list.drop_last();
    let held = reduce(front, order);
    let item = list.last();
    let after = reduce(list, order);
    let sign = match slot_of(held, logical_name(item)) {
        None => 0,
        Some(i) => order(item, held[i]),
    };
    assert(after == absorb(held, item, sign));
    lemma_slot_of(held, logical_name(item));
    lemma_slot_of(after, logical_name(list[j]));
    lemma_absorb_slots(held, item, sign, logical_name(list[j]));
    assert(order(item, item) <= 0);
    if j < list.len() - 1 {
        assert(front[j] == list[j]);
        lemma_reduce_holds_newest(front, order, j);
        let i = slot_of(held, logical_name(list[j])).unwrap();
        lemma_slot_of(held, logical_name(list[j]));
        if after[i] != held[i] {
            assert(after[i] == item);
            assert(order(held[i], item) <= 0);
        }
    } else {
        match slot_of(held, logical_name(item)) {
            None => {
                assert(after[held.len() as int] == item);
            },
            Some(k) => {},
        }
    }
}

/// The comparison calls no two different artifacts of one logical name
/// equal.
pub open spec fn separates_versions(order: spec_fn(Seq<char>, Seq<char>) -> int) -> bool {
    forall|a: Seq<char>, b: Seq<char>|
        logical_name(a) == logical_name(b) && #[trigger] order(a, b) == 0 ==> a == b
}

/// What the reduced set of `first` holds for a name, the reduced set of a
/// list with the same artifacts holds too.
proof fn lemma_held_agrees(
    first: Seq<Seq<char>>,
    second: Seq<Seq<char>>,
    order: spec_fn(Seq<char>, Seq<char>) -> int,
    name: Seq<char>,
)
    requires
        orders_versions(order),
        separates_versions(order),
        first.to_set() == second.to_set(),
        slot_of(reduce(first, order), name) is Some,
    ensures
        slot_of(reduce(second, order), name) is Some,
        reduce(second, order)[slot_of(reduce(second, order), name).unwrap()] == reduce(
            first,
            order,
        )[slot_of(reduce(first, order), name).unwrap()],
{
    let r1 = reduce(first, order);
    let r2 = reduce(second, order);
    let i = slot_of(r1, name).unwrap();
    lemma_slot_of(r1, name);
    lemma_reduce_covers(first, order);
    lemma_reduce_covers(second, order);
    let x = r1[i];
    assert(first.contains(x));
    assert(second.to_set().contains(x));
    let j = choose|j: int| 0 <= j < second.len() && second[j] == x;
    lemma_reduce_holds_newest(second, order, j);
    let i2 = slot_of(r2, name).unwrap();
    lemma_slot_of(r2, name);
    let y = r2[i2];
    assert(second.contains(y));
    assert(first.to_set().contains(y));
    let k = choose|k: int| 0 <= k < first.len() && first[k] == y;
    lemma_reduce_holds_newest(first, order, k);
    assert(order(x, y) <= 0);
    assert(order(y, x) <= 0);
    assert(order(x, y) == 0);
}

/// Under a comparison that orders the versions and calls no two different
/// artifacts equal, the order of a list does not matter: two lists of the
/// same artifacts reduce to the same mapping from logical name to artifact.
pub proof fn lemma_reduce_order_independent(
    first: Seq<Seq<char>>,
    second: Seq<Seq<char>>,
    order: spec_fn(Seq<char>, Seq<char>) -> int,
)
    requires
        orders_versions(order),
        separates_versions(order),
        first.to_set() == second.to_set(),
    ensures
        mapping_of(reduce(first, order)) == mapping_of(reduce(second, order)),
{
    let m1 = mapping_of(reduce(first, order));
    let m2 = mapping_of(reduce(second, order));
    assert forall|name: Seq<char>| #[trigger] m1.dom().contains(name) implies m2.dom().contains(
        name,
    ) && m2[name] == m1[name] by {
        lemma_held_agrees(first, second, order, name);
    }
    assert forall|name: Seq<char>| #[trigger] m2.dom().contains(name) implies m1.dom().contains(
        name,
    ) by {
        lemma_held_agrees(second, first, order, name);
    }
    assert(m1 =~= m2);
}

/// A cycle that follows a cycle finds nothing to do, as long as the listing
/// is the same, every asset is a package file, nothing but the first cycle
/// has touched the directory, and the comparison orders the versions. The
/// order in which the directory lists its entries does not matter.
pub proof fn lemma_second_cycle_is_idle(
    entries: Seq<Seq<char>>,
    listing: Option<Seq<Seq<char>>>,
    later: Seq<Seq<char>>,
    order: spec_fn(Seq<char>, Seq<char>) -> int,
)
    requires
        orders_versions(order),
        listing is Some ==> forall|i: int|
            0 <= i < listing.unwrap().len() ==> is_package_file(#[trigger] listing.unwrap()[i]),
        later.to_set() == directory_after(entries.to_set(), cycle_plan(entries, listing, order)),
    ensures
        cycle_plan(later, listing, order) == Seq::<Mutation>::empty(),
{
    if listing is Some {
        let assets = listing.unwrap();
        let local = reduce(package_files_of(entries), order);
        let remote = reduce(assets, order);
        let done = plan(local, remote, order);
        let local2 = reduce(package_files_of(later), order);
        lemma_reduce_covers(package_files_of(entries), order);
        lemma_reduce_covers(assets, order);
        assert forall|j: int| 0 <= j < remote.len() implies mutations_for(
            local2,
            #[trigger] remote[j],
            order,
        ).len() == 0 by {
            let r = remote[j];
            let n = logical_name(r);
            lemma_slot_of(local, n);
            assert(order(r, r) <= 0);
            let replaced = slot_of(local, n) is None || order(r, local[slot_of(local, n).unwrap()])
                > 0;
            let x = if replaced {
                r
            } else {
                local[slot_of(local, n).unwrap()]
            };
            assert(logical_name(x) == n);
            assert(order(r, x) <= 0);
            if replaced {
                lemma_installed(local, remote, order, j);
            } else {
                let i = slot_of(local, n).unwrap();
                assert(package_files_of(entries).contains(local[i]));
                lemma_package_files_of(entries, x);
            }
            assert(is_package_file(x)) by {
                if replaced {
                    assert(assets.contains(remote[j]));
                } else {
                    lemma_package_files_of(entries, x);
                }
            }
            if done.contains(Mutation::Remove { artifact: x }) {
                let k = choose|k: int|
                    0 <= k < done.len() && done[k] == (Mutation::Remove { artifact: x });
                lemma_removed_is_superseded(local, remote, order, k);
                let j2 = choose|j2: int|
                    0 <= j2 < remote.len() && slot_of(local, logical_name(#[trigger] remote[j2]))
                        is Some && done[k]->Remove_artifact == local[slot_of(
                        local,
                        logical_name(remote[j2]),
                    ).unwrap()] && order(remote[j2], done[k]->Remove_artifact) > 0;
                lemma_slot_of(local, logical_name(remote[j2]));
                assert(logical_name(remote[j2]) == n);
                if j2 != j {
                    assert(logical_name(remote[j2]) != logical_name(remote[j]));
                }
                assert(false);
            }
            lemma_directory_keeps(entries.to_set(), done, x);
            assert(later.to_set().contains(x));
            lemma_package_files_of(later, x);
            let m = choose|m: int|
                0 <= m < package_files_of(later).len() && package_files_of(later)[m] == x;
            lemma_reduce_holds_newest(package_files_of(later), order, m);
            lemma_slot_of(local2, n);
        }
        lemma_idle_plan(local2, remote, order);
    }
}

} // verus!
