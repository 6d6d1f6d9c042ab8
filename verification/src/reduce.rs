//! Reduced sets: for every logical name the one artifact that was judged
//! newest among those that share it.
//!
//! A reduced set lists its artifacts in the order in which their logical
//! names first appeared. Which artifact of a name stays is decided by the
//! sign of a version comparison that the caller supplies: only a strictly
//! newer artifact replaces the one that is held, so among artifacts that
//! compare equal the first one seen stays.

use vstd::prelude::*;
use crate::name::{decode_pkgname, logical_name};
use crate::text::same_text;

verus! {

/// Position in `set` of the artifact whose logical name is `name`.
pub open spec fn slot_of(set: Seq<Seq<char>>, name: Seq<char>) -> Option<int>
    decreases set.len(),
{
    if set.len() == 0 {
        None
    } else {
        match slot_of(set.drop_last(), name) {
            Some(i) => Some(i),
            None => if logical_name(set.last()) == name {
                Some(set.len() - 1)
            } else {
                None
            },
        }
    }
}

/// No two artifacts of `set` share a logical name.
pub open spec fn distinct_names(set: Seq<Seq<char>>) -> bool {
    forall|i: int, j: int|
        0 <= i < j < set.len() ==> logical_name(#[trigger] set[i]) != logical_name(
            #[trigger] set[j],
        )
}

/// The mapping from logical name to artifact that `set` stands for.
pub open spec fn mapping_of(set: Seq<Seq<char>>) -> Map<Seq<char>, Seq<char>> {
    Map::new(
        |name: Seq<char>| slot_of(set, name) is Some,
        |name: Seq<char>| set[slot_of(set, name).unwrap()],
    )
}

/// `set` after `item` has been offered to it. Where the name of `item` is
/// new, `item` joins at the end. Where it is held already, `item` takes the
/// place of the held artifact if `sign` is positive, and is dropped otherwise.
pub open spec fn absorb(set: Seq<Seq<char>>, item: Seq<char>, sign: int) -> Seq<Seq<char>> {
    match slot_of(set, logical_name(item)) {
        None => set.push(item),
        Some(i) => if sign > 0 {
            set.update(i, item)
        } else {
            set
        },
    }
}

/// The reduced set of `list` under the comparison `order`, which gives for
/// a new artifact and the held one a positive number if the new one is
/// newer, zero if they are equal, and a negative number if it is older.
pub open spec fn reduce(
    list: Seq<Seq<char>>,
    order: spec_fn(Seq<char>, Seq<char>) -> int,
) -> Seq<Seq<char>>
    decreases list.len(),
{
    if list.len() == 0 {
        Seq::empty()
    } else {
        let held = reduce(list.drop_last(), order);
        let item = list.last();
        match slot_of(held, logical_name(item)) {
            None => held.push(item),
            Some(i) => absorb(held, item, order(item, held[i])),
        }
    }
}

/// `set` holds exactly one artifact for each logical name that occurs in
/// `list`, and each artifact that it holds is taken from `list`.
pub open spec fn covers(set: Seq<Seq<char>>, list: Seq<Seq<char>>) -> bool {
    &&& distinct_names(set)
    &&& forall|i: int| 0 <= i < set.len() ==> list.contains(#[trigger] set[i])
    &&& forall|j: int|
        0 <= j < list.len() ==> slot_of(set, logical_name(#[trigger] list[j])) is Some
}

/// What `slot_of` finds carries the name, and nothing in front of it does;
/// where it finds nothing, no artifact of the set carries the name.
pub proof fn lemma_slot_of(set: Seq<Seq<char>>, name: Seq<char>)
    ensures
        match slot_of(set, name) {
            Some(i) => {
                &&& 0 <= i < set.len()
                &&& logical_name(set[i]) == name
                &&& forall|k: int| 0 <= k < i ==> logical_name(#[trigger] set[k]) != name
            },
            None => forall|k: int| 0 <= k < set.len() ==> logical_name(#[trigger] set[k]) != name,
        },
    decreases set.len(),
{
    if set.len() > 0 {
        let front = set.drop_last();
        lemma_slot_of(front, name);
        assert forall|k: int| 0 <= k < front.len() implies set[k] == front[k] by {}
        match slot_of(front, name) {
            Some(i) => {
                assert forall|k: int| 0 <= k < i implies logical_name(#[trigger] set[k])
                    != name by {
                    assert(set[k] == front[k]);
                }
            },
            None => {
                assert forall|k: int| 0 <= k < front.len() implies logical_name(
                    #[trigger] set[k],
                ) != name by {
                    assert(set[k] == front[k]);
                }
            },
        }
    }
}

/// An artifact that is not newer than the held one of its name changes
/// nothing: among artifacts that compare equal, the first one seen stays.
pub proof fn lemma_not_newer_keeps_held(set: Seq<Seq<char>>, item: Seq<char>, sign: int)
    requires
        slot_of(set, logical_name(item)) is Some,
        sign <= 0,
    ensures
        absorb(set, item, sign) == set,
{
}

/// An artifact that is newer than the held one of its name takes its
/// place, and nothing else changes.
pub proof fn lemma_newer_takes_place(set: Seq<Seq<char>>, item: Seq<char>, sign: int)
    requires
        slot_of(set, logical_name(item)) is Some,
        sign > 0,
    ensures
        absorb(set, item, sign) == set.update(slot_of(set, logical_name(item)).unwrap(), item),
{
}

/// Offering an artifact keeps the names distinct, whatever the sign says.
pub proof fn lemma_absorb_distinct(set: Seq<Seq<char>>, item: Seq<char>, sign: int)
    requires
        distinct_names(set),
    ensures
        distinct_names(absorb(set, item, sign)),
{
    lemma_slot_of(set, logical_name(item));
    let after = absorb(set, item, sign);
    assert forall|i: int, j: int| 0 <= i < j < after.len() implies logical_name(
        #[trigger] after[i],
    ) != logical_name(#[trigger] after[j]) by {
        match slot_of(set, logical_name(item)) {
            None => {
                if j < set.len() {
                    assert(after[i] == set[i] && after[j] == set[j]);
                } else {
                    assert(after[i] == set[i]);
                }
            },
            Some(k) => {
                assert(logical_name(after[i]) == logical_name(set[i]));
                assert(logical_name(after[j]) == logical_name(set[j]));
            },
        }
    }
}

/// Offering an artifact leaves the slot of every name where it was, and
/// gives the name of the artifact a slot.
pub proof fn lemma_absorb_slots(
    set: Seq<Seq<char>>,
    item: Seq<char>,
    sign: int,
    name: Seq<char>,
)
    ensures
        slot_of(set, name) is Some ==> slot_of(absorb(set, item, sign), name) == slot_of(
            set,
            name,
        ),
        slot_of(absorb(set, item, sign), logical_name(item)) is Some,
        slot_of(set, name) is None && name != logical_name(item) ==> slot_of(
            absorb(set, item, sign),
            name,
        ) is None,
{
    let after = absorb(set, item, sign);
    lemma_slot_of(set, name);
    lemma_slot_of(set, logical_name(item));
    lemma_slot_of(after, name);
    lemma_slot_of(after, logical_name(item));
    match slot_of(set, logical_name(item)) {
        None => {
            assert(after.drop_last() =~= set);
            assert(after.last() == item);
        },
        Some(k) => {
            assert forall|i: int| 0 <= i < set.len() implies logical_name(#[trigger] after[i])
                == logical_name(set[i]) by {}
            if slot_of(set, name) is Some {
                let a = slot_of(set, name).unwrap();
                assert(logical_name(after[a]) == name);
                if slot_of(after, name) is Some {
                    let b = slot_of(after, name).unwrap();
                    assert(logical_name(set[b]) == name);
                    if a < b {
                        assert(logical_name(after[a]) != name);
                    }
                    if b < a {
                        assert(logical_name(set[b]) != name);
                    }
                }
            } else if slot_of(after, name) is Some {
                let b = slot_of(after, name).unwrap();
                assert(logical_name(set[b]) == name);
            }
            if slot_of(after, logical_name(item)) is None {
                assert(logical_name(after[k]) == logical_name(item));
            }
        },
    }
}

/// Offering an artifact to a set that covers a list gives a set that covers
/// the list with the artifact added, whatever the sign says.
pub proof fn lemma_absorb_covers(
    set: Seq<Seq<char>>,
    list: Seq<Seq<char>>,
    item: Seq<char>,
    sign: int,
)
    requires
        covers(set, list),
    ensures
        covers(absorb(set, item, sign), list.push(item)),
{
    let after = absorb(set, item, sign);
    let longer = list.push(item);
    lemma_absorb_distinct(set, item, sign);
    lemma_slot_of(set, logical_name(item));
    assert forall|i: int| 0 <= i < after.len() implies longer.contains(#[trigger] after[i]) by {
        if i < set.len() && after[i] == set[i] {
            assert(list.contains(set[i]));
            let j = choose|j: int| 0 <= j < list.len() && list[j] == set[i];
            assert(longer[j] == set[i]);
        } else {
            assert(after[i] == item);
            assert(longer[list.len() as int] == item);
        }
    }
    assert forall|j: int| 0 <= j < longer.len() implies slot_of(
        after,
        logical_name(#[trigger] longer[j]),
    ) is Some by {
        lemma_absorb_slots(set, item, sign, logical_name(longer[j]));
        if j < list.len() {
            assert(longer[j] == list[j]);
        }
    }
}

/// The reduced set of a list holds exactly one artifact for each logical
/// name that occurs in the list, each taken from the list, whatever the
/// comparison answers.
pub proof fn lemma_reduce_covers(list: Seq<Seq<char>>, order: spec_fn(Seq<char>, Seq<char>) -> int)
    ensures
        covers(reduce(list, order), list),
    decreases list.len(),
{
    if list.len() > 0 {
        let front = list.drop_last();
        lemma_reduce_covers(front, order);
        let held = reduce(front, order);
        let item = list.last();
        let sign = match slot_of(held, logical_name(item)) {
            None => 0,
            Some(i) => order(item, held[i]),
        };
        lemma_absorb_covers(held, front, item, sign);
        assert(front.push(item) =~= list);
    }
}

/// An artifact with its logical name.
struct Held {
    name: String,
    artifact: String,
}

/// A reduced set: at most one artifact for each logical name, in the order
/// in which the names first appeared.
pub struct ReducedSet {
    entries: Vec<Held>,
}

impl View for ReducedSet {
    type V = Seq<Seq<char>>;

    /// The artifacts of the set, in order.
    closed spec fn view(&self) -> Seq<Seq<char>> {
        Seq::new(self.entries@.len(), |i: int| self.entries@[i].artifact@)
    }
}

impl ReducedSet {
    /// The names are distinct, and each is the logical name of its artifact.
    pub closed spec fn wf(&self) -> bool {
        &&& distinct_names(self@)
        &&& forall|i: int|
            0 <= i < self.entries@.len() ==> (#[trigger] self.entries@[i]).name@ == logical_name(
                self.entries@[i].artifact@,
            )
    }

    /// The names of a well-formed set are distinct.
    pub proof fn lemma_distinct(&self)
        requires
            self.wf(),
        ensures
            distinct_names(self@),
    {
    }

    /// The set that holds nothing.
    pub fn new() -> (set: ReducedSet)
        ensures
            set@ == Seq::<Seq<char>>::empty(),
            set.wf(),
    {
        let set = ReducedSet { entries: Vec::new() };
        assert(set@ =~= Seq::<Seq<char>>::empty());
        set
    }

    /// Number of artifacts, which is the number of logical names.
    pub fn len(&self) -> (n: usize)
        ensures
            n == self@.len(),
    {
        self.entries.len()
    }

    /// The artifact in slot `i`, if the set has that many.
    pub fn artifact_at(&self, i: usize) -> (found: Option<&String>)
        ensures
            match found {
                Some(artifact) => i < self@.len() && artifact@ == self@[i as int],
                None => i >= self@.len(),
            },
    {
        if i < self.entries.len() {
            Some(&self.entries[i].artifact)
        } else {
            None
        }
    }

    /// The slot of the artifact whose logical name is `name`.
    pub fn position(&self, name: &str) -> (found: Option<usize>)
        requires
            self.wf(),
        ensures
            match found {
                Some(i) => i < self@.len() && slot_of(self@, name@) == Some(i as int),
                None => slot_of(self@, name@) is None,
            },
    {
        proof {
            lemma_slot_of(self@, name@);
        }
        let mut i: usize = 0;
        while i < self.entries.len()
            invariant
                i <= self.entries@.len(),
                self.entries@.len() == self@.len(),
                forall|k: int|
                    0 <= k < self.entries@.len() ==> (#[trigger] self.entries@[k]).name@
                        == logical_name(self@[k]),
                forall|k: int| 0 <= k < i ==> logical_name(#[trigger] self@[k]) != name@,
            decreases self.entries@.len() - i,
        {
            if same_text(self.entries[i].name.as_str(), name) {
                proof {
                    lemma_slot_of(self@, name@);
                    assert(logical_name(self@[i as int]) == name@);
                }
                return Some(i);
            }
            i = i + 1;
        }
        None
    }

    /// Whether the set holds an artifact of the logical name `name`.
    pub fn contains_key(&self, name: &str) -> (held: bool)
        requires
            self.wf(),
        ensures
            held == mapping_of(self@).contains_key(name@),
    {
        self.position(name).is_some()
    }

    /// The artifact that the set holds for the logical name `name`.
    pub fn get(&self, name: &str) -> (found: Option<&String>)
        requires
            self.wf(),
        ensures
            match found {
                Some(artifact) => mapping_of(self@).contains_key(name@) && artifact@ == mapping_of(
                    self@,
                )[name@],
                None => !mapping_of(self@).contains_key(name@),
            },
    {
        proof {
            lemma_slot_of(self@, name@);
        }
        match self.position(name) {
            Some(i) => Some(&self.entries[i].artifact),
            None => None,
        }
    }

    /// Offers `item` to the set. An artifact of a new name joins at the end.
    /// One whose name is held replaces the held artifact if `sign`, the
    /// outcome of comparing `item` with the held one, is positive.
    pub fn offer(&mut self, item: String, sign: isize)
        requires
            old(self).wf(),
        ensures
            final(self)@ == absorb(old(self)@, item@, sign as int),
            final(self).wf(),
    {
        proof {
            lemma_absorb_distinct(self@, item@, sign as int);
            lemma_slot_of(self@, logical_name(item@));
        }
        let name = decode_pkgname(item.as_str());
        match self.position(name.as_str()) {
            None => {
                self.entries.push(Held { name, artifact: item });
                assert(self@ =~= old(self)@.push(item@));
            },
            Some(i) => {
                if sign > 0 {
                    self.entries.set(i, Held { name, artifact: item });
                    assert(self@ =~= old(self)@.update(i as int, item@));
                }
            },
        }
    }
}

/// The state of a reduction that is under way: the list that is being
/// reduced, how many of its artifacts have been offered, and the set so far.
pub ghost struct ReducerView {
    pub input: Seq<Seq<char>>,
    pub pos: int,
    pub set: Seq<Seq<char>>,
}

impl ReducerView {
    /// Every artifact of the list has been offered.
    pub open spec fn done(self) -> bool {
        self.pos >= self.input.len()
    }

    /// The reduction stands at an artifact whose name is held, or is done.
    pub open spec fn settled(self) -> bool {
        self.done() || slot_of(self.set, logical_name(self.input[self.pos])) is Some
    }

    /// The set covers the part of the list that has been offered, and the
    /// reduction is settled.
    pub open spec fn wf(self) -> bool {
        &&& 0 <= self.pos <= self.input.len()
        &&& covers(self.set, self.input.take(self.pos))
        &&& self.settled()
    }

    /// The comparison that the reduction waits for: the artifact that is
    /// offered next, and the held artifact of the same name.
    pub open spec fn pending(self) -> Option<(Seq<char>, Seq<char>)> {
        if 0 <= self.pos < self.input.len() {
            match slot_of(self.set, logical_name(self.input[self.pos])) {
                Some(i) => Some((self.input[self.pos], self.set[i])),
                None => None,
            }
        } else {
            None
        }
    }

    /// Takes in the artifacts of new names that come next, up to the first
    /// one whose name is held.
    pub open spec fn settle(self) -> ReducerView
        decreases self.input.len() - self.pos,
    {
        if 0 <= self.pos < self.input.len() && slot_of(
            self.set,
            logical_name(self.input[self.pos]),
        ) is None {
            ReducerView {
                input: self.input,
                pos: self.pos + 1,
                set: self.set.push(self.input[self.pos]),
            }.settle()
        } else {
            self
        }
    }

    /// The reduction of `list` at its first comparison.
    pub open spec fn start(list: Seq<Seq<char>>) -> ReducerView {
        ReducerView { input: list, pos: 0, set: Seq::empty() }.settle()
    }

    /// The state after the pending comparison came out as `sign`; the state
    /// itself where no comparison is pending.
    pub open spec fn answer(self, sign: int) -> ReducerView {
        if self.pending() is Some {
            ReducerView {
                input: self.input,
                pos: self.pos + 1,
                set: absorb(self.set, self.input[self.pos], sign),
            }.settle()
        } else {
            self
        }
    }

    /// The set that the reduction ends with when each pending comparison is
    /// answered by `order`.
    pub open spec fn run(self, order: spec_fn(Seq<char>, Seq<char>) -> int) -> Seq<Seq<char>>
        decreases self.input.len() - self.pos,
        via Self::run_decreases
    {
        match self.pending() {
            Some((offered, held)) => self.answer(order(offered, held)).run(order),
            None => self.set,
        }
    }

    #[via_fn]
    proof fn run_decreases(self, order: spec_fn(Seq<char>, Seq<char>) -> int) {
        if self.pending() is Some {
            let (offered, held) = self.pending().unwrap();
            lemma_settle_advances(
                ReducerView {
                    input: self.input,
                    pos: self.pos + 1,
                    set: absorb(self.set, self.input[self.pos], order(offered, held)),
                },
            );
        }
    }
}

/// Settling keeps the list and moves forward only.
pub proof fn lemma_settle_advances(v: ReducerView)
    ensures
        v.settle().input == v.input,
        v.settle().pos >= v.pos,
        0 <= v.pos <= v.input.len() ==> v.settle().pos <= v.input.len(),
    decreases v.input.len() - v.pos,
{
    if 0 <= v.pos < v.input.len() && slot_of(v.set, logical_name(v.input[v.pos])) is None {
        lemma_settle_advances(
            ReducerView { input: v.input, pos: v.pos + 1, set: v.set.push(v.input[v.pos]) },
        );
    }
}

/// Settling keeps a set that covers what has been offered.
pub proof fn lemma_settle_wf(v: ReducerView)
    requires
        0 <= v.pos <= v.input.len(),
        covers(v.set, v.input.take(v.pos)),
    ensures
        v.settle().wf(),
    decreases v.input.len() - v.pos,
{
    if v.pos < v.input.len() && slot_of(v.set, logical_name(v.input[v.pos])) is None {
        let item = v.input[v.pos];
        lemma_absorb_covers(v.set, v.input.take(v.pos), item, 0);
        assert(v.input.take(v.pos).push(item) =~= v.input.take(v.pos + 1));
        lemma_settle_wf(ReducerView { input: v.input, pos: v.pos + 1, set: v.set.push(item) });
    }
}

/// Answering a comparison keeps the state well-formed, whatever the sign.
pub proof fn lemma_answer_wf(v: ReducerView, sign: int)
    requires
        v.wf(),
    ensures
        v.answer(sign).wf(),
{
    if v.pending() is Some {
        let item = v.input[v.pos];
        lemma_absorb_covers(v.set, v.input.take(v.pos), item, sign);
        assert(v.input.take(v.pos).push(item) =~= v.input.take(v.pos + 1));
        lemma_settle_wf(
            ReducerView { input: v.input, pos: v.pos + 1, set: absorb(v.set, item, sign) },
        );
    }
}

/// The reduction `v` has had every comparison answered by `order` so far:
/// its set is the reduced set, under `order`, of what has been offered, and
/// it stands at a comparison or at the end of the list.
pub open spec fn follows(v: ReducerView, order: spec_fn(Seq<char>, Seq<char>) -> int) -> bool {
    &&& 0 <= v.pos <= v.input.len()
    &&& v.set == reduce(v.input.take(v.pos), order)
    &&& v.settled()
}

/// Settling keeps a set that is the reduced set of what has been offered.
proof fn lemma_settle_follows(v: ReducerView, order: spec_fn(Seq<char>, Seq<char>) -> int)
    requires
        0 <= v.pos <= v.input.len(),
        v.set == reduce(v.input.take(v.pos), order),
    ensures
        follows(v.settle(), order),
        v.settle().input == v.input,
        v.pos <= v.settle().pos,
    decreases v.input.len() - v.pos,
{
    if v.pos < v.input.len() && slot_of(v.set, logical_name(v.input[v.pos])) is None {
        let item = v.input[v.pos];
        assert(v.input.take(v.pos + 1).drop_last() =~= v.input.take(v.pos));
        lemma_settle_follows(
            ReducerView { input: v.input, pos: v.pos + 1, set: v.set.push(item) },
            order,
        );
    }
}

/// A reduction that has just been started follows every comparison.
pub proof fn lemma_start_follows(list: Seq<Seq<char>>, order: spec_fn(Seq<char>, Seq<char>) -> int)
    ensures
        follows(ReducerView::start(list), order),
        ReducerView::start(list).input == list,
{
    let first = ReducerView { input: list, pos: 0, set: Seq::empty() };
    assert(list.take(0) =~= Seq::<Seq<char>>::empty());
    lemma_settle_follows(first, order);
}

/// A reduction that follows `order` and has its pending comparison
/// answered by `order` still follows `order`, on the same list and further
/// along in it.
pub proof fn lemma_answer_follows(v: ReducerView, order: spec_fn(Seq<char>, Seq<char>) -> int)
    requires
        follows(v, order),
        v.pending() is Some,
    ensures
        follows(v.answer(order(v.pending().unwrap().0, v.pending().unwrap().1)), order),
        v.answer(order(v.pending().unwrap().0, v.pending().unwrap().1)).input == v.input,
        v.answer(order(v.pending().unwrap().0, v.pending().unwrap().1)).pos > v.pos,
{
    let (offered, held) = v.pending().unwrap();
    let next = ReducerView {
        input: v.input,
        pos: v.pos + 1,
        set: absorb(v.set, v.input[v.pos], order(offered, held)),
    };
    assert(v.input.take(v.pos + 1).drop_last() =~= v.input.take(v.pos));
    lemma_settle_follows(next, order);
}

/// A reduction that follows a comparison is well-formed.
pub proof fn lemma_follows_wf(v: ReducerView, order: spec_fn(Seq<char>, Seq<char>) -> int)
    requires
        follows(v, order),
    ensures
        v.wf(),
{
    lemma_reduce_covers(v.input.take(v.pos), order);
}

/// A reduction that follows `order` and waits for nothing holds the reduced
/// set of its list under `order`.
pub proof fn lemma_follows_done(v: ReducerView, order: spec_fn(Seq<char>, Seq<char>) -> int)
    requires
        follows(v, order),
        v.pending() is None,
    ensures
        v.set == reduce(v.input, order),
{
    assert(v.input.take(v.pos) =~= v.input);
}

/// From a state that follows `order`, the run ends with the reduced set of
/// the whole list.
proof fn lemma_run_reduce(v: ReducerView, order: spec_fn(Seq<char>, Seq<char>) -> int)
    requires
        follows(v, order),
    ensures
        v.run(order) == reduce(v.input, order),
    decreases v.input.len() - v.pos,
{
    if v.pending() is Some {
        let (offered, held) = v.pending().unwrap();
        lemma_answer_follows(v, order);
        lemma_run_reduce(v.answer(order(offered, held)), order);
    } else {
        lemma_follows_done(v, order);
    }
}

/// A reduction that is started on a list and has every comparison answered
/// by `order` ends with the reduced set of the list under `order`.
pub proof fn lemma_run_is_reduce(list: Seq<Seq<char>>, order: spec_fn(Seq<char>, Seq<char>) -> int)
    ensures
        ReducerView::start(list).run(order) == reduce(list, order),
{
    lemma_start_follows(list, order);
    lemma_run_reduce(ReducerView::start(list), order);
}

/// A reduction under way. It takes in a list of artifacts one by one and
/// stops wherever two artifacts of one name have to be compared: the caller
/// has the comparison made and hands its sign back.
pub struct Reducer {
    input: Vec<String>,
    pos: usize,
    set: ReducedSet,
}

impl View for Reducer {
    type V = ReducerView;

    closed spec fn view(&self) -> ReducerView {
        ReducerView { input: self.input.deep_view(), pos: self.pos as int, set: self.set@ }
    }
}

impl Reducer {
    /// The set is well-formed and covers what has been offered, and the
    /// reduction stands at a comparison or at the end of the list.
    pub closed spec fn wf(&self) -> bool {
        self.set.wf() && self@.wf()
    }

    /// The view of a well-formed reduction is well-formed.
    pub proof fn lemma_view_wf(&self)
        requires
            self.wf(),
        ensures
            self@.wf(),
    {
    }

    /// Takes in the artifacts of new names that come next.
    fn settle(&mut self)
        requires
            old(self).set.wf(),
            old(self).pos <= old(self).input.len(),
            covers(old(self)@.set, old(self)@.input.take(old(self)@.pos)),
        ensures
            final(self)@ == old(self)@.settle(),
            final(self).wf(),
    {
        proof {
            lemma_settle_wf(self@);
        }
        while self.pos < self.input.len()
            invariant
                self.set.wf(),
                self.pos <= self.input.len(),
                self@.settle() == old(self)@.settle(),
                self@.settle().wf(),
            ensures
                self@ == old(self)@.settle(),
                self.set.wf(),
            decreases self.input.len() - self.pos,
        {
            let name = decode_pkgname(self.input[self.pos].as_str());
            assert(self@.input[self@.pos] == self.input[self.pos as int]@);
            if self.set.position(name.as_str()).is_some() {
                break ;
            }
            let ghost before = self@;
            let item = self.input[self.pos].clone();
            self.set.offer(item, 0);
            self.pos = self.pos + 1;
            assert(self@ == ReducerView {
                input: before.input,
                pos: before.pos + 1,
                set: before.set.push(before.input[before.pos]),
            });
        }
    }

    /// Starts the reduction of `list`.
    pub fn new(list: Vec<String>) -> (reducer: Reducer)
        ensures
            reducer@ == ReducerView::start(list.deep_view()),
            reducer.wf(),
    {
        let mut reducer = Reducer { input: list, pos: 0, set: ReducedSet::new() };
        assert(reducer@.input.take(0) =~= Seq::<Seq<char>>::empty());
        reducer.settle();
        reducer
    }

    /// Whether every artifact of the list has been offered.
    pub fn is_done(&self) -> (done: bool)
        requires
            self.wf(),
        ensures
            done == self@.done(),
            done == (self@.pending() is None),
    {
        self.pos >= self.input.len()
    }

    /// The comparison that the reduction waits for: the artifact that is
    /// offered next, and the held artifact of the same name.
    pub fn pending(&self) -> (question: Option<(String, String)>)
        requires
            self.wf(),
        ensures
            match question {
                Some((offered, held)) => self@.pending() == Some((offered@, held@)),
                None => self@.pending() is None,
            },
    {
        if self.pos >= self.input.len() {
            return None;
        }
        assert(self@.input[self@.pos] == self.input[self.pos as int]@);
        let name = decode_pkgname(self.input[self.pos].as_str());
        match self.set.position(name.as_str()) {
            Some(i) => {
                match self.set.artifact_at(i) {
                    Some(held) => {
                        let offered = self.input[self.pos].clone();
                        let held = held.clone();
                        Some((offered, held))
                    },
                    None => None,
                }
            },
            None => None,
        }
    }

    /// Hands in the sign of the pending comparison: positive if the offered
    /// artifact is newer than the held one. Where no comparison is pending,
    /// nothing changes.
    pub fn answer(&mut self, sign: isize)
        requires
            old(self).wf(),
        ensures
            final(self)@ == old(self)@.answer(sign as int),
            final(self).wf(),
    {
        if self.pos >= self.input.len() {
            return ;
        }
        assert(self@.input[self@.pos] == self.input[self.pos as int]@);
        proof {
            lemma_absorb_covers(
                self@.set,
                self@.input.take(self@.pos),
                self@.input[self@.pos],
                sign as int,
            );
            assert(self@.input.take(self@.pos).push(self@.input[self@.pos])
                =~= self@.input.take(self@.pos + 1));
        }
        let item = self.input[self.pos].clone();
        self.set.offer(item, sign);
        self.pos = self.pos + 1;
        self.settle();
    }

    /// The set as it stands. Once the reduction is done, it holds exactly
    /// one artifact for each logical name of the list.
    pub fn into_set(self) -> (set: ReducedSet)
        requires
            self.wf(),
        ensures
            set@ == self@.set,
            set.wf(),
            self@.done() ==> covers(set@, self@.input),
    {
        proof {
            if self@.done() {
                assert(self@.input.take(self@.pos) =~= self@.input);
            }
        }
        self.set
    }
}

} // verus!
