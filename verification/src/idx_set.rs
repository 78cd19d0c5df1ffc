//! Sets of handles into one collection, kept as increasing lists of
//! positions.

use vstd::prelude::*;
use std::marker::PhantomData;
use crate::collection::Idx;

verus! {

/// The positions that `list` holds.
pub(crate) open spec fn members(list: Seq<usize>) -> Set<int> {
    Set::new(|p: int| exists|k: int| 0 <= k < list.len() && #[trigger] list[k] == p)
}

/// Whether `list` grows strictly from each position to the next.
pub(crate) open spec fn increasing(list: Seq<usize>) -> bool {
    forall|i: int, j: int| 0 <= i < j < list.len() ==> #[trigger] list[i] < #[trigger] list[j]
}

pub(crate) proof fn lemma_members_push(list: Seq<usize>, p: usize)
    ensures
        members(list.push(p)) == members(list).insert(p as int),
{
    let longer = list.push(p);
    assert forall|x: int| members(longer).contains(x) <==> members(list).insert(p as int).contains(
        x,
    ) by {
        if members(longer).contains(x) {
            let k = choose|k: int| 0 <= k < longer.len() && #[trigger] longer[k] == x;
            if k < list.len() {
                assert(list[k] == x);
            }
        }
        if members(list).contains(x) {
            let k = choose|k: int| 0 <= k < list.len() && #[trigger] list[k] == x;
            assert(longer[k] == x);
        }
        if x == p {
            assert(longer[list.len() as int] == x);
        }
    }
    assert(members(longer) =~= members(list).insert(p as int));
}

pub(crate) proof fn lemma_members_take(list: Seq<usize>, i: int)
    requires
        0 <= i < list.len(),
    ensures
        members(list.take(i + 1)) == members(list.take(i)).insert(list[i] as int),
{
    assert(list.take(i + 1) == list.take(i).push(list[i]));
    lemma_members_push(list.take(i), list[i]);
}

pub(crate) proof fn lemma_members_empty()
    ensures
        members(Seq::<usize>::empty()) == Set::<int>::empty(),
{
    assert(members(Seq::<usize>::empty()) =~= Set::<int>::empty());
}

/// An increasing list holds as many positions as it is long.
pub(crate) proof fn lemma_members_len(list: Seq<usize>)
    requires
        increasing(list),
    ensures
        members(list).finite(),
        members(list).len() == list.len(),
    decreases list.len(),
{
    if list.len() == 0 {
        assert(list == Seq::<usize>::empty());
        lemma_members_empty();
    } else {
        let rest = list.drop_last();
        let last = list.last();
        assert(increasing(rest)) by {
            assert forall|i: int, j: int| 0 <= i < j < rest.len() implies #[trigger] rest[i]
                < #[trigger] rest[j] by {
                assert(rest[i] == list[i] && rest[j] == list[j]);
            }
        }
        lemma_members_len(rest);
        assert(list == rest.push(last));
        lemma_members_push(rest, last);
        if members(rest).contains(last as int) {
            let k = choose|k: int| 0 <= k < rest.len() && #[trigger] rest[k] == last;
            assert(list[k] < list[list.len() - 1]);
        }
    }
}

/// Whether the increasing list `list` holds `p`, by bisection.
pub(crate) fn list_contains(list: &Vec<usize>, p: usize) -> (found: bool)
    requires
        increasing(list@),
    ensures
        found == members(list@).contains(p as int),
{
    let mut low: usize = 0;
    let mut high: usize = list.len();
    while low < high
        invariant
            0 <= low <= high <= list.len(),
            increasing(list@),
            forall|k: int| 0 <= k < low ==> #[trigger] list@[k] < p,
            forall|k: int| high <= k < list.len() ==> #[trigger] list@[k] > p,
        decreases high - low,
    {
        let middle: usize = low + (high - low) / 2;
        let value: usize = list[middle];
        if value == p {
            return true;
        } else if value < p {
            low = middle + 1;
        } else {
            high = middle;
        }
    }
    proof {
        if members(list@).contains(p as int) {
            let k = choose|k: int| 0 <= k < list@.len() && #[trigger] list@[k] == p;
            assert(false);
        }
    }
    false
}

/// The increasing list of the positions that `a` or `b` holds.
pub(crate) fn union_lists(a: &Vec<usize>, b: &Vec<usize>) -> (both: Vec<usize>)
    requires
        increasing(a@),
        increasing(b@),
    ensures
        increasing(both@),
        members(both@) == members(a@).union(members(b@)),
{
    let mut both: Vec<usize> = Vec::new();
    let mut i: usize = 0;
    let mut j: usize = 0;
    proof {
        lemma_members_empty();
        assert(a@.take(0) == Seq::<usize>::empty());
        assert(b@.take(0) == Seq::<usize>::empty());
        assert(members(both@) =~= members(a@.take(0)).union(members(b@.take(0))));
    }
    while i < a.len() || j < b.len()
        invariant
            0 <= i <= a.len(),
            0 <= j <= b.len(),
            increasing(a@),
            increasing(b@),
            increasing(both@),
            members(both@) == members(a@.take(i as int)).union(members(b@.take(j as int))),
            forall|k: int| 0 <= k < both.len() && i < a.len() ==> #[trigger] both@[k] < a@[i as int],
            forall|k: int| 0 <= k < both.len() && j < b.len() ==> #[trigger] both@[k] < b@[j as int],
        decreases (a.len() - i) + (b.len() - j),
    {
        let ghost before = both@;
        let take_a: bool = j >= b.len() || (i < a.len() && a[i] <= b[j]);
        let take_b: bool = i >= a.len() || (j < b.len() && b[j] <= a[i]);
        let next: usize = if take_a { a[i] } else { b[j] };
        both.push(next);
        proof {
            lemma_members_push(before, next);
            if take_a {
                lemma_members_take(a@, i as int);
            }
            if take_b {
                lemma_members_take(b@, j as int);
            }
            assert(members(both@) =~= members(a@.take(i + if take_a { 1int } else { 0 })).union(
                members(b@.take(j + if take_b { 1int } else { 0 })),
            ));
            assert forall|x: int, y: int| 0 <= x < y < both@.len() implies #[trigger] both@[x]
                < #[trigger] both@[y] by {
                if y < before.len() {
                    assert(both@[x] == before[x] && both@[y] == before[y]);
                } else {
                    assert(both@[x] == before[x]);
                }
            }
        }
        if take_a {
            i += 1;
        }
        if take_b {
            j += 1;
        }
    }
    proof {
        assert(a@.take(a@.len() as int) == a@);
        assert(b@.take(b@.len() as int) == b@);
    }
    both
}

/// A set of handles into one generation of one collection of entities of
/// type `T`.
pub struct IdxSet<T> {
    positions: Vec<usize>,
    generation: u64,
    marker: PhantomData<T>,
}

impl<T> View for IdxSet<T> {
    type V = Set<int>;

    /// The positions that the handles of the set name.
    closed spec fn view(&self) -> Set<int> {
        members(self.positions@)
    }
}

impl<T> IdxSet<T> {
    /// The set's invariant: its positions are stored in increasing order.
    pub closed spec fn wf(&self) -> bool {
        increasing(self.positions@)
    }

    /// The generation of the handles that the set holds, in contracts.
    pub closed spec fn spec_generation(&self) -> u64 {
        self.generation
    }

    /// The set of the positions of the increasing list `positions`.
    pub(crate) fn from_list(positions: Vec<usize>, generation: u64) -> (set: Self)
        requires
            increasing(positions@),
        ensures
            set.wf(),
            set@ == members(positions@),
            set.generation() == generation,
    {
        IdxSet { positions, generation, marker: PhantomData }
    }

    /// The increasing list of the set's positions.
    pub(crate) fn list(&self) -> (positions: &Vec<usize>)
        requires
            self.wf(),
        ensures
            increasing(positions@),
            members(positions@) == self@,
    {
        &self.positions
    }

    /// The empty set of handles of the given generation.
    pub fn new(generation: u64) -> (set: Self)
        ensures
            set.wf(),
            set@ == Set::<int>::empty(),
            set.generation() == generation,
    {
        proof {
            lemma_members_empty();
        }
        IdxSet { positions: Vec::new(), generation, marker: PhantomData }
    }

    /// The generation of the handles that the set holds.
    #[verifier::when_used_as_spec(spec_generation)]
    pub fn generation(&self) -> (generation: u64)
        ensures
            generation == self.spec_generation(),
    {
        self.generation
    }

    /// Whether the set holds `idx`: a handle of the set's generation whose
    /// position is in the set.
    pub open spec fn holds(&self, idx: Idx<T>) -> bool {
        idx.generation() == self.generation() && self@.contains(idx.position() as int)
    }

    /// The number of handles in the set.
    pub fn len(&self) -> (len: usize)
        requires
            self.wf(),
        ensures
            self@.finite(),
            len == self@.len(),
    {
        proof {
            lemma_members_len(self.positions@);
        }
        self.positions.len()
    }

    /// Whether the set holds no handle.
    pub fn is_empty(&self) -> (empty: bool)
        ensures
            empty == (self@ == Set::<int>::empty()),
    {
        proof {
            if self.positions@.len() == 0 {
                assert(self@ =~= Set::<int>::empty());
            } else {
                assert(self@.contains(self.positions@[0] as int));
            }
        }
        self.positions.len() == 0
    }

    /// Whether the set holds `idx`.
    pub fn contains(&self, idx: Idx<T>) -> (found: bool)
        requires
            self.wf(),
        ensures
            found == self.holds(idx),
    {
        idx.generation() == self.generation && list_contains(&self.positions, idx.position())
    }

    /// Adds `idx` to the set if it is a handle of the set's generation, and
    /// says whether it is.
    pub fn insert(&mut self, idx: Idx<T>) -> (accepted: bool)
        requires
            old(self).wf(),
        ensures
            final(self).wf(),
            final(self).generation() == old(self).generation(),
            accepted == (idx.generation() == old(self).generation()),
            final(self)@ == if accepted {
                old(self)@.insert(idx.position() as int)
            } else {
                old(self)@
            },
    {
        if idx.generation() != self.generation {
            return false;
        }
        let mut single: Vec<usize> = Vec::new();
        single.push(idx.position());
        proof {
            lemma_members_empty();
            lemma_members_push(Seq::<usize>::empty(), idx.position());
            assert(single@ == Seq::<usize>::empty().push(idx.position()));
        }
        let both = union_lists(&self.positions, &single);
        proof {
            assert(members(both@) =~= members(self.positions@).insert(idx.position() as int));
        }
        self.positions = both;
        true
    }

    /// The handles that either set holds, where both are of one generation;
    /// otherwise the handles of `self` alone.
    pub fn union(&self, other: &IdxSet<T>) -> (both: Self)
        requires
            self.wf(),
            other.wf(),
        ensures
            both.wf(),
            both.generation() == self.generation(),
            both@ == if other.generation() == self.generation() {
                self@.union(other@)
            } else {
                self@
            },
    {
        if other.generation != self.generation {
            let empty: Vec<usize> = Vec::new();
            proof {
                lemma_members_empty();
            }
            let same = union_lists(&self.positions, &empty);
            proof {
                assert(members(same@) =~= members(self.positions@));
            }
            IdxSet { positions: same, generation: self.generation, marker: PhantomData }
        } else {
            IdxSet {
                positions: union_lists(&self.positions, &other.positions),
                generation: self.generation,
                marker: PhantomData,
            }
        }
    }

    /// The handles of the set, by increasing position.
    pub fn to_vec(&self) -> (handles: Vec<Idx<T>>)
        requires
            self.wf(),
        ensures
            forall|k: int| 0 <= k < handles@.len() ==> self.holds(#[trigger] handles@[k]),
            forall|p: int|
                self@.contains(p) ==> exists|k: int|
                    0 <= k < handles@.len() && (#[trigger] handles@[k]).position() == p,
            forall|i: int, j: int|
                0 <= i < j < handles@.len() ==> (#[trigger] handles@[i]).position() < (
                #[trigger] handles@[j]).position(),
    {
        let mut handles: Vec<Idx<T>> = Vec::new();
        let mut i: usize = 0;
        while i < self.positions.len()
            invariant
                0 <= i <= self.positions.len(),
                handles@.len() == i,
                forall|k: int|
                    0 <= k < i ==> (#[trigger] handles@[k]).generation() == self.generation
                        && handles@[k].position() == self.positions@[k],
            decreases self.positions.len() - i,
        {
            handles.push(Idx::at(self.positions[i], self.generation));
            i += 1;
        }
        proof {
            assert forall|p: int| self@.contains(p) implies exists|k: int|
                0 <= k < handles@.len() && (#[trigger] handles@[k]).position() == p by {
                let k = choose|k: int| 0 <= k < self.positions@.len() && #[trigger] self.positions@[k] == p;
                assert(handles@[k].position() == p);
            }
            assert forall|k: int| 0 <= k < handles@.len() implies self.holds(
                #[trigger] handles@[k],
            ) by {
                assert(self.positions@[k] == handles@[k].position());
            }
        }
        handles
    }
}

} // verus!
