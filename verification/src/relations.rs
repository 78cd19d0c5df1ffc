//! Relations between the entities of two collections, derived from the
//! identifiers by which the entities of one refer to those of the other.

use vstd::prelude::*;
use std::marker::PhantomData;
use crate::collection::{CollectionWithId, Idx};
use crate::error::{Error, ErrorView};
use crate::idx_set::{
    increasing, lemma_members_empty, lemma_members_push, lemma_members_take, members,
    union_lists, IdxSet,
};
use crate::objects::{
    has_id, lemma_first_unresolved, refers, resolves, unresolved_id, Entity, RefersTo,
};

verus! {

/// Whether the list that `lists` keeps for position `a` holds `b`.
spec fn linked(lists: Seq<Vec<usize>>, a: int, b: int) -> bool {
    0 <= a < lists.len() && members(lists[a]@).contains(b)
}

/// Whether every list of `lists` is increasing and holds positions below
/// `bound` only.
spec fn adjacency(lists: Seq<Vec<usize>>, bound: int) -> bool {
    forall|a: int|
        0 <= a < lists.len() ==> increasing((#[trigger] lists[a])@) && forall|x: int|
            members(lists[a]@).contains(x) ==> 0 <= x < bound
}

/// The positions that the lists of `lists` hold for the positions of `picks`.
spec fn reach(lists: Seq<Vec<usize>>, picks: Seq<usize>) -> Set<int> {
    Set::new(|x: int| exists|t: int| members(picks).contains(t) && #[trigger] linked(lists, t, x))
}

/// `count` empty lists.
fn blank(count: usize) -> (lists: Vec<Vec<usize>>)
    ensures
        lists@.len() == count,
        forall|a: int| 0 <= a < count ==> (#[trigger] lists@[a])@ == Seq::<usize>::empty(),
{
    let mut lists: Vec<Vec<usize>> = Vec::new();
    let mut i: usize = 0;
    while i < count
        invariant
            0 <= i <= count,
            lists@.len() == i,
            forall|a: int| 0 <= a < i ==> (#[trigger] lists@[a])@ == Seq::<usize>::empty(),
        decreases count - i,
    {
        lists.push(Vec::new());
        i += 1;
    }
    lists
}

/// Appends `value` to the list that `lists` keeps for position `at`.
fn push_at(lists: &mut Vec<Vec<usize>>, at: usize, value: usize)
    requires
        at < old(lists)@.len(),
    ensures
        final(lists)@.len() == old(lists)@.len(),
        final(lists)@[at as int]@ == old(lists)@[at as int]@.push(value),
        forall|a: int|
            0 <= a < old(lists)@.len() && a != at ==> #[trigger] final(lists)@[a] == old(
                lists,
            )@[a],
{
    lists[at].push(value);
}

/// The union of the lists that `lists` keeps for the positions of `picks`.
fn union_over(lists: &Vec<Vec<usize>>, picks: &Vec<usize>) -> (all: Vec<usize>)
    requires
        forall|a: int| 0 <= a < lists@.len() ==> increasing((#[trigger] lists@[a])@),
    ensures
        increasing(all@),
        members(all@) == reach(lists@, picks@),
{
    let mut all: Vec<usize> = Vec::new();
    let mut k: usize = 0;
    proof {
        lemma_members_empty();
        assert(picks@.take(0) == Seq::<usize>::empty());
        assert(reach(lists@, picks@.take(0)) =~= Set::<int>::empty());
    }
    while k < picks.len()
        invariant
            0 <= k <= picks.len(),
            forall|a: int| 0 <= a < lists@.len() ==> increasing((#[trigger] lists@[a])@),
            increasing(all@),
            members(all@) == reach(lists@, picks@.take(k as int)),
        decreases picks.len() - k,
    {
        let pick: usize = picks[k];
        let ghost before = members(all@);
        if pick < lists.len() {
            all = union_lists(&all, &lists[pick]);
        }
        proof {
            lemma_members_take(picks@, k as int);
            let shorter = picks@.take(k as int);
            let longer = picks@.take(k as int + 1);
            assert forall|x: int| members(all@).contains(x) <==> reach(lists@, longer).contains(
                x,
            ) by {
                if members(all@).contains(x) {
                    if before.contains(x) {
                        let t = choose|t: int|
                            members(shorter).contains(t) && #[trigger] linked(lists@, t, x);
                        assert(members(longer).contains(t) && linked(lists@, t, x));
                    } else {
                        assert(members(longer).contains(pick as int) && linked(
                            lists@,
                            pick as int,
                            x,
                        ));
                    }
                }
                if reach(lists@, longer).contains(x) {
                    let t = choose|t: int|
                        members(longer).contains(t) && #[trigger] linked(lists@, t, x);
                    if t != pick {
                        assert(members(shorter).contains(t) && linked(lists@, t, x));
                    }
                }
            }
            assert(members(all@) =~= reach(lists@, longer));
        }
        k += 1;
    }
    proof {
        assert(picks@.take(picks@.len() as int) == picks@);
    }
    all
}

/// For each position of `first`, the union of the lists that `second` keeps
/// for the positions of that position's list.
fn chain(first: &Vec<Vec<usize>>, second: &Vec<Vec<usize>>) -> (chained: Vec<Vec<usize>>)
    requires
        forall|a: int| 0 <= a < second@.len() ==> increasing((#[trigger] second@[a])@),
    ensures
        chained@.len() == first@.len(),
        forall|a: int|
            0 <= a < first@.len() ==> increasing((#[trigger] chained@[a])@) && members(
                chained@[a]@,
            ) == reach(second@, first@[a]@),
{
    let mut chained: Vec<Vec<usize>> = Vec::new();
    let mut a: usize = 0;
    while a < first.len()
        invariant
            0 <= a <= first.len(),
            chained@.len() == a,
            forall|a: int| 0 <= a < second@.len() ==> increasing((#[trigger] second@[a])@),
            forall|b: int|
                0 <= b < a ==> increasing((#[trigger] chained@[b])@) && members(chained@[b]@)
                    == reach(second@, first@[b]@),
        decreases first.len() - a,
    {
        chained.push(union_over(second, &first[a]));
        a += 1;
    }
    chained
}

/// A relation between the entities of a source collection and those of a
/// target collection, by position.
pub struct Relation<S, T> {
    forward: Vec<Vec<usize>>,
    backward: Vec<Vec<usize>>,
    source_generation: u64,
    target_generation: u64,
    marker: PhantomData<(S, T)>,
}

impl<S, T> Relation<S, T> {
    /// Whether the relation holds between the source at position `s` and the
    /// target at position `t`.
    pub closed spec fn relates(&self, s: int, t: int) -> bool {
        linked(self.forward@, s, t)
    }

    /// The number of entities of the source collection.
    pub closed spec fn source_len(&self) -> nat {
        self.forward@.len()
    }

    /// The number of entities of the target collection.
    pub closed spec fn target_len(&self) -> nat {
        self.backward@.len()
    }

    /// The generation of the source collection that the relation describes.
    pub closed spec fn source_generation(&self) -> u64 {
        self.source_generation
    }

    /// The generation of the target collection that the relation describes.
    pub closed spec fn target_generation(&self) -> u64 {
        self.target_generation
    }

    /// The relation's invariant: both directions are stored, agree, and name
    /// positions of the two collections only.
    pub closed spec fn wf(&self) -> bool {
        &&& adjacency(self.forward@, self.backward@.len() as int)
        &&& adjacency(self.backward@, self.forward@.len() as int)
        &&& forall|s: int, t: int| #[trigger]
            linked(self.forward@, s, t) <==> linked(self.backward@, t, s)
    }

    /// Whether the relation takes the entity that `source` names to the
    /// entity that `target` names: both are handles of the generations that
    /// the relation describes, and the relation holds between their
    /// positions.
    pub open spec fn links(&self, source: Idx<S>, target: Idx<T>) -> bool {
        &&& source.generation() == self.source_generation()
        &&& target.generation() == self.target_generation()
        &&& self.relates(source.position() as int, target.position() as int)
    }

    /// A relation holds only between positions of its two collections.
    pub proof fn lemma_relates_in_range(&self, s: int, t: int)
        requires
            self.wf(),
            self.relates(s, t),
        ensures
            0 <= s < self.source_len(),
            0 <= t < self.target_len(),
    {
    }

    /// The handles of the targets to which the relation takes the source that
    /// `source` names; none for a handle of another generation or without an
    /// entity.
    pub fn get_from(&self, source: Idx<S>) -> (targets: IdxSet<T>)
        requires
            self.wf(),
        ensures
            targets.wf(),
            targets.generation() == self.target_generation(),
            forall|t: int|
                targets@.contains(t) <==> source.generation() == self.source_generation()
                    && self.relates(source.position() as int, t),
            forall|target: Idx<T>| targets.holds(target) <==> self.links(source, target),
    {
        let mut list: Vec<usize> = Vec::new();
        proof {
            lemma_members_empty();
        }
        if source.generation() == self.source_generation && source.position() < self.forward.len() {
            list = union_lists(&list, &self.forward[source.position()]);
        }
        IdxSet::from_list(list, self.target_generation)
    }

    /// The handles of the targets to which the relation takes any source of
    /// `sources`; none if the set is of another generation.
    pub fn get_from_all(&self, sources: &IdxSet<S>) -> (targets: IdxSet<T>)
        requires
            self.wf(),
            sources.wf(),
        ensures
            targets.wf(),
            targets.generation() == self.target_generation(),
            forall|t: int|
                targets@.contains(t) <==> sources.generation() == self.source_generation()
                    && exists|s: int| sources@.contains(s) && #[trigger] self.relates(s, t),
    {
        if sources.generation() != self.source_generation {
            return IdxSet::new(self.target_generation);
        }
        let picks = sources.list();
        let list = union_over(&self.forward, picks);
        proof {
            assert forall|t: int| members(list@).contains(t) <==> exists|s: int|
                sources@.contains(s) && #[trigger] self.relates(s, t) by {
                if members(list@).contains(t) {
                    let s = choose|s: int|
                        members(picks@).contains(s) && #[trigger] linked(
                            self.forward@,
                            s,
                            t,
                        );
                    assert(sources@.contains(s) && self.relates(s, t));
                }
                if exists|s: int| sources@.contains(s) && #[trigger] self.relates(s, t) {
                    let s = choose|s: int| sources@.contains(s) && #[trigger] self.relates(s, t);
                    assert(members(picks@).contains(s) && linked(self.forward@, s, t));
                }
            }
        }
        IdxSet::from_list(list, self.target_generation)
    }

    /// The same relation read from the targets to the sources.
    pub fn inverse(self) -> (inverse: Relation<T, S>)
        requires
            self.wf(),
        ensures
            inverse.wf(),
            inverse.source_len() == self.target_len(),
            inverse.target_len() == self.source_len(),
            inverse.source_generation() == self.target_generation(),
            inverse.target_generation() == self.source_generation(),
            forall|t: int, s: int| #[trigger] inverse.relates(t, s) <==> self.relates(s, t),
    {
        Relation {
            forward: self.backward,
            backward: self.forward,
            source_generation: self.target_generation,
            target_generation: self.source_generation,
            marker: PhantomData,
        }
    }

    /// The relation that holds between a source of `self` and a target of
    /// `next` when some entity between them is related to both. Where `next`
    /// describes another generation of the collection between them than
    /// `self` does, nothing is related.
    pub fn compose<U>(&self, next: &Relation<T, U>) -> (composed: Relation<S, U>)
        requires
            self.wf(),
            next.wf(),
        ensures
            composed.wf(),
            composed.source_len() == self.source_len(),
            composed.target_len() == next.target_len(),
            composed.source_generation() == self.source_generation(),
            composed.target_generation() == next.target_generation(),
            forall|s: int, u: int| #[trigger]
                composed.relates(s, u) <==> self.target_generation() == next.source_generation()
                    && exists|t: int| self.relates(s, t) && #[trigger] next.relates(t, u),
    {
        if self.target_generation != next.source_generation {
            let forward = blank(self.forward.len());
            let backward = blank(next.backward.len());
            proof {
                lemma_members_empty();
            }
            return Relation {
                forward,
                backward,
                source_generation: self.source_generation,
                target_generation: next.target_generation,
                marker: PhantomData,
            };
        }
        let forward = chain(&self.forward, &next.forward);
        let backward = chain(&next.backward, &self.backward);
        proof {
            assert forall|s: int, u: int| #[trigger] linked(forward@, s, u) <==> exists|t: int|
                linked(self.forward@, s, t) && #[trigger] linked(next.forward@, t, u) by {
                if linked(forward@, s, u) {
                    let t = choose|t: int|
                        members(self.forward@[s]@).contains(t) && #[trigger] linked(
                            next.forward@,
                            t,
                            u,
                        );
                    assert(linked(self.forward@, s, t) && linked(next.forward@, t, u));
                }
                if exists|t: int|
                    linked(self.forward@, s, t) && #[trigger] linked(next.forward@, t, u) {
                    let t = choose|t: int|
                        linked(self.forward@, s, t) && #[trigger] linked(next.forward@, t, u);
                    assert(members(self.forward@[s]@).contains(t) && linked(next.forward@, t, u));
                }
            }
            assert forall|u: int, s: int| #[trigger] linked(backward@, u, s) <==> exists|t: int|
                linked(next.backward@, u, t) && #[trigger] linked(self.backward@, t, s) by {
                if linked(backward@, u, s) {
                    let t = choose|t: int|
                        members(next.backward@[u]@).contains(t) && #[trigger] linked(
                            self.backward@,
                            t,
                            s,
                        );
                    assert(linked(next.backward@, u, t) && linked(self.backward@, t, s));
                }
                if exists|t: int|
                    linked(next.backward@, u, t) && #[trigger] linked(self.backward@, t, s) {
                    let t = choose|t: int|
                        linked(next.backward@, u, t) && #[trigger] linked(self.backward@, t, s);
                    assert(members(next.backward@[u]@).contains(t) && linked(
                        self.backward@,
                        t,
                        s,
                    ));
                }
            }
            assert forall|s: int, u: int| #[trigger]
                linked(forward@, s, u) <==> linked(backward@, u, s) by {
                if linked(forward@, s, u) {
                    let t = choose|t: int|
                        linked(self.forward@, s, t) && #[trigger] linked(next.forward@, t, u);
                    assert(linked(self.backward@, t, s));
                    assert(linked(next.backward@, u, t));
                }
                if linked(backward@, u, s) {
                    let t = choose|t: int|
                        linked(next.backward@, u, t) && #[trigger] linked(self.backward@, t, s);
                    assert(linked(self.forward@, s, t));
                    assert(linked(next.forward@, t, u));
                }
            }
            assert forall|a: int| 0 <= a < forward@.len() implies increasing(
                (#[trigger] forward@[a])@,
            ) && forall|x: int| members(forward@[a]@).contains(x) ==> 0 <= x < backward@.len() by {
                assert forall|x: int| members(forward@[a]@).contains(x) implies 0 <= x
                    < backward@.len() by {
                    assert(linked(forward@, a, x));
                    assert(linked(backward@, x, a));
                }
            }
            assert forall|a: int| 0 <= a < backward@.len() implies increasing(
                (#[trigger] backward@[a])@,
            ) && forall|x: int| members(backward@[a]@).contains(x) ==> 0 <= x < forward@.len() by {
                assert forall|x: int| members(backward@[a]@).contains(x) implies 0 <= x
                    < forward@.len() by {
                    assert(linked(backward@, a, x));
                    assert(linked(forward@, x, a));
                }
            }
        }
        let composed = Relation {
            forward,
            backward,
            source_generation: self.source_generation,
            target_generation: next.target_generation,
            marker: PhantomData,
        };
        proof {
            assert forall|s: int, u: int| #[trigger] composed.relates(s, u) <==> exists|t: int|
                self.relates(s, t) && #[trigger] next.relates(t, u) by {
                if composed.relates(s, u) {
                    let t = choose|t: int|
                        linked(self.forward@, s, t) && #[trigger] linked(next.forward@, t, u);
                    assert(self.relates(s, t) && next.relates(t, u));
                }
                if exists|t: int| self.relates(s, t) && #[trigger] next.relates(t, u) {
                    let t = choose|t: int| self.relates(s, t) && #[trigger] next.relates(t, u);
                    assert(linked(self.forward@, s, t) && linked(next.forward@, t, u));
                }
            }
        }
        composed
    }
}

impl<S: RefersTo<T>, T: Entity> Relation<S, T> {
    /// Whether the relation is the one that the references of `sources` to
    /// `targets` define, for the current generation of both collections: it
    /// holds between a source and a target exactly when the source refers to
    /// the target's identifier.
    pub open spec fn joins(
        &self,
        sources: &CollectionWithId<S>,
        targets: &CollectionWithId<T>,
    ) -> bool {
        &&& self.source_len() == sources@.len()
        &&& self.target_len() == targets@.len()
        &&& self.source_generation() == sources.generation()
        &&& self.target_generation() == targets.generation()
        &&& forall|s: int, t: int| #[trigger]
            self.relates(s, t) <==> refers(sources@, targets@, s, t)
    }

    /// Whether the relation is the one of `joins` read from the targets to
    /// the sources: it holds between a target and a source exactly when the
    /// source refers to the target's identifier.
    pub open spec fn gathers(
        relation: &Relation<T, S>,
        targets: &CollectionWithId<T>,
        sources: &CollectionWithId<S>,
    ) -> bool {
        &&& relation.source_len() == targets@.len()
        &&& relation.target_len() == sources@.len()
        &&& relation.source_generation() == targets.generation()
        &&& relation.target_generation() == sources.generation()
        &&& forall|t: int, s: int| #[trigger]
            relation.relates(t, s) <==> refers(sources@, targets@, s, t)
    }

    /// The relation that the references of `sources` to `targets` define.
    /// Refused if some source refers to an identifier that no target carries,
    /// with the identifier that the first such source refers to.
    pub fn build(sources: &CollectionWithId<S>, targets: &CollectionWithId<T>) -> (built: Result<
        Self,
        Error,
    >)
        requires
            targets.wf(),
        ensures
            match built {
                Ok(relation) => {
                    &&& unresolved_id(sources@, targets@) is None
                    &&& relation.wf()
                    &&& relation.joins(sources, targets)
                },
                Err(e) => {
                    &&& unresolved_id(sources@, targets@) matches Some(id)
                    &&& e@ == ErrorView::IntegrityViolation(id)
                },
            },
    {
        let pairs = sources.iter();
        let mut forward: Vec<Vec<usize>> = Vec::new();
        let mut backward: Vec<Vec<usize>> = blank(targets.len());
        let mut i: usize = 0;
        proof {
            lemma_members_empty();
        }
        while i < pairs.len()
            invariant
                0 <= i <= pairs@.len(),
                pairs@.len() == sources@.len(),
                forall|k: int| 0 <= k < sources@.len() ==> *(#[trigger] pairs@[k]).1 == sources@[k],
                targets.wf(),
                forward@.len() == i,
                backward@.len() == targets@.len(),
                resolves(sources@.take(i as int), targets@),
                forall|a: int| 0 <= a < forward@.len() ==> increasing((#[trigger] forward@[a])@),
                forall|a: int| 0 <= a < backward@.len() ==> increasing((#[trigger] backward@[a])@),
                forall|s: int, t: int| #[trigger]
                    linked(forward@, s, t) <==> s < i && refers(sources@, targets@, s, t),
                forall|t: int, s: int| #[trigger]
                    linked(backward@, t, s) <==> s < i && refers(sources@, targets@, s, t),
            decreases pairs@.len() - i,
        {
            let entity: &S = pairs[i].1;
            let wanted = entity.target_id();
            match targets.get_idx(wanted) {
                None => {
                    proof {
                        lemma_first_unresolved(sources@, targets@, i as int);
                    }
                    return Err(Error::IntegrityViolation(wanted.to_owned()));
                },
                Some(idx) => {
                    let position = idx.position();
                    let ghost forward_before = forward@;
                    let ghost backward_before = backward@;
                    let mut single: Vec<usize> = Vec::new();
                    single.push(position);
                    forward.push(single);
                    push_at(&mut backward, position, i);
                    proof {
                        lemma_members_push(Seq::<usize>::empty(), position);
                        lemma_members_push(backward_before[position as int]@, i);
                        assert(single@ == Seq::<usize>::empty().push(position));
                        assert(refers(sources@, targets@, i as int, position as int));
                        assert forall|k: int| 0 <= k < sources@.take(i as int + 1).len() implies has_id(
                            targets@,
                            (#[trigger] sources@.take(i as int + 1)[k]).spec_target_id(),
                        ) by {
                            if k < i {
                                assert(sources@.take(i as int)[k] == sources@.take(i as int + 1)[k]);
                            } else {
                                assert(targets@[position as int].spec_id() == wanted@);
                            }
                        }
                        assert forall|s: int, t: int| #[trigger]
                            linked(forward@, s, t) <==> s < i + 1 && refers(
                                sources@,
                                targets@,
                                s,
                                t,
                            ) by {
                            if 0 <= s < i {
                                assert(forward@[s] == forward_before[s]);
                                assert(linked(forward_before, s, t) == linked(forward@, s, t));
                            }
                        }
                        assert forall|t: int, s: int| #[trigger]
                            linked(backward@, t, s) <==> s < i + 1 && refers(
                                sources@,
                                targets@,
                                s,
                                t,
                            ) by {
                            if 0 <= t < backward@.len() {
                                if t != position {
                                    assert(backward@[t] == backward_before[t]);
                                }
                                assert(linked(backward_before, t, s) <==> s < i && refers(
                                    sources@,
                                    targets@,
                                    s,
                                    t,
                                ));
                            }
                        }
                        assert forall|a: int| 0 <= a < forward@.len() implies increasing(
                            (#[trigger] forward@[a])@,
                        ) by {
                            if a < i {
                                assert(forward@[a] == forward_before[a]);
                            }
                        }
                        assert forall|a: int| 0 <= a < backward@.len() implies increasing(
                            (#[trigger] backward@[a])@,
                        ) by {
                            if a != position {
                                assert(backward@[a] == backward_before[a]);
                            } else {
                                let old_list = backward_before[a]@;
                                assert forall|x: int, y: int|
                                    0 <= x < y < backward@[a]@.len() implies #[trigger] backward@[a]@[x]
                                    < #[trigger] backward@[a]@[y] by {
                                    assert(backward@[a]@[x] == old_list[x]);
                                    if y < old_list.len() {
                                        assert(backward@[a]@[y] == old_list[y]);
                                    } else {
                                        assert(members(old_list).contains(old_list[x] as int));
                                        assert(linked(backward_before, a, old_list[x] as int));
                                    }
                                }
                            }
                        }
                    }
                },
            }
            i += 1;
        }
        proof {
            assert(sources@.take(sources@.len() as int) == sources@);
        }
        let relation = Relation {
            forward,
            backward,
            source_generation: sources.generation(),
            target_generation: targets.generation(),
            marker: PhantomData,
        };
        proof {
            assert forall|a: int| 0 <= a < relation.forward@.len() implies forall|x: int|
                members((#[trigger] relation.forward@[a])@).contains(x) ==> 0 <= x
                    < relation.backward@.len() by {
                assert forall|x: int| members(relation.forward@[a]@).contains(x) implies 0 <= x
                    < relation.backward@.len() by {
                    assert(linked(relation.forward@, a, x));
                }
            }
            assert forall|a: int| 0 <= a < relation.backward@.len() implies forall|x: int|
                members((#[trigger] relation.backward@[a])@).contains(x) ==> 0 <= x
                    < relation.forward@.len() by {
                assert forall|x: int| members(relation.backward@[a]@).contains(x) implies 0 <= x
                    < relation.forward@.len() by {
                    assert(linked(relation.backward@, a, x));
                }
            }
        }
        Ok(relation)
    }
}

} // verus!
