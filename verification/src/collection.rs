//! Collections of entities that are found by position and by identifier.

use vstd::prelude::*;
use vstd::hash_map::StringHashMap;
use std::marker::PhantomData;
use crate::error::{Error, ErrorView};
use crate::objects::{distinct_ids, has_id, Entity};
use crate::sequences::{
    lemma_filter_distinct, lemma_filter_has_id, lemma_filter_members, lemma_filter_step,
};

verus! {

/// The handle of one entity in one collection of entities of type `T`: the
/// entity's position, and the generation of the collection that issued it.
///
/// A collection starts a new generation whenever it is filtered, and resolves
/// only handles of its current generation.
#[derive(Debug, PartialOrd, Ord, Hash)]
pub struct Idx<T> {
    position: usize,
    generation: u64,
    marker: PhantomData<T>,
}

impl<T> Clone for Idx<T> {
    fn clone(&self) -> (copy: Self)
        ensures
            copy == *self,
    {
        Idx { position: self.position, generation: self.generation, marker: self.marker }
    }
}

impl<T> Copy for Idx<T> {

}

impl<T> PartialEq for Idx<T> {
    /// Two handles are equal when they name the same position of the same
    /// generation.
    fn eq(&self, other: &Self) -> (equal: bool) {
        self.position == other.position && self.generation == other.generation
    }
}

impl<T> vstd::std_specs::cmp::PartialEqSpecImpl for Idx<T> {
    open spec fn obeys_eq_spec() -> bool {
        true
    }

    open spec fn eq_spec(&self, other: &Self) -> bool {
        self.position() == other.position() && self.generation() == other.generation()
    }
}

impl<T> Eq for Idx<T> {

}

impl<T> Idx<T> {
    /// The handle of the entity at `position` in a collection at `generation`.
    pub(crate) fn at(position: usize, generation: u64) -> (idx: Self)
        ensures
            idx.position() == position,
            idx.generation() == generation,
    {
        Idx { position, generation, marker: PhantomData }
    }

    /// The position that the handle names, in contracts.
    pub closed spec fn spec_position(&self) -> usize {
        self.position
    }

    /// The generation for which the handle was issued, in contracts.
    pub closed spec fn spec_generation(&self) -> u64 {
        self.generation
    }

    /// The position that the handle names.
    #[verifier::when_used_as_spec(spec_position)]
    pub fn position(&self) -> (position: usize)
        ensures
            position == self.spec_position(),
    {
        self.position
    }

    /// The generation of the collection for which the handle was issued.
    #[verifier::when_used_as_spec(spec_generation)]
    pub fn generation(&self) -> (generation: u64)
        ensures
            generation == self.spec_generation(),
    {
        self.generation
    }
}

/// Whether `j` is the position of the first entity of `entities` whose
/// identifier an earlier entity carries already.
pub open spec fn first_duplicate<T: Entity>(entities: Seq<T>, j: int) -> bool {
    &&& 0 <= j < entities.len()
    &&& has_id(entities.take(j), entities[j].spec_id())
    &&& distinct_ids(entities.take(j))
}

/// The identifier of the first entity of `entities` that repeats the
/// identifier of an earlier one, if there is such an entity.
pub open spec fn repeated_id<T: Entity>(entities: Seq<T>) -> Option<Seq<char>> {
    if distinct_ids(entities) {
        None
    } else {
        Some(entities[choose|j: int| first_duplicate(entities, j)].spec_id())
    }
}

/// At most one position is that of the first repeated identifier.
pub proof fn lemma_first_duplicate<T: Entity>(entities: Seq<T>, j: int)
    requires
        first_duplicate(entities, j),
    ensures
        !distinct_ids(entities),
        repeated_id(entities) == Some(entities[j].spec_id()),
{
    let earlier = choose|i: int|
        0 <= i < entities.take(j).len() && (#[trigger] entities.take(j)[i]).spec_id()
            == entities[j].spec_id();
    assert(entities[earlier] == entities.take(j)[earlier]);
    assert(entities[earlier].spec_id() == entities[j].spec_id());
    let c = choose|c: int| first_duplicate(entities, c);
    if c < j {
        let before = choose|i: int|
            0 <= i < entities.take(c).len() && (#[trigger] entities.take(c)[i]).spec_id()
                == entities[c].spec_id();
        assert(entities.take(j)[before].spec_id() == entities.take(c)[before].spec_id());
        assert(entities.take(j)[c] == entities[c]);
    }
    if j < c {
        assert(entities.take(c)[earlier].spec_id() == entities[earlier].spec_id());
        assert(entities.take(c)[j] == entities[j]);
    }
}

/// An ordered collection of entities with distinct identifiers.
pub struct CollectionWithId<T> {
    objects: Vec<T>,
    positions: StringHashMap<usize>,
    generation: u64,
}

impl<T: Entity> View for CollectionWithId<T> {
    type V = Seq<T>;

    /// The entities in storage order.
    closed spec fn view(&self) -> Seq<T> {
        self.objects@
    }
}

/// Whether `positions` maps exactly the identifiers of `objects`, each to the
/// position of the entity that carries it.
spec fn indexes<T: Entity>(positions: Map<Seq<char>, usize>, objects: Seq<T>) -> bool {
    &&& forall|i: int|
        0 <= i < objects.len() ==> positions.contains_key((#[trigger] objects[i]).spec_id())
            && positions[objects[i].spec_id()] == i
    &&& forall|k: Seq<char>| #[trigger]
        positions.contains_key(k) ==> positions[k] < objects.len() && objects[positions[k] as int].spec_id()
            == k
}

/// Maps each identifier of `objects` to its position, or reports the position
/// of the first entity whose identifier occurred before.
fn index_of<T: Entity>(objects: &Vec<T>) -> (indexed: Result<StringHashMap<usize>, usize>)
    ensures
        match indexed {
            Ok(positions) => distinct_ids(objects@) && indexes(positions@, objects@),
            Err(j) => first_duplicate(objects@, j as int),
        },
{
    let mut positions: StringHashMap<usize> = StringHashMap::new();
    let mut i: usize = 0;
    while i < objects.len()
        invariant
            0 <= i <= objects.len(),
            distinct_ids(objects@.take(i as int)),
            indexes(positions@, objects@.take(i as int)),
        decreases objects.len() - i,
    {
        let id = objects[i].id();
        let ghost before = objects@.take(i as int);
        let ghost after = objects@.take(i as int + 1);
        if positions.contains_key(id) {
            proof {
                let p = positions@[id@] as int;
                assert(before[p].spec_id() == id@);
            }
            return Err(i);
        }
        positions.insert(id.to_owned(), i);
        proof {
            assert forall|a: int, b: int| 0 <= a < b < after.len() implies (#[trigger] after[a]).spec_id()
                != (#[trigger] after[b]).spec_id() by {
                assert(after[a] == before[a]);
                if b < i {
                    assert(after[b] == before[b]);
                }
            }
            assert forall|a: int| 0 <= a < after.len() implies positions@.contains_key(
                (#[trigger] after[a]).spec_id(),
            ) && positions@[after[a].spec_id()] == a by {
                if a < i {
                    assert(after[a] == before[a]);
                }
            }
            assert forall|k: Seq<char>| #[trigger] positions@.contains_key(k) implies positions@[k]
                < after.len() && after[positions@[k] as int].spec_id() == k by {
                if k != id@ {
                    assert(after[positions@[k] as int] == before[positions@[k] as int]);
                }
            }
        }
        i += 1;
    }
    proof {
        assert(objects@.take(objects@.len() as int) == objects@);
    }
    Ok(positions)
}

/// Maps each identifier of `objects` to its position.
fn index_of_distinct<T: Entity>(objects: &Vec<T>) -> (positions: StringHashMap<usize>)
    requires
        distinct_ids(objects@),
    ensures
        indexes(positions@, objects@),
{
    match index_of(objects) {
        Ok(positions) => positions,
        Err(_) => unreached(),
    }
}

impl<T: Entity> CollectionWithId<T> {
    /// The current generation, in contracts.
    pub closed spec fn spec_generation(&self) -> u64 {
        self.generation
    }

    /// Whether the lookup by identifier agrees with the stored entities.
    pub closed spec fn index_agrees(&self) -> bool {
        indexes(self.positions@, self.objects@)
    }

    /// The collection's invariant: identifiers are distinct, and the lookup by
    /// identifier agrees with the stored entities.
    pub open spec fn wf(&self) -> bool {
        &&& distinct_ids(self@)
        &&& self.index_agrees()
    }

    /// Whether the collection resolves `idx`: the handle is of the current
    /// generation and names a position that holds an entity.
    pub open spec fn resolves(&self, idx: Idx<T>) -> bool {
        &&& idx.generation() == self.generation()
        &&& idx.position() < self@.len()
    }

    /// A collection of `objects` in the given order; refused if two of them
    /// carry the same identifier, with the identifier of the first entity that
    /// repeats an earlier one.
    pub fn new(objects: Vec<T>) -> (made: Result<Self, Error>)
        ensures
            match made {
                Ok(collection) => {
                    &&& repeated_id(objects@) is None
                    &&& collection.wf()
                    &&& collection@ == objects@
                    &&& collection.generation() == 0
                },
                Err(e) => {
                    &&& repeated_id(objects@) matches Some(id)
                    &&& e@ == ErrorView::DuplicateId(id)
                },
            },
    {
        match index_of(&objects) {
            Ok(positions) => Ok(CollectionWithId { objects, positions, generation: 0 }),
            Err(j) => {
                proof {
                    lemma_first_duplicate(objects@, j as int);
                }
                Err(Error::DuplicateId(objects[j].id().to_owned()))
            },
        }
    }

    /// The number of entities.
    pub fn len(&self) -> (len: usize)
        ensures
            len == self@.len(),
    {
        self.objects.len()
    }

    /// Whether the collection holds no entity.
    pub fn is_empty(&self) -> (empty: bool)
        ensures
            empty == (self@.len() == 0),
    {
        self.objects.len() == 0
    }

    /// The current generation: the number of times the collection was
    /// filtered.
    #[verifier::when_used_as_spec(spec_generation)]
    pub fn generation(&self) -> (generation: u64)
        ensures
            generation == self.spec_generation(),
    {
        self.generation
    }

    /// The handle of the entity that carries `id`, if there is one.
    pub fn get_idx(&self, id: &str) -> (found: Option<Idx<T>>)
        requires
            self.wf(),
        ensures
            match found {
                Some(idx) => self.resolves(idx) && self@[idx.position() as int].spec_id() == id@,
                None => !has_id(self@, id@),
            },
    {
        match self.positions.get(id) {
            Some(position) => Some(Idx::at(*position, self.generation)),
            None => None,
        }
    }

    /// The entity that `idx` names, if the collection resolves the handle.
    pub fn get(&self, idx: Idx<T>) -> (found: Option<&T>)
        ensures
            match found {
                Some(entity) => self.resolves(idx) && *entity == self@[idx.position() as int],
                None => !self.resolves(idx),
            },
    {
        if idx.generation == self.generation && idx.position < self.objects.len() {
            Some(&self.objects[idx.position])
        } else {
            None
        }
    }

    /// Appends `entity` and returns its handle; refused, with the collection
    /// unchanged, if an entity with the same identifier is present.
    pub fn insert(&mut self, entity: T) -> (inserted: Result<Idx<T>, Error>)
        requires
            old(self).wf(),
        ensures
            final(self).wf(),
            final(self).generation() == old(self).generation(),
            match inserted {
                Ok(idx) => {
                    &&& !has_id(old(self)@, entity.spec_id())
                    &&& final(self)@ == old(self)@.push(entity)
                    &&& idx.position() == old(self)@.len()
                    &&& idx.generation() == old(self).generation()
                },
                Err(e) => {
                    &&& has_id(old(self)@, entity.spec_id())
                    &&& e@ == ErrorView::DuplicateId(entity.spec_id())
                    &&& final(self)@ == old(self)@
                },
            },
    {
        let id = entity.id().to_owned();
        if self.positions.contains_key(id.as_str()) {
            proof {
                let p = self.positions@[id@] as int;
                assert(self.objects@[p].spec_id() == id@);
            }
            return Err(Error::DuplicateId(id));
        }
        let position = self.objects.len();
        let ghost before = self.objects@;
        self.positions.insert(id, position);
        self.objects.push(entity);
        proof {
            let after = self.objects@;
            assert forall|a: int, b: int| 0 <= a < b < after.len() implies (#[trigger] after[a]).spec_id()
                != (#[trigger] after[b]).spec_id() by {
                assert(after[a] == before[a]);
                if b < before.len() {
                    assert(after[b] == before[b]);
                }
            }
            assert forall|a: int| 0 <= a < after.len() implies self.positions@.contains_key(
                (#[trigger] after[a]).spec_id(),
            ) && self.positions@[after[a].spec_id()] == a by {
                if a < before.len() {
                    assert(after[a] == before[a]);
                }
            }
            assert forall|k: Seq<char>| #[trigger] self.positions@.contains_key(k) implies self.positions@[k]
                < after.len() && after[self.positions@[k] as int].spec_id() == k by {
                if k != entity.spec_id() {
                    assert(after[self.positions@[k] as int] == before[self.positions@[k] as int]);
                }
            }
        }
        Ok(Idx::at(position, self.generation))
    }

    /// Keeps the entities for which `keep` answers `true`, in their order, and
    /// starts a new generation: no handle issued before resolves afterwards.
    /// `keep` is asked about every entity, and an entity that is dropped was
    /// answered `false`.
    pub fn retain<F: Fn(&T) -> bool>(&mut self, keep: F)
        requires
            old(self).wf(),
            old(self).generation() < u64::MAX,
            forall|i: int| 0 <= i < old(self)@.len() ==> keep.requires((&#[trigger] old(self)@[i],)),
            forall|i: int, a: bool, b: bool|
                0 <= i < old(self)@.len() && keep.ensures((&#[trigger] old(self)@[i],), a)
                    && keep.ensures((&old(self)@[i],), b) ==> a == b,
        ensures
            final(self).wf(),
            final(self)@ == old(self)@.filter(|x: T| keep.ensures((&x,), true)),
            forall|i: int|
                0 <= i < old(self)@.len() ==> keep.ensures((&#[trigger] old(self)@[i],), true)
                    || keep.ensures((&old(self)@[i],), false),
            final(self).generation() == old(self).generation() + 1,
    {
        let ghost all = self.objects@;
        let ghost pred = |x: T| keep.ensures((&x,), true);
        let mut objects: Vec<T> = Vec::new();
        std::mem::swap(&mut objects, &mut self.objects);
        let mut kept: Vec<T> = Vec::new();
        assert(all.take(0).filter(pred) =~= Seq::<T>::empty()) by {
            reveal(Seq::filter);
        }
        for entity in entities: objects
            invariant
                entities.seq() == all,
                pred == |x: T| keep.ensures((&x,), true),
                forall|i: int| 0 <= i < all.len() ==> keep.requires((&#[trigger] all[i],)),
                forall|i: int, a: bool, b: bool|
                    0 <= i < all.len() && keep.ensures((&#[trigger] all[i],), a) && keep.ensures(
                        (&all[i],),
                        b,
                    ) ==> a == b,
                kept@ == all.take(entities.index()).filter(pred),
                forall|k: int|
                    0 <= k < entities.index() ==> keep.ensures((&#[trigger] all[k],), true)
                        || keep.ensures((&all[k],), false),
        {
            let ghost position = entities.index();
            assert(entity == all[position]);
            let answer = keep(&entity);
            proof {
                lemma_filter_step(all, pred, position);
                assert(keep.ensures((&all[position],), answer));
                assert(pred(all[position]) == answer);
            }
            if answer {
                kept.push(entity);
            }
        }
        proof {
            assert(all.take(all.len() as int) == all);
            lemma_filter_distinct(all, pred);
        }
        self.positions = index_of_distinct(&kept);
        self.objects = kept;
        self.generation = self.generation + 1;
    }

    /// Every entity with its handle, in storage order.
    pub fn iter(&self) -> (pairs: Vec<(Idx<T>, &T)>)
        ensures
            pairs@.len() == self@.len(),
            forall|i: int|
                0 <= i < self@.len() ==> {
                    &&& (#[trigger] pairs@[i]).0.position() == i
                    &&& pairs@[i].0.generation() == self.generation()
                    &&& *pairs@[i].1 == self@[i]
                },
    {
        let mut pairs: Vec<(Idx<T>, &T)> = Vec::new();
        let mut i: usize = 0;
        while i < self.objects.len()
            invariant
                0 <= i <= self.objects.len(),
                pairs@.len() == i,
                forall|k: int|
                    0 <= k < i ==> {
                        &&& (#[trigger] pairs@[k]).0.position() == k
                        &&& pairs@[k].0.generation() == self.generation
                        &&& *pairs@[k].1 == self.objects@[k]
                    },
            decreases self.objects.len() - i,
        {
            pairs.push((Idx::at(i, self.generation), &self.objects[i]));
            i += 1;
        }
        pairs
    }

    /// The entities in storage order, without the lookup by identifier.
    pub fn into_vec(self) -> (objects: Vec<T>)
        ensures
            objects@ == self@,
    {
        self.objects
    }

    /// A new collection of copies of the entities, in the same order. It is
    /// a collection of its own, at generation 0.
    pub fn duplicate(&self) -> (copy: Self)
        requires
            self.wf(),
        ensures
            copy.wf(),
            copy@ == self@,
            copy.generation() == 0,
    {
        let mut objects: Vec<T> = Vec::new();
        let mut i: usize = 0;
        while i < self.objects.len()
            invariant
                0 <= i <= self.objects.len(),
                objects@ == self.objects@.take(i as int),
            decreases self.objects.len() - i,
        {
            objects.push(self.objects[i].duplicate());
            proof {
                assert(self.objects@.take(i as int + 1) == self.objects@.take(i as int).push(
                    self.objects@[i as int],
                ));
            }
            i += 1;
        }
        proof {
            assert(self.objects@.take(self.objects@.len() as int) == self.objects@);
        }
        let positions = index_of_distinct(&objects);
        CollectionWithId { objects, positions, generation: 0 }
    }
}

/// An entity that was inserted is found again: in the collection that a
/// successful insertion of `entity` into `before` gives, the identifier of
/// `entity` is present, so that a second entity with that identifier is
/// refused, and any handle under which the collection finds that identifier
/// names `entity` itself.
pub proof fn lemma_inserted_is_found<T: Entity>(
    before: Seq<T>,
    entity: T,
    after: &CollectionWithId<T>,
    idx: Idx<T>,
)
    requires
        after.wf(),
        after@ == before.push(entity),
        after.resolves(idx),
        after@[idx.position() as int].spec_id() == entity.spec_id(),
    ensures
        has_id(after@, entity.spec_id()),
        idx.position() == before.len(),
        after@[idx.position() as int] == entity,
{
    let last = before.len() as int;
    assert(after@[last] == entity);
    if idx.position() != last {
        assert(after@[idx.position() as int].spec_id() != after@[last].spec_id());
    }
}

/// A filtered collection resolves no handle that it issued before. The
/// entity that such a handle named is either gone, and with it its
/// identifier, or it is still an entity of the collection.
pub proof fn lemma_retain_reindexes<T: Entity>(
    before: &CollectionWithId<T>,
    after: &CollectionWithId<T>,
    kept: spec_fn(T) -> bool,
    idx: Idx<T>,
)
    requires
        before.wf(),
        after@ == before@.filter(kept),
        after.generation() == before.generation() + 1,
        before.resolves(idx),
    ensures
        !after.resolves(idx),
        kept(before@[idx.position() as int]) ==> exists|j: int|
            0 <= j < after@.len() && #[trigger] after@[j] == before@[idx.position() as int],
        !kept(before@[idx.position() as int]) ==> !has_id(
            after@,
            before@[idx.position() as int].spec_id(),
        ),
{
    let old_position = idx.position() as int;
    let entity = before@[old_position];
    lemma_filter_members(before@, kept);
    lemma_filter_has_id(before@, kept, entity.spec_id());
    if !kept(entity) && has_id(after@, entity.spec_id()) {
        let j = choose|j: int|
            0 <= j < before@.len() && kept(before@[j]) && (#[trigger] before@[j]).spec_id()
                == entity.spec_id();
        assert(j == old_position);
    }
}

impl<T: Entity> Default for CollectionWithId<T> {
    /// The empty collection, at generation 0.
    fn default() -> (empty: Self)
        ensures
            empty.wf(),
            empty@ == Seq::<T>::empty(),
            empty.generation() == 0,
    {
        CollectionWithId { objects: Vec::new(), positions: StringHashMap::new(), generation: 0 }
    }
}

} // verus!
