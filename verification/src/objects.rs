//! The entities of the model and what a collection asks of them.

use vstd::prelude::*;

verus! {

/// An entity that carries the identifier under which its collection finds it.
pub trait Entity: Sized {
    /// The characters of the entity's identifier.
    spec fn spec_id(&self) -> Seq<char>;

    /// The entity's identifier.
    fn id(&self) -> (id: &str)
        ensures
            id@ == self.spec_id(),
    ;

    /// A copy of the entity, equal to it in every field.
    fn duplicate(&self) -> (copy: Self)
        ensures
            copy == *self,
    ;
}

/// An entity that refers to one entity of type `T` by that entity's identifier.
pub trait RefersTo<T: Entity>: Entity {
    /// The characters of the identifier that the entity refers to.
    spec fn spec_target_id(&self) -> Seq<char>;

    /// The identifier of the entity of type `T` that this entity refers to.
    fn target_id(&self) -> (id: &str)
        ensures
            id@ == self.spec_target_id(),
    ;
}

/// Whether some entity of `entities` carries the identifier `id`.
pub open spec fn has_id<T: Entity>(entities: Seq<T>, id: Seq<char>) -> bool {
    exists|j: int| 0 <= j < entities.len() && (#[trigger] entities[j]).spec_id() == id
}

/// Whether no two entities of `entities` carry the same identifier.
pub open spec fn distinct_ids<T: Entity>(entities: Seq<T>) -> bool {
    forall|i: int, j: int|
        0 <= i < j < entities.len() ==> (#[trigger] entities[i]).spec_id() != (
        #[trigger] entities[j]).spec_id()
}

/// Whether the entity at position `s` of `sources` refers to the identifier of
/// the entity at position `t` of `targets`.
pub open spec fn refers<S: RefersTo<T>, T: Entity>(
    sources: Seq<S>,
    targets: Seq<T>,
    s: int,
    t: int,
) -> bool {
    &&& 0 <= s < sources.len()
    &&& 0 <= t < targets.len()
    &&& sources[s].spec_target_id() == targets[t].spec_id()
}

/// Whether every entity of `sources` refers to an identifier that some entity
/// of `targets` carries.
pub open spec fn resolves<S: RefersTo<T>, T: Entity>(sources: Seq<S>, targets: Seq<T>) -> bool {
    forall|i: int|
        0 <= i < sources.len() ==> has_id(targets, (#[trigger] sources[i]).spec_target_id())
}

/// Whether `k` is the position of the first entity of `sources` that refers
/// to an identifier that no entity of `targets` carries.
pub open spec fn first_unresolved<S: RefersTo<T>, T: Entity>(
    sources: Seq<S>,
    targets: Seq<T>,
    k: int,
) -> bool {
    &&& 0 <= k < sources.len()
    &&& !has_id(targets, sources[k].spec_target_id())
    &&& resolves(sources.take(k), targets)
}

/// The identifier to which the first entity of `sources` without a target in
/// `targets` refers, if there is such an entity.
pub open spec fn unresolved_id<S: RefersTo<T>, T: Entity>(sources: Seq<S>, targets: Seq<T>) -> Option<
    Seq<char>,
> {
    if resolves(sources, targets) {
        None
    } else {
        Some(sources[choose|k: int| first_unresolved(sources, targets, k)].spec_target_id())
    }
}

/// At most one position is that of the first entity without a target.
pub proof fn lemma_first_unresolved<S: RefersTo<T>, T: Entity>(
    sources: Seq<S>,
    targets: Seq<T>,
    k: int,
)
    requires
        first_unresolved(sources, targets, k),
    ensures
        !resolves(sources, targets),
        unresolved_id(sources, targets) == Some(sources[k].spec_target_id()),
{
    let c = choose|c: int| first_unresolved(sources, targets, c);
    if c < k {
        assert(sources.take(k)[c] == sources[c]);
    }
    if k < c {
        assert(sources.take(c)[k] == sources[k]);
    }
}

/// A transit network, the root of the model.
#[derive(Debug, Clone, PartialEq, Eq, PartialOrd, Ord, Hash)]
pub struct Network {
    pub id: String,
    pub name: String,
}

/// A route, which belongs to one network.
#[derive(Debug, Clone, PartialEq, Eq, PartialOrd, Ord, Hash)]
pub struct Route {
    pub id: String,
    pub name: String,
    pub network_id: String,
}

/// A vehicle journey, one trip along one route.
#[derive(Debug, Clone, PartialEq, Eq, PartialOrd, Ord, Hash)]
pub struct VehicleJourney {
    pub id: String,
    pub route_id: String,
}

impl Entity for Network {
    open spec fn spec_id(&self) -> Seq<char> {
        self.id@
    }

    fn id(&self) -> (id: &str) {
        self.id.as_str()
    }

    fn duplicate(&self) -> (copy: Self) {
        Network { id: self.id.clone(), name: self.name.clone() }
    }
}

impl Entity for Route {
    open spec fn spec_id(&self) -> Seq<char> {
        self.id@
    }

    fn id(&self) -> (id: &str) {
        self.id.as_str()
    }

    fn duplicate(&self) -> (copy: Self) {
        Route {
            id: self.id.clone(),
            name: self.name.clone(),
            network_id: self.network_id.clone(),
        }
    }
}

impl RefersTo<Network> for Route {
    open spec fn spec_target_id(&self) -> Seq<char> {
        self.network_id@
    }

    fn target_id(&self) -> (id: &str) {
        self.network_id.as_str()
    }
}

impl Entity for VehicleJourney {
    open spec fn spec_id(&self) -> Seq<char> {
        self.id@
    }

    fn id(&self) -> (id: &str) {
        self.id.as_str()
    }

    fn duplicate(&self) -> (copy: Self) {
        VehicleJourney { id: self.id.clone(), route_id: self.route_id.clone() }
    }
}

impl RefersTo<Route> for VehicleJourney {
    open spec fn spec_target_id(&self) -> Seq<char> {
        self.route_id@
    }

    fn target_id(&self) -> (id: &str) {
        self.route_id.as_str()
    }
}

} // verus!
