//! The collections of the model, raw and validated.

use vstd::prelude::*;
use crate::collection::{CollectionWithId, Idx};
use crate::error::{Error, ErrorView};
use crate::objects::{resolves, unresolved_id, Entity, Network, Route, VehicleJourney};
use crate::relations::Relation;
use crate::sequences::lemma_filter_by_answers;

verus! {

/// The collections of a model, with nothing promised about the references
/// between them.
pub struct Collections {
    pub networks: CollectionWithId<Network>,
    pub routes: CollectionWithId<Route>,
    pub vehicle_journeys: CollectionWithId<VehicleJourney>,
}

/// The content of [`Collections`]: the entities of each collection in
/// storage order.
pub struct CollectionsView {
    pub networks: Seq<Network>,
    pub routes: Seq<Route>,
    pub vehicle_journeys: Seq<VehicleJourney>,
}

impl View for Collections {
    type V = CollectionsView;

    open spec fn view(&self) -> CollectionsView {
        CollectionsView {
            networks: self.networks@,
            routes: self.routes@,
            vehicle_journeys: self.vehicle_journeys@,
        }
    }
}

/// Whether an entity carries a non-empty identifier.
pub open spec fn named<T: Entity>(entity: T) -> bool {
    entity.spec_id().len() > 0
}

/// The identifier of the first reference that does not resolve: that of the
/// first route without a network or, where every route has one, that of the
/// first vehicle journey without a route.
pub open spec fn violation(c: CollectionsView) -> Option<Seq<char>> {
    match unresolved_id(c.routes, c.networks) {
        Some(id) => Some(id),
        None => unresolved_id(c.vehicle_journeys, c.routes),
    }
}

/// Whether every reference between the collections resolves.
pub open spec fn consistent(c: CollectionsView) -> bool {
    &&& resolves(c.routes, c.networks)
    &&& resolves(c.vehicle_journeys, c.routes)
}

/// The collections without the entities that carry an empty identifier.
pub open spec fn sanitized(c: CollectionsView) -> CollectionsView {
    CollectionsView {
        networks: c.networks.filter(|n: Network| named(n)),
        routes: c.routes.filter(|r: Route| named(r)),
        vehicle_journeys: c.vehicle_journeys.filter(|v: VehicleJourney| named(v)),
    }
}

/// Consistent collections are those without a violation.
pub proof fn lemma_consistent_iff_no_violation(c: CollectionsView)
    ensures
        consistent(c) <==> violation(c) is None,
{
}

/// Drops the entities of `collection` that carry an empty identifier.
fn drop_unnamed<T: Entity>(collection: &mut CollectionWithId<T>)
    requires
        old(collection).wf(),
        old(collection).generation() < u64::MAX,
    ensures
        final(collection).wf(),
        final(collection)@ == old(collection)@.filter(|x: T| named(x)),
        final(collection).generation() == old(collection).generation() + 1,
{
    let keep = |x: &T| -> (kept: bool)
        ensures
            kept == named(*x),
        { !x.id().is_empty() };
    let ghost before = collection@;
    collection.retain(keep);
    proof {
        lemma_filter_by_answers(before, keep, |x: T| named(x));
    }
}

impl Collections {
    /// The invariant of the three collections.
    pub open spec fn wf(&self) -> bool {
        &&& self.networks.wf()
        &&& self.routes.wf()
        &&& self.vehicle_journeys.wf()
    }

    /// Whether each collection can still start a new generation.
    pub open spec fn can_filter(&self) -> bool {
        &&& self.networks.generation() < u64::MAX
        &&& self.routes.generation() < u64::MAX
        &&& self.vehicle_journeys.generation() < u64::MAX
    }

    /// Drops from each collection the entities that lack an identifier, the
    /// one field that no entity can do without. References to a dropped
    /// entity are left as they are: whether they resolve is for
    /// [`Model::new`] to say.
    pub fn sanitize(&mut self) -> (done: Result<(), Error>)
        requires
            old(self).wf(),
            old(self).can_filter(),
        ensures
            done is Ok,
            final(self).wf(),
            final(self)@ == sanitized(old(self)@),
            final(self).networks.generation() == old(self).networks.generation() + 1,
            final(self).routes.generation() == old(self).routes.generation() + 1,
            final(self).vehicle_journeys.generation() == old(self).vehicle_journeys.generation()
                + 1,
    {
        drop_unnamed(&mut self.networks);
        drop_unnamed(&mut self.routes);
        drop_unnamed(&mut self.vehicle_journeys);
        Ok(())
    }

    /// New collections of copies of the entities, each at generation 0.
    pub fn duplicate(&self) -> (copy: Self)
        requires
            self.wf(),
        ensures
            copy.wf(),
            copy@ == self@,
            copy.networks.generation() == 0,
            copy.routes.generation() == 0,
            copy.vehicle_journeys.generation() == 0,
    {
        Collections {
            networks: self.networks.duplicate(),
            routes: self.routes.duplicate(),
            vehicle_journeys: self.vehicle_journeys.duplicate(),
        }
    }
}

impl Default for Collections {
    /// Three empty collections.
    fn default() -> (empty: Self)
        ensures
            empty.wf(),
            empty.networks@ == Seq::<Network>::empty(),
            empty.routes@ == Seq::<Route>::empty(),
            empty.vehicle_journeys@ == Seq::<VehicleJourney>::empty(),
    {
        Collections {
            networks: CollectionWithId::default(),
            routes: CollectionWithId::default(),
            vehicle_journeys: CollectionWithId::default(),
        }
    }
}

/// Collections in which every reference resolves, with the relations that
/// the references define.
pub struct Model {
    collections: Collections,
    networks_to_routes: Relation<Network, Route>,
    routes_to_vehicle_journeys: Relation<Route, VehicleJourney>,
    networks_to_vehicle_journeys: Relation<Network, VehicleJourney>,
}

impl View for Model {
    type V = CollectionsView;

    /// The entities of the model's collections.
    closed spec fn view(&self) -> CollectionsView {
        self.collections@
    }
}

impl Model {
    /// The model's collections, in contracts.
    pub closed spec fn spec_collections(&self) -> &Collections {
        &self.collections
    }

    /// The relation from each network to its routes, in contracts.
    pub closed spec fn spec_networks_to_routes(&self) -> &Relation<Network, Route> {
        &self.networks_to_routes
    }

    /// The relation from each route to its vehicle journeys, in contracts.
    pub closed spec fn spec_routes_to_vehicle_journeys(&self) -> &Relation<Route, VehicleJourney> {
        &self.routes_to_vehicle_journeys
    }

    /// The relation from each network to the vehicle journeys of its
    /// routes, in contracts.
    pub closed spec fn spec_networks_to_vehicle_journeys(&self) -> &Relation<
        Network,
        VehicleJourney,
    > {
        &self.networks_to_vehicle_journeys
    }

    /// The model's invariant: every reference resolves, and the relations
    /// are those that the references of the current collections define.
    pub open spec fn wf(&self) -> bool {
        let c = self.collections();
        &&& self@ == c@
        &&& c.wf()
        &&& consistent(c@)
        &&& self.networks_to_routes().wf()
        &&& Relation::gathers(self.networks_to_routes(), &c.networks, &c.routes)
        &&& self.routes_to_vehicle_journeys().wf()
        &&& Relation::gathers(self.routes_to_vehicle_journeys(), &c.routes, &c.vehicle_journeys)
        &&& self.networks_to_vehicle_journeys().wf()
        &&& self.networks_to_vehicle_journeys().source_len() == c.networks@.len()
        &&& self.networks_to_vehicle_journeys().target_len() == c.vehicle_journeys@.len()
        &&& self.networks_to_vehicle_journeys().source_generation() == c.networks.generation()
        &&& self.networks_to_vehicle_journeys().target_generation()
            == c.vehicle_journeys.generation()
        &&& forall|n: int, v: int| #[trigger]
            self.networks_to_vehicle_journeys().relates(n, v) <==> exists|r: int|
                self.networks_to_routes().relates(n, r) && #[trigger]
                self.routes_to_vehicle_journeys().relates(r, v)
    }

    /// Validates `collections`: builds the relation of the routes to their
    /// networks, then that of the vehicle journeys to their routes, then
    /// chains the two. Refused at the first reference that does not resolve,
    /// with the identifier it names.
    pub fn new(collections: Collections) -> (made: Result<Model, Error>)
        requires
            collections.wf(),
        ensures
            match made {
                Ok(model) => {
                    &&& violation(collections@) is None
                    &&& model.wf()
                    &&& *model.collections() == collections
                },
                Err(e) => {
                    &&& violation(collections@) matches Some(id)
                    &&& e@ == ErrorView::IntegrityViolation(id)
                },
            },
    {
        let routes_to_networks = match Relation::build(&collections.routes, &collections.networks) {
            Ok(relation) => relation,
            Err(e) => {
                return Err(e);
            },
        };
        let vehicle_journeys_to_routes = match Relation::build(
            &collections.vehicle_journeys,
            &collections.routes,
        ) {
            Ok(relation) => relation,
            Err(e) => {
                return Err(e);
            },
        };
        let networks_to_routes = routes_to_networks.inverse();
        let routes_to_vehicle_journeys = vehicle_journeys_to_routes.inverse();
        let networks_to_vehicle_journeys = networks_to_routes.compose(&routes_to_vehicle_journeys);
        Ok(
            Model {
                collections,
                networks_to_routes,
                routes_to_vehicle_journeys,
                networks_to_vehicle_journeys,
            },
        )
    }

    /// Gives the collections back for mutation; the relations are dropped.
    pub fn into_collections(self) -> (collections: Collections)
        ensures
            collections == *self.collections(),
    {
        self.collections
    }

    /// The model's collections.
    #[verifier::when_used_as_spec(spec_collections)]
    pub fn collections(&self) -> (collections: &Collections)
        ensures
            collections == self.spec_collections(),
    {
        &self.collections
    }

    /// From each network to its routes.
    #[verifier::when_used_as_spec(spec_networks_to_routes)]
    pub fn networks_to_routes(&self) -> (relation: &Relation<Network, Route>)
        ensures
            relation == self.spec_networks_to_routes(),
    {
        &self.networks_to_routes
    }

    /// From each route to its vehicle journeys.
    #[verifier::when_used_as_spec(spec_routes_to_vehicle_journeys)]
    pub fn routes_to_vehicle_journeys(&self) -> (relation: &Relation<Route, VehicleJourney>)
        ensures
            relation == self.spec_routes_to_vehicle_journeys(),
    {
        &self.routes_to_vehicle_journeys
    }

    /// From each network to the vehicle journeys of its routes.
    #[verifier::when_used_as_spec(spec_networks_to_vehicle_journeys)]
    pub fn networks_to_vehicle_journeys(&self) -> (relation: &Relation<Network, VehicleJourney>)
        ensures
            relation == self.spec_networks_to_vehicle_journeys(),
    {
        &self.networks_to_vehicle_journeys
    }
}

/// The relations of a model lead from entities of its collections to
/// entities of its collections: the handles that a relation links are
/// handles that the collections resolve, so nothing that a relation gives
/// for an entity of the model dangles.
pub proof fn lemma_relations_are_sound(model: &Model)
    requires
        model.wf(),
    ensures
        forall|n: Idx<Network>, r: Idx<Route>| #[trigger]
            model.networks_to_routes().links(n, r) ==> model.collections().networks.resolves(n)
                && model.collections().routes.resolves(r),
        forall|r: Idx<Route>, v: Idx<VehicleJourney>| #[trigger]
            model.routes_to_vehicle_journeys().links(r, v) ==> model.collections().routes.resolves(
                r,
            ) && model.collections().vehicle_journeys.resolves(v),
        forall|n: Idx<Network>, v: Idx<VehicleJourney>| #[trigger]
            model.networks_to_vehicle_journeys().links(n, v)
                ==> model.collections().networks.resolves(n)
                && model.collections().vehicle_journeys.resolves(v),
{
    assert forall|n: Idx<Network>, v: Idx<VehicleJourney>| #[trigger]
        model.networks_to_vehicle_journeys().links(n, v) implies model.collections().networks.resolves(
        n,
    ) && model.collections().vehicle_journeys.resolves(v) by {
        model.networks_to_vehicle_journeys().lemma_relates_in_range(
            n.position() as int,
            v.position() as int,
        );
    }
}

/// A model that is taken apart and validated again is the same model: its
/// collections are accepted, and a model of the same collections has the
/// same entities and relates the same positions.
pub proof fn lemma_round_trip(model: &Model, again: &Model)
    requires
        model.wf(),
        again.wf(),
        *again.collections() == *model.collections(),
    ensures
        model.collections().wf(),
        violation(model@) is None,
        again@ == model@,
        forall|n: int, r: int|
            again.networks_to_routes().relates(n, r) == model.networks_to_routes().relates(n, r),
        forall|r: int, v: int|
            again.routes_to_vehicle_journeys().relates(r, v)
                == model.routes_to_vehicle_journeys().relates(r, v),
        forall|n: int, v: int|
            again.networks_to_vehicle_journeys().relates(n, v)
                == model.networks_to_vehicle_journeys().relates(n, v),
{
    assert forall|n: int, v: int|
        again.networks_to_vehicle_journeys().relates(n, v)
            == model.networks_to_vehicle_journeys().relates(n, v) by {
        if again.networks_to_vehicle_journeys().relates(n, v) {
            let r = choose|r: int|
                again.networks_to_routes().relates(n, r) && #[trigger]
                again.routes_to_vehicle_journeys().relates(r, v);
            assert(model.networks_to_routes().relates(n, r)
                && model.routes_to_vehicle_journeys().relates(r, v));
        }
        if model.networks_to_vehicle_journeys().relates(n, v) {
            let r = choose|r: int|
                model.networks_to_routes().relates(n, r) && #[trigger]
                model.routes_to_vehicle_journeys().relates(r, v);
            assert(again.networks_to_routes().relates(n, r)
                && again.routes_to_vehicle_journeys().relates(r, v));
        }
    }
}

} // verus!
