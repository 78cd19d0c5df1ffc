//! Extracting networks from a model, or removing them, with everything
//! that belongs to them.

use vstd::prelude::*;
use crate::collection::{CollectionWithId, Idx};
use crate::error::{Error, ErrorView};
use crate::idx_set::{increasing, lemma_members_empty, lemma_members_push, members, IdxSet};
use crate::model::{consistent, named, sanitized, violation, CollectionsView, Model};
use crate::objects::{
    distinct_ids, has_id, refers, Entity, Network, RefersTo, Route, VehicleJourney,
};
use crate::sequences::{
    lemma_filter_agree, lemma_filter_all, lemma_filter_by_answers, lemma_filter_has_id,
    lemma_filter_members,
};

verus! {

/// What a filter does with the networks that it is given.
#[derive(Debug, Clone, Copy, PartialEq, Eq)]
pub enum Action {
    /// Keep the given networks and drop the others.
    Extract,
    /// Drop the given networks and keep the others.
    Remove,
}

/// Whether a filter keeps the network that carries `id`.
pub open spec fn keeps(action: Action, ids: Seq<Seq<char>>, id: Seq<char>) -> bool {
    ids.contains(id) == (action is Extract)
}

/// The collections after the filter: the networks that it keeps, the routes
/// of those networks, and the vehicle journeys of those routes.
pub open spec fn filtered(c: CollectionsView, action: Action, ids: Seq<Seq<char>>) -> CollectionsView {
    let networks = c.networks.filter(|n: Network| keeps(action, ids, n.id@));
    let routes = c.routes.filter(|r: Route| has_id(networks, r.network_id@));
    let vehicle_journeys = c.vehicle_journeys.filter(|v: VehicleJourney| has_id(routes, v.route_id@));
    CollectionsView { networks, routes, vehicle_journeys }
}

/// Whether `k` is the position of the first identifier of `ids` that no
/// network carries.
pub open spec fn first_unknown(networks: Seq<Network>, ids: Seq<Seq<char>>, k: int) -> bool {
    &&& 0 <= k < ids.len()
    &&& !has_id(networks, ids[k])
    &&& forall|j: int| 0 <= j < k ==> has_id(networks, #[trigger] ids[j])
}

/// The first identifier of `ids` that no network carries, if there is one.
pub open spec fn unknown_id(networks: Seq<Network>, ids: Seq<Seq<char>>) -> Option<Seq<char>> {
    if forall|j: int| 0 <= j < ids.len() ==> has_id(networks, #[trigger] ids[j]) {
        None
    } else {
        Some(ids[choose|k: int| first_unknown(networks, ids, k)])
    }
}

/// The collections of a model, if every reference resolves, or else the
/// violation.
pub open spec fn validated(c: CollectionsView) -> Result<CollectionsView, ErrorView> {
    match violation(c) {
        Some(id) => Err(ErrorView::IntegrityViolation(id)),
        None => Ok(c),
    }
}

/// What a filter of the collections `c` gives: an unknown identifier is
/// reported first; then a result without vehicle journeys; then what is left
/// is sanitized and validated.
pub open spec fn filter_outcome(c: CollectionsView, action: Action, ids: Seq<Seq<char>>) -> Result<
    CollectionsView,
    ErrorView,
> {
    match unknown_id(c.networks, ids) {
        Some(id) => Err(ErrorView::UnknownId(id)),
        None => {
            let kept = filtered(c, action, ids);
            if kept.vehicle_journeys.len() == 0 {
                Err(ErrorView::EmptyResult)
            } else {
                validated(sanitized(kept))
            }
        },
    }
}

/// At most one position is that of the first unknown identifier.
proof fn lemma_first_unknown(networks: Seq<Network>, ids: Seq<Seq<char>>, k: int)
    requires
        first_unknown(networks, ids, k),
    ensures
        unknown_id(networks, ids) == Some(ids[k]),
{
    let c = choose|c: int| first_unknown(networks, ids, c);
    assert(c == k);
}

/// Whether the entity of `entities` that carries the identifier of `x` stands
/// at a position of `marked`.
pub open spec fn is_marked<T: Entity>(entities: Seq<T>, marked: Set<int>, x: T) -> bool {
    exists|p: int|
        0 <= p < entities.len() && marked.contains(p) && (#[trigger] entities[p]).spec_id()
            == x.spec_id()
}

/// The handles of the networks that carry the identifiers of `ids`.
fn resolve(networks: &CollectionWithId<Network>, ids: &Vec<String>) -> (resolved: Result<
    IdxSet<Network>,
    Error,
>)
    requires
        networks.wf(),
    ensures
        match resolved {
            Ok(selected) => {
                &&& unknown_id(networks@, ids.deep_view()) is None
                &&& selected.wf()
                &&& selected.generation() == networks.generation()
                &&& forall|p: int|
                    selected@.contains(p) <==> 0 <= p < networks@.len() && ids.deep_view().contains(
                        networks@[p].spec_id(),
                    )
            },
            Err(e) => {
                &&& unknown_id(networks@, ids.deep_view()) matches Some(id)
                &&& e@ == ErrorView::UnknownId(id)
            },
        },
{
    let ghost wanted = ids.deep_view();
    let mut selected: IdxSet<Network> = IdxSet::new(networks.generation());
    let mut k: usize = 0;
    while k < ids.len()
        invariant
            0 <= k <= ids.len(),
            wanted == ids.deep_view(),
            networks.wf(),
            selected.wf(),
            selected.generation() == networks.generation(),
            forall|j: int| 0 <= j < k ==> has_id(networks@, #[trigger] wanted[j]),
            forall|p: int|
                selected@.contains(p) <==> 0 <= p < networks@.len() && exists|j: int|
                    0 <= j < k && #[trigger] wanted[j] == networks@[p].spec_id(),
        decreases ids.len() - k,
    {
        let id: &String = &ids[k];
        assert(wanted[k as int] == id@);
        match networks.get_idx(id.as_str()) {
            None => {
                proof {
                    lemma_first_unknown(networks@, wanted, k as int);
                }
                return Err(Error::UnknownId(id.clone()));
            },
            Some(idx) => {
                let ghost before = selected@;
                selected.insert(idx);
                proof {
                    assert forall|p: int| selected@.contains(p) <==> 0 <= p < networks@.len()
                        && exists|j: int|
                        0 <= j < k + 1 && #[trigger] wanted[j] == networks@[p].spec_id() by {
                        if selected@.contains(p) {
                            if before.contains(p) {
                                let j = choose|j: int|
                                    0 <= j < k && #[trigger] wanted[j] == networks@[p].spec_id();
                                assert(0 <= j < k + 1 && wanted[j] == networks@[p].spec_id());
                            } else {
                                assert(wanted[k as int] == networks@[p].spec_id());
                            }
                        }
                        if 0 <= p < networks@.len() && exists|j: int|
                            0 <= j < k + 1 && #[trigger] wanted[j] == networks@[p].spec_id() {
                            let j = choose|j: int|
                                0 <= j < k + 1 && #[trigger] wanted[j] == networks@[p].spec_id();
                            if j < k {
                                assert(before.contains(p));
                            } else {
                                assert(networks@[p].spec_id() == networks@[idx.position() as int].spec_id());
                                assert(p == idx.position());
                            }
                        }
                    }
                }
            },
        }
        k += 1;
    }
    proof {
        assert forall|p: int| selected@.contains(p) <==> 0 <= p < networks@.len()
            && wanted.contains(networks@[p].spec_id()) by {
            if selected@.contains(p) {
                let j = choose|j: int| 0 <= j < k && #[trigger] wanted[j] == networks@[p].spec_id();
                assert(wanted.contains(networks@[p].spec_id()));
            }
            if 0 <= p < networks@.len() && wanted.contains(networks@[p].spec_id()) {
                let j = choose|j: int| 0 <= j < wanted.len() && wanted[j] == networks@[p].spec_id();
                assert(0 <= j < k && wanted[j] == networks@[p].spec_id());
            }
        }
    }
    Ok(selected)
}

/// The handles of the `count` first positions that are in `selected`, for
/// [`Action::Extract`], or that are not, for [`Action::Remove`].
fn survivors(count: usize, selected: &IdxSet<Network>, action: Action) -> (surviving: IdxSet<
    Network,
>)
    requires
        selected.wf(),
    ensures
        surviving.wf(),
        surviving.generation() == selected.generation(),
        forall|p: int|
            surviving@.contains(p) <==> 0 <= p < count && (selected@.contains(p) == (
            action is Extract)),
{
    let extract: bool = match action {
        Action::Extract => true,
        Action::Remove => false,
    };
    let mut list: Vec<usize> = Vec::new();
    let mut i: usize = 0;
    proof {
        lemma_members_empty();
    }
    while i < count
        invariant
            0 <= i <= count,
            selected.wf(),
            extract == (action is Extract),
            increasing(list@),
            forall|k: int| 0 <= k < list@.len() ==> #[trigger] list@[k] < i,
            forall|p: int| #[trigger]
                members(list@).contains(p) <==> 0 <= p < i && (selected@.contains(p) == extract),
        decreases count - i,
    {
        let ghost before = list@;
        let chosen = selected.contains(Idx::at(i, selected.generation())) == extract;
        if chosen {
            list.push(i);
            proof {
                lemma_members_push(before, i);
            }
        }
        proof {
            assert forall|p: int| #[trigger]
                members(list@).contains(p) <==> 0 <= p < i + 1 && (selected@.contains(p)
                    == extract) by {
                assert(members(before).contains(p) <==> 0 <= p < i && (selected@.contains(p)
                    == extract));
            }
        }
        i += 1;
    }
    let surviving = IdxSet::from_list(list, selected.generation());
    proof {
        assert forall|p: int| surviving@.contains(p) <==> 0 <= p < count && (selected@.contains(p)
            == (action is Extract)) by {
            assert(members(list@).contains(p) <==> 0 <= p < count && (selected@.contains(p)
                == extract));
        }
    }
    surviving
}

/// Keeps in `collection`, a copy of `reference`, the entities whose handle
/// in `reference` is in `marked`.
fn retain_marked<T: Entity>(
    collection: &mut CollectionWithId<T>,
    reference: &CollectionWithId<T>,
    marked: &IdxSet<T>,
)
    requires
        old(collection).wf(),
        old(collection).generation() < u64::MAX,
        old(collection)@ == reference@,
        reference.wf(),
        marked.wf(),
        marked.generation() == reference.generation(),
    ensures
        final(collection).wf(),
        final(collection).generation() == old(collection).generation() + 1,
        final(collection)@ == reference@.filter(|x: T| is_marked(reference@, marked@, x)),
{
    let keep = |x: &T| -> (kept: bool)
        ensures
            kept == is_marked(reference@, marked@, *x),
        {
            match reference.get_idx(x.id()) {
                Some(idx) => {
                    let found = marked.contains(idx);
                    proof {
                        let here = idx.position() as int;
                        if found {
                            assert(reference@[here].spec_id() == x.spec_id());
                        }
                        if is_marked(reference@, marked@, *x) {
                            let p = choose|p: int|
                                0 <= p < reference@.len() && marked@.contains(p) && (
                                #[trigger] reference@[p]).spec_id() == x.spec_id();
                            assert(reference@[p].spec_id() == reference@[here].spec_id());
                            assert(p == here);
                        }
                    }
                    found
                },
                None => false,
            }
        };
    collection.retain(keep);
    proof {
        lemma_filter_by_answers(reference@, keep, |x: T| is_marked(reference@, marked@, x));
    }
}

/// Keeping the networks at the surviving positions keeps the networks that
/// the filter keeps.
proof fn lemma_networks_kept(
    networks: Seq<Network>,
    surviving: Set<int>,
    action: Action,
    ids: Seq<Seq<char>>,
)
    requires
        distinct_ids(networks),
        forall|p: int|
            surviving.contains(p) <==> 0 <= p < networks.len() && keeps(
                action,
                ids,
                networks[p].spec_id(),
            ),
    ensures
        networks.filter(|x: Network| is_marked(networks, surviving, x)) == networks.filter(
            |n: Network| keeps(action, ids, n.id@),
        ),
{
    assert forall|i: int| 0 <= i < networks.len() implies is_marked(
        networks,
        surviving,
        #[trigger] networks[i],
    ) == keeps(action, ids, networks[i].id@) by {
        if is_marked(networks, surviving, networks[i]) {
            let p = choose|p: int|
                0 <= p < networks.len() && surviving.contains(p) && (#[trigger] networks[p]).spec_id()
                    == networks[i].spec_id();
            assert(p == i);
        }
        if keeps(action, ids, networks[i].id@) {
            assert(surviving.contains(i) && networks[i].spec_id() == networks[i].spec_id());
        }
    }
    lemma_filter_agree(
        networks,
        |x: Network| is_marked(networks, surviving, x),
        |n: Network| keeps(action, ids, n.id@),
    );
}

/// Keeping the entities at the used positions, those that refer to a kept
/// parent, keeps the entities that refer to an identifier of the filtered
/// parents.
proof fn lemma_children_kept<S: RefersTo<T>, T: Entity>(
    children: Seq<S>,
    parents: Seq<T>,
    parent_kept: spec_fn(T) -> bool,
    used: Set<int>,
)
    requires
        distinct_ids(children),
        forall|c: int|
            used.contains(c) <==> exists|p: int|
                #[trigger] refers(children, parents, c, p) && parent_kept(parents[p]),
    ensures
        children.filter(|x: S| is_marked(children, used, x)) == children.filter(
            |x: S| has_id(parents.filter(parent_kept), x.spec_target_id()),
        ),
{
    let kept_parents = parents.filter(parent_kept);
    assert forall|i: int| 0 <= i < children.len() implies is_marked(
        children,
        used,
        #[trigger] children[i],
    ) == has_id(kept_parents, children[i].spec_target_id()) by {
        lemma_filter_has_id(parents, parent_kept, children[i].spec_target_id());
        if is_marked(children, used, children[i]) {
            let c = choose|c: int|
                0 <= c < children.len() && used.contains(c) && (#[trigger] children[c]).spec_id()
                    == children[i].spec_id();
            assert(c == i);
            let p = choose|p: int|
                #[trigger] refers(children, parents, i, p) && parent_kept(parents[p]);
            assert(0 <= p < parents.len() && parent_kept(parents[p]) && parents[p].spec_id()
                == children[i].spec_target_id());
        }
        if has_id(kept_parents, children[i].spec_target_id()) {
            let p = choose|p: int|
                0 <= p < parents.len() && parent_kept(parents[p]) && (#[trigger] parents[p]).spec_id()
                    == children[i].spec_target_id();
            assert(parent_kept(parents[p]) && refers(children, parents, i, p));
            assert(used.contains(i) && children[i].spec_id() == children[i].spec_id());
        }
    }
    lemma_filter_agree(
        children,
        |x: S| is_marked(children, used, x),
        |x: S| has_id(kept_parents, x.spec_target_id()),
    );
}

/// What a filter leaves is consistent: every route that it keeps refers to a
/// network that it keeps, and every vehicle journey that it keeps to a route
/// that it keeps.
pub proof fn lemma_filtered_is_consistent(c: CollectionsView, action: Action, ids: Seq<Seq<char>>)
    ensures
        consistent(filtered(c, action, ids)),
        violation(filtered(c, action, ids)) is None,
{
    let kept = filtered(c, action, ids);
    let route_kept = |r: Route| has_id(kept.networks, r.network_id@);
    let journey_kept = |v: VehicleJourney| has_id(kept.routes, v.route_id@);
    lemma_filter_members(c.routes, route_kept);
    lemma_filter_members(c.vehicle_journeys, journey_kept);
    assert forall|i: int| 0 <= i < kept.routes.len() implies has_id(
        kept.networks,
        (#[trigger] kept.routes[i]).spec_target_id(),
    ) by {
        let j = choose|j: int|
            0 <= j < c.routes.len() && route_kept(c.routes[j]) && #[trigger] c.routes[j]
                == kept.routes[i];
    }
    assert forall|i: int| 0 <= i < kept.vehicle_journeys.len() implies has_id(
        kept.routes,
        (#[trigger] kept.vehicle_journeys[i]).spec_target_id(),
    ) by {
        let j = choose|j: int|
            0 <= j < c.vehicle_journeys.len() && journey_kept(c.vehicle_journeys[j])
                && #[trigger] c.vehicle_journeys[j] == kept.vehicle_journeys[i];
    }
}

/// A filter of collections in which every entity carries a non-empty
/// identifier reports no integrity violation: it gives a model, or else
/// reports an unknown identifier or an empty result.
pub proof fn lemma_filter_keeps_integrity(c: CollectionsView, action: Action, ids: Seq<Seq<char>>)
    requires
        forall|i: int| 0 <= i < c.networks.len() ==> named(#[trigger] c.networks[i]),
        forall|i: int| 0 <= i < c.routes.len() ==> named(#[trigger] c.routes[i]),
        forall|i: int| 0 <= i < c.vehicle_journeys.len() ==> named(#[trigger] c.vehicle_journeys[i]),
    ensures
        match filter_outcome(c, action, ids) {
            Ok(left) => left == filtered(c, action, ids),
            Err(e) => e is UnknownId || e is EmptyResult,
        },
{
    let kept = filtered(c, action, ids);
    lemma_filtered_is_consistent(c, action, ids);
    lemma_filter_members(c.networks, |n: Network| keeps(action, ids, n.id@));
    lemma_filter_members(c.routes, |r: Route| has_id(kept.networks, r.network_id@));
    lemma_filter_members(
        c.vehicle_journeys,
        |v: VehicleJourney| has_id(kept.routes, v.route_id@),
    );
    lemma_filter_all(kept.networks, |n: Network| named(n));
    lemma_filter_all(kept.routes, |r: Route| named(r));
    lemma_filter_all(kept.vehicle_journeys, |v: VehicleJourney| named(v));
}

/// Extracts the networks that carry the identifiers `network_ids` from the
/// model, or removes them, together with the routes and vehicle journeys
/// that belong to the networks that go. The model itself is left as it is;
/// the result is a model of its own.
///
/// An identifier that no network carries is refused; so is a filter that
/// leaves no vehicle journey. What is left is sanitized and validated anew.
pub fn filter(model: &Model, action: Action, network_ids: Vec<String>) -> (result: Result<
    Model,
    Error,
>)
    requires
        model.wf(),
    ensures
        match result {
            Ok(filtered_model) => {
                &&& filtered_model.wf()
                &&& filter_outcome(model@, action, network_ids.deep_view()) == Ok::<
                    CollectionsView,
                    ErrorView,
                >(filtered_model@)
            },
            Err(e) => filter_outcome(model@, action, network_ids.deep_view()) == Err::<
                CollectionsView,
                ErrorView,
            >(e@),
        },
{
    let current = model.collections();
    let ghost ids = network_ids.deep_view();
    let selected = match resolve(&current.networks, &network_ids) {
        Ok(selected) => selected,
        Err(e) => {
            return Err(e);
        },
    };
    let surviving = survivors(current.networks.len(), &selected, action);
    let routes_used = model.networks_to_routes().get_from_all(&surviving);
    let vehicle_journeys_used = model.networks_to_vehicle_journeys().get_from_all(&surviving);

    let mut collections = current.duplicate();
    retain_marked(&mut collections.networks, &current.networks, &surviving);
    retain_marked(&mut collections.routes, &current.routes, &routes_used);
    retain_marked(
        &mut collections.vehicle_journeys,
        &current.vehicle_journeys,
        &vehicle_journeys_used,
    );
    proof {
        let c = model@;
        let network_kept = |n: Network| keeps(action, ids, n.id@);
        let kept_networks = c.networks.filter(network_kept);
        let route_kept = |r: Route| has_id(kept_networks, r.network_id@);
        let kept_routes = c.routes.filter(route_kept);
        let to_routes = model.networks_to_routes();
        let to_journeys = model.routes_to_vehicle_journeys();
        let to_all = model.networks_to_vehicle_journeys();

        lemma_networks_kept(c.networks, surviving@, action, ids);

        assert forall|r: int| routes_used@.contains(r) <==> exists|n: int|
            #[trigger] refers(c.routes, c.networks, r, n) && network_kept(c.networks[n]) by {
            if routes_used@.contains(r) {
                let n = choose|n: int| surviving@.contains(n) && #[trigger] to_routes.relates(n, r);
                assert(network_kept(c.networks[n]) && refers(c.routes, c.networks, r, n));
            }
            if exists|n: int|
                #[trigger] refers(c.routes, c.networks, r, n) && network_kept(c.networks[n]) {
                let n = choose|n: int|
                    #[trigger] refers(c.routes, c.networks, r, n) && network_kept(c.networks[n]);
                assert(surviving@.contains(n) && to_routes.relates(n, r));
            }
        }
        lemma_children_kept(c.routes, c.networks, network_kept, routes_used@);
        lemma_filter_agree(
            c.routes,
            |x: Route| has_id(kept_networks, x.spec_target_id()),
            route_kept,
        );

        assert forall|r: int| 0 <= r < c.routes.len() implies (routes_used@.contains(r)
            <==> route_kept(#[trigger] c.routes[r])) by {
            lemma_filter_has_id(c.networks, network_kept, c.routes[r].network_id@);
            if routes_used@.contains(r) {
                let n = choose|n: int|
                    #[trigger] refers(c.routes, c.networks, r, n) && network_kept(c.networks[n]);
                assert(0 <= n < c.networks.len() && network_kept(c.networks[n])
                    && c.networks[n].spec_id() == c.routes[r].network_id@);
            }
            if route_kept(c.routes[r]) {
                let n = choose|n: int|
                    0 <= n < c.networks.len() && network_kept(c.networks[n]) && (
                    #[trigger] c.networks[n]).spec_id() == c.routes[r].network_id@;
                assert(network_kept(c.networks[n]) && refers(c.routes, c.networks, r, n));
            }
        }
        assert forall|v: int| vehicle_journeys_used@.contains(v) <==> exists|r: int|
            #[trigger] refers(c.vehicle_journeys, c.routes, v, r) && route_kept(c.routes[r]) by {
            if vehicle_journeys_used@.contains(v) {
                let n = choose|n: int| surviving@.contains(n) && #[trigger] to_all.relates(n, v);
                let r = choose|r: int| to_routes.relates(n, r) && #[trigger] to_journeys.relates(r, v);
                assert(routes_used@.contains(r));
                assert(route_kept(c.routes[r]) && refers(c.vehicle_journeys, c.routes, v, r));
            }
            if exists|r: int|
                #[trigger] refers(c.vehicle_journeys, c.routes, v, r) && route_kept(c.routes[r]) {
                let r = choose|r: int|
                    #[trigger] refers(c.vehicle_journeys, c.routes, v, r) && route_kept(c.routes[r]);
                assert(routes_used@.contains(r));
                let n = choose|n: int| surviving@.contains(n) && #[trigger] to_routes.relates(n, r);
                assert(to_routes.relates(n, r) && to_journeys.relates(r, v));
                assert(to_all.relates(n, v));
            }
        }
        lemma_children_kept(c.vehicle_journeys, c.routes, route_kept, vehicle_journeys_used@);
        lemma_filter_agree(
            c.vehicle_journeys,
            |x: VehicleJourney| has_id(kept_routes, x.spec_target_id()),
            |v: VehicleJourney| has_id(kept_routes, v.route_id@),
        );
        assert(collections@ == filtered(c, action, ids));
    }
    if collections.vehicle_journeys.is_empty() {
        return Err(Error::EmptyResult);
    }
    match collections.sanitize() {
        Ok(()) => {},
        Err(e) => {
            return Err(e);
        },
    }
    Model::new(collections)
}

} // verus!
