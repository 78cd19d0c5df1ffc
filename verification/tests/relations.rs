use transit_model::collection::CollectionWithId;
use transit_model::error::Error;
use transit_model::idx_set::IdxSet;
use transit_model::objects::{Network, Route, VehicleJourney};
use transit_model::relations::Relation;

fn networks(ids: &[&str]) -> CollectionWithId<Network> {
    CollectionWithId::new(
        ids.iter().map(|id| Network { id: id.to_string(), name: String::new() }).collect(),
    )
    .ok()
    .unwrap()
}

fn routes(pairs: &[(&str, &str)]) -> CollectionWithId<Route> {
    CollectionWithId::new(
        pairs
            .iter()
            .map(|(id, network)| Route {
                id: id.to_string(),
                name: String::new(),
                network_id: network.to_string(),
            })
            .collect(),
    )
    .ok()
    .unwrap()
}

fn journeys(pairs: &[(&str, &str)]) -> CollectionWithId<VehicleJourney> {
    CollectionWithId::new(
        pairs
            .iter()
            .map(|(id, route)| VehicleJourney { id: id.to_string(), route_id: route.to_string() })
            .collect(),
    )
    .ok()
    .unwrap()
}

fn positions<T>(set: &IdxSet<T>) -> Vec<usize> {
    set.to_vec().iter().map(|idx| idx.position()).collect()
}

#[test]
fn build_relates_each_source_to_its_target() {
    let n = networks(&["N1", "N2", "N3"]);
    let r = routes(&[("R1", "N2"), ("R2", "N1"), ("R3", "N2")]);
    let relation = Relation::build(&r, &n).ok().unwrap();
    assert_eq!(positions(&relation.get_from(r.get_idx("R1").unwrap())), vec![1]);
    assert_eq!(positions(&relation.get_from(r.get_idx("R2").unwrap())), vec![0]);
    assert_eq!(positions(&relation.get_from(r.get_idx("R3").unwrap())), vec![1]);
    let found = relation.get_from(r.get_idx("R1").unwrap());
    assert_eq!(found.generation(), n.generation());
    assert!(found.contains(n.get_idx("N2").unwrap()));
}

#[test]
fn build_fails_at_the_first_reference_without_a_target() {
    let n = networks(&["N1"]);
    let r = routes(&[("R1", "N1"), ("R2", "N7"), ("R3", "N8"), ("R4", "N1")]);
    let built = Relation::build(&r, &n);
    assert_eq!(built.err(), Some(Error::IntegrityViolation("N7".to_string())));
}

#[test]
fn build_of_no_sources_succeeds() {
    let n = networks(&["N1"]);
    let r = routes(&[]);
    let relation = Relation::build(&r, &n).ok().unwrap().inverse();
    assert!(relation.get_from(n.get_idx("N1").unwrap()).is_empty());
}

#[test]
fn inverse_gathers_the_sources_of_each_target() {
    let n = networks(&["N1", "N2", "N3"]);
    let r = routes(&[("R1", "N2"), ("R2", "N1"), ("R3", "N2")]);
    let inverse = Relation::build(&r, &n).ok().unwrap().inverse();
    assert_eq!(positions(&inverse.get_from(n.get_idx("N1").unwrap())), vec![1]);
    assert_eq!(positions(&inverse.get_from(n.get_idx("N2").unwrap())), vec![0, 2]);
    assert!(inverse.get_from(n.get_idx("N3").unwrap()).is_empty());
    let back = inverse.inverse();
    assert_eq!(positions(&back.get_from(r.get_idx("R3").unwrap())), vec![1]);
}

#[test]
fn get_from_a_stale_or_foreign_handle_is_empty() {
    let mut n = networks(&["N1", "N2"]);
    let r = routes(&[("R1", "N1"), ("R2", "N2")]);
    let inverse = Relation::build(&r, &n).ok().unwrap().inverse();
    let first = n.get_idx("N1").unwrap();
    assert_eq!(positions(&inverse.get_from(first)), vec![0]);
    n.retain(|_: &Network| true);
    let renewed = n.get_idx("N1").unwrap();
    assert!(inverse.get_from(renewed).is_empty());
    let mut longer = networks(&["N1", "N2"]);
    let beyond = longer.insert(Network { id: "N3".to_string(), name: String::new() }).ok().unwrap();
    assert!(inverse.get_from(beyond).is_empty());
}

#[test]
fn get_from_all_is_the_union_over_the_sources() {
    let n = networks(&["N1", "N2", "N3"]);
    let r = routes(&[("R1", "N2"), ("R2", "N1"), ("R3", "N2"), ("R4", "N3")]);
    let inverse = Relation::build(&r, &n).ok().unwrap().inverse();
    let mut chosen = IdxSet::new(n.generation());
    chosen.insert(n.get_idx("N3").unwrap());
    chosen.insert(n.get_idx("N2").unwrap());
    assert_eq!(positions(&inverse.get_from_all(&chosen)), vec![0, 2, 3]);
    let none: IdxSet<Network> = IdxSet::new(n.generation());
    assert!(inverse.get_from_all(&none).is_empty());
    let mut other_generation = IdxSet::new(5);
    let mut later = n.duplicate();
    for _ in 0..5 {
        later.retain(|_: &Network| true);
    }
    other_generation.insert(later.get_idx("N2").unwrap());
    assert!(!other_generation.is_empty());
    assert!(inverse.get_from_all(&other_generation).is_empty());
}

#[test]
fn compose_chains_two_relations() {
    let n = networks(&["N1", "N2", "N3"]);
    let r = routes(&[("R1", "N1"), ("R2", "N2"), ("R3", "N1"), ("R4", "N3")]);
    let v = journeys(&[("V1", "R3"), ("V2", "R2"), ("V3", "R1"), ("V4", "R1"), ("V5", "R2")]);
    let to_routes = Relation::build(&r, &n).ok().unwrap().inverse();
    let to_journeys = Relation::build(&v, &r).ok().unwrap().inverse();
    let chained = to_routes.compose(&to_journeys);
    assert_eq!(positions(&chained.get_from(n.get_idx("N1").unwrap())), vec![0, 2, 3]);
    assert_eq!(positions(&chained.get_from(n.get_idx("N2").unwrap())), vec![1, 4]);
    assert!(chained.get_from(n.get_idx("N3").unwrap()).is_empty());
    let upward = chained.inverse();
    assert_eq!(positions(&upward.get_from(v.get_idx("V4").unwrap())), vec![0]);
    assert_eq!(positions(&upward.get_from(v.get_idx("V5").unwrap())), vec![1]);
}

#[test]
fn compose_agrees_with_chaining_the_other_way_round() {
    let n = networks(&["N1", "N2"]);
    let r = routes(&[("R1", "N2"), ("R2", "N2"), ("R3", "N1")]);
    let v = journeys(&[("V1", "R1"), ("V2", "R3"), ("V3", "R2")]);
    let down = Relation::build(&r, &n)
        .ok()
        .unwrap()
        .inverse()
        .compose(&Relation::build(&v, &r).ok().unwrap().inverse());
    let up = Relation::build(&v, &r).ok().unwrap().compose(&Relation::build(&r, &n).ok().unwrap());
    for (journey, network) in [("V1", "N2"), ("V2", "N1"), ("V3", "N2")] {
        let vi = v.get_idx(journey).unwrap();
        let ni = n.get_idx(network).unwrap();
        assert_eq!(positions(&up.get_from(vi)), vec![ni.position()]);
        assert!(down.get_from(ni).contains(vi));
    }
}

#[test]
fn compose_over_different_generations_relates_nothing() {
    let n = networks(&["N1"]);
    let mut r = routes(&[("R1", "N1")]);
    let v = journeys(&[("V1", "R1")]);
    let to_routes = Relation::build(&r, &n).ok().unwrap().inverse();
    r.retain(|_: &Route| true);
    let to_journeys = Relation::build(&v, &r).ok().unwrap().inverse();
    let chained = to_routes.compose(&to_journeys);
    assert!(chained.get_from(n.get_idx("N1").unwrap()).is_empty());
    assert!(chained.inverse().get_from(v.get_idx("V1").unwrap()).is_empty());
}
