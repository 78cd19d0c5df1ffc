use transit_model::error::Error;
use transit_model::filter::{filter, Action};
use transit_model::model::{Collections, Model};
use transit_model::objects::{Network, Route, VehicleJourney};

fn model(networks: &[&str], routes: &[(&str, &str)], journeys: &[(&str, &str)]) -> Model {
    let mut c = Collections::default();
    for id in networks {
        c.networks.insert(Network { id: id.to_string(), name: String::new() }).ok().unwrap();
    }
    for (id, network) in routes {
        c.routes
            .insert(Route { id: id.to_string(), name: String::new(), network_id: network.to_string() })
            .ok()
            .unwrap();
    }
    for (id, route) in journeys {
        c.vehicle_journeys
            .insert(VehicleJourney { id: id.to_string(), route_id: route.to_string() })
            .ok()
            .unwrap();
    }
    Model::new(c).ok().unwrap()
}

fn two_networks() -> Model {
    model(&["N1", "N2"], &[("R1", "N1"), ("R2", "N2")], &[("V1", "R1"), ("V2", "R2")])
}

fn contents(m: &Model) -> (Vec<String>, Vec<String>, Vec<String>) {
    let c = m.collections();
    (
        c.networks.iter().into_iter().map(|(_, n)| n.id.clone()).collect(),
        c.routes.iter().into_iter().map(|(_, r)| r.id.clone()).collect(),
        c.vehicle_journeys.iter().into_iter().map(|(_, v)| v.id.clone()).collect(),
    )
}

fn strings(ids: &[&str]) -> Vec<String> {
    ids.iter().map(|s| s.to_string()).collect()
}

#[test]
fn extract_keeps_the_network_and_what_belongs_to_it() {
    let m = two_networks();
    let kept = filter(&m, Action::Extract, strings(&["N1"])).ok().unwrap();
    assert_eq!(contents(&kept), (strings(&["N1"]), strings(&["R1"]), strings(&["V1"])));
    let n1 = kept.collections().networks.get_idx("N1").unwrap();
    let journeys = kept.networks_to_vehicle_journeys().get_from(n1).to_vec();
    assert_eq!(journeys.len(), 1);
    assert_eq!(kept.collections().vehicle_journeys.get(journeys[0]).unwrap().id, "V1");
}

#[test]
fn remove_drops_the_network_and_what_belongs_to_it() {
    let m = two_networks();
    let kept = filter(&m, Action::Remove, strings(&["N1"])).ok().unwrap();
    assert_eq!(contents(&kept), (strings(&["N2"]), strings(&["R2"]), strings(&["V2"])));
}

#[test]
fn filter_leaves_the_given_model_as_it_was() {
    let m = two_networks();
    let before = contents(&m);
    let _ = filter(&m, Action::Extract, strings(&["N1"])).ok().unwrap();
    let _ = filter(&m, Action::Remove, strings(&["N1"])).ok().unwrap();
    assert_eq!(contents(&m), before);
    let n2 = m.collections().networks.get_idx("N2").unwrap();
    assert_eq!(m.networks_to_routes().get_from(n2).to_vec().len(), 1);
}

#[test]
fn unknown_identifier_is_refused_and_the_model_stays_usable() {
    let m = two_networks();
    let refused = filter(&m, Action::Extract, strings(&["N9"]));
    assert_eq!(refused.err(), Some(Error::UnknownId("N9".to_string())));
    assert_eq!(
        contents(&m),
        (strings(&["N1", "N2"]), strings(&["R1", "R2"]), strings(&["V1", "V2"]))
    );
    let n1 = m.collections().networks.get_idx("N1").unwrap();
    let journeys = m.networks_to_vehicle_journeys().get_from(n1).to_vec();
    assert_eq!(m.collections().vehicle_journeys.get(journeys[0]).unwrap().id, "V1");
    assert!(filter(&m, Action::Extract, strings(&["N1"])).is_ok());
}

#[test]
fn first_unknown_identifier_is_the_one_reported() {
    let m = two_networks();
    let refused = filter(&m, Action::Remove, strings(&["N1", "N8", "N2", "N9"]));
    assert_eq!(refused.err(), Some(Error::UnknownId("N8".to_string())));
}

#[test]
fn extracting_a_network_without_journeys_is_an_empty_result() {
    let m = model(&["N1", "N2"], &[("R1", "N1"), ("R2", "N2")], &[("V1", "R1")]);
    let refused = filter(&m, Action::Extract, strings(&["N2"]));
    assert_eq!(refused.err(), Some(Error::EmptyResult));
    assert_eq!(contents(&m), (strings(&["N1", "N2"]), strings(&["R1", "R2"]), strings(&["V1"])));
}

#[test]
fn removing_every_network_is_an_empty_result() {
    let m = two_networks();
    assert_eq!(
        filter(&m, Action::Remove, strings(&["N2", "N1"])).err(),
        Some(Error::EmptyResult)
    );
}

#[test]
fn extracting_nothing_is_an_empty_result_and_removing_nothing_keeps_all() {
    let m = two_networks();
    assert_eq!(filter(&m, Action::Extract, Vec::new()).err(), Some(Error::EmptyResult));
    let all = filter(&m, Action::Remove, Vec::new()).ok().unwrap();
    assert_eq!(contents(&all), contents(&m));
}

#[test]
fn repeated_identifiers_count_once() {
    let m = two_networks();
    let kept = filter(&m, Action::Extract, strings(&["N2", "N2", "N2"])).ok().unwrap();
    assert_eq!(contents(&kept), (strings(&["N2"]), strings(&["R2"]), strings(&["V2"])));
}

#[test]
fn filter_follows_routes_to_their_journeys() {
    let m = model(
        &["N1", "N2", "N3"],
        &[("R1", "N1"), ("R2", "N2"), ("R3", "N1"), ("R4", "N3"), ("R5", "N3")],
        &[("V1", "R4"), ("V2", "R1"), ("V3", "R2"), ("V4", "R3"), ("V5", "R1"), ("V6", "R5")],
    );
    let kept = filter(&m, Action::Extract, strings(&["N3", "N1"])).ok().unwrap();
    assert_eq!(
        contents(&kept),
        (
            strings(&["N1", "N3"]),
            strings(&["R1", "R3", "R4", "R5"]),
            strings(&["V1", "V2", "V4", "V5", "V6"])
        )
    );
    let dropped = filter(&m, Action::Remove, strings(&["N3", "N1"])).ok().unwrap();
    assert_eq!(contents(&dropped), (strings(&["N2"]), strings(&["R2"]), strings(&["V3"])));
    let n3 = kept.collections().networks.get_idx("N3").unwrap();
    let of_n3: Vec<String> = kept
        .networks_to_vehicle_journeys()
        .get_from(n3)
        .to_vec()
        .iter()
        .map(|idx| kept.collections().vehicle_journeys.get(*idx).unwrap().id.clone())
        .collect();
    assert_eq!(of_n3, strings(&["V1", "V6"]));
}

#[test]
fn routes_without_journeys_stay_with_their_network() {
    let m = model(&["N1", "N2"], &[("R1", "N1"), ("R2", "N1"), ("R3", "N2")], &[("V1", "R1")]);
    let kept = filter(&m, Action::Extract, strings(&["N1"])).ok().unwrap();
    assert_eq!(contents(&kept), (strings(&["N1"]), strings(&["R1", "R2"]), strings(&["V1"])));
}

#[test]
fn filtered_model_can_be_filtered_again() {
    let m = model(
        &["N1", "N2", "N3"],
        &[("R1", "N1"), ("R2", "N2"), ("R3", "N3")],
        &[("V1", "R1"), ("V2", "R2"), ("V3", "R3")],
    );
    let first = filter(&m, Action::Remove, strings(&["N1"])).ok().unwrap();
    let second = filter(&first, Action::Remove, strings(&["N2"])).ok().unwrap();
    assert_eq!(contents(&second), (strings(&["N3"]), strings(&["R3"]), strings(&["V3"])));
    assert_eq!(
        filter(&second, Action::Extract, strings(&["N1"])).err(),
        Some(Error::UnknownId("N1".to_string()))
    );
}

#[test]
fn nameless_entities_are_dropped_before_validation() {
    let m = model(
        &["N1", "N2"],
        &[("R1", "N1"), ("R2", "N2")],
        &[("V1", "R1"), ("", "R1"), ("V2", "R2")],
    );
    let kept = filter(&m, Action::Extract, strings(&["N1"])).ok().unwrap();
    assert_eq!(contents(&kept), (strings(&["N1"]), strings(&["R1"]), strings(&["V1"])));
}

#[test]
fn dropping_a_nameless_network_leaves_its_routes_dangling() {
    let m = model(
        &["", "N1"],
        &[("R0", ""), ("R1", "N1")],
        &[("V1", "R1"), ("V0", "R0")],
    );
    let refused = filter(&m, Action::Remove, strings(&["N1"]));
    assert_eq!(refused.err(), Some(Error::IntegrityViolation("".to_string())));
}

#[test]
fn only_nameless_journeys_left_makes_a_model_without_journeys() {
    let m = model(&["N1", "N2"], &[("R1", "N1"), ("R2", "N2")], &[("", "R1"), ("V2", "R2")]);
    let kept = filter(&m, Action::Extract, strings(&["N1"])).ok().unwrap();
    assert_eq!(contents(&kept), (strings(&["N1"]), strings(&["R1"]), Vec::<String>::new()));
}
