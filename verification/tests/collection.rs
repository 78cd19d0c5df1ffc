use transit_model::collection::{CollectionWithId, Idx};
use transit_model::error::Error;
use transit_model::objects::{Entity, Network};

fn network(id: &str, name: &str) -> Network {
    Network { id: id.to_string(), name: name.to_string() }
}

fn three() -> CollectionWithId<Network> {
    CollectionWithId::new(vec![network("N1", "one"), network("N2", "two"), network("N3", "three")])
        .ok()
        .unwrap()
}

#[test]
fn default_collection_is_empty() {
    let c: CollectionWithId<Network> = CollectionWithId::default();
    assert_eq!(c.len(), 0);
    assert!(c.is_empty());
    assert_eq!(c.generation(), 0);
    assert!(c.get_idx("N1").is_none());
    assert!(c.iter().is_empty());
}

#[test]
fn new_keeps_the_given_order() {
    let c = three();
    assert_eq!(c.len(), 3);
    assert!(!c.is_empty());
    let ids: Vec<String> = c.iter().into_iter().map(|(_, n)| n.id.clone()).collect();
    assert_eq!(ids, vec!["N1".to_string(), "N2".to_string(), "N3".to_string()]);
}

#[test]
fn new_refuses_the_first_repeated_identifier() {
    let made = CollectionWithId::new(vec![
        network("A", "1"),
        network("B", "2"),
        network("C", "3"),
        network("B", "4"),
        network("A", "5"),
    ]);
    assert_eq!(made.err(), Some(Error::DuplicateId("B".to_string())));
}

#[test]
fn inserted_entity_is_found_by_identifier_and_by_handle() {
    let mut c = three();
    let e = network("N4", "four");
    let idx = c.insert(e.clone()).ok().unwrap();
    assert_eq!(idx.position(), 3);
    assert_eq!(idx.generation(), c.generation());
    let found = c.get_idx("N4").unwrap();
    assert_eq!(found, idx);
    assert_eq!(c.get(found), Some(&e));
    assert_eq!(c.len(), 4);
}

#[test]
fn second_insert_of_an_identifier_is_refused_and_changes_nothing() {
    let mut c = three();
    let first = network("N4", "four");
    c.insert(first.clone()).ok().unwrap();
    let refused = c.insert(network("N4", "another"));
    assert_eq!(refused.err(), Some(Error::DuplicateId("N4".to_string())));
    assert_eq!(c.len(), 4);
    assert_eq!(c.generation(), 0);
    let idx = c.get_idx("N4").unwrap();
    assert_eq!(c.get(idx), Some(&first));
    let names: Vec<String> = c.iter().into_iter().map(|(_, n)| n.name.clone()).collect();
    assert_eq!(names, vec!["one", "two", "three", "four"]);
}

#[test]
fn get_idx_of_an_absent_identifier_is_none() {
    let c = three();
    assert!(c.get_idx("N9").is_none());
    assert!(c.get_idx("").is_none());
    assert!(c.get_idx("n1").is_none());
}

#[test]
fn get_resolves_each_position_and_nothing_beyond() {
    let c = three();
    let pairs = c.iter();
    assert_eq!(pairs.len(), 3);
    for (k, (idx, entity)) in pairs.iter().enumerate() {
        assert_eq!(idx.position(), k);
        assert_eq!(idx.generation(), 0);
        assert_eq!(c.get(*idx), Some(*entity));
    }
    let mut other = three();
    let past_the_end: Idx<Network> = other.insert(network("N4", "four")).ok().unwrap();
    assert_eq!(past_the_end.position(), 3);
    assert_eq!(c.get(past_the_end), None);
}

#[test]
fn retain_keeps_the_matching_entities_in_order() {
    let mut c = CollectionWithId::new(vec![
        network("N1", "keep"),
        network("N2", "drop"),
        network("N3", "keep"),
        network("N4", "drop"),
        network("N5", "keep"),
    ])
    .ok()
    .unwrap();
    c.retain(|n: &Network| n.name == "keep");
    let ids: Vec<String> = c.iter().into_iter().map(|(_, n)| n.id.clone()).collect();
    assert_eq!(ids, vec!["N1", "N3", "N5"]);
    assert_eq!(c.generation(), 1);
    assert_eq!(c.get_idx("N3").unwrap().position(), 1);
    assert_eq!(c.get_idx("N5").unwrap().position(), 2);
    assert!(c.get_idx("N2").is_none());
    assert!(c.get_idx("N4").is_none());
}

#[test]
fn retain_makes_every_earlier_handle_stale() {
    let mut c = three();
    let old_first = c.get_idx("N1").unwrap();
    let old_second = c.get_idx("N2").unwrap();
    let old_third = c.get_idx("N3").unwrap();
    c.retain(|n: &Network| n.id != "N1");
    // Position 0 now holds N2, but the handle that named N1 resolves to nothing.
    assert_eq!(c.get(old_first), None);
    assert_eq!(c.get(old_second), None);
    assert_eq!(c.get(old_third), None);
    assert!(c.get_idx("N1").is_none());
    let second = c.get_idx("N2").unwrap();
    assert_eq!(second.position(), 0);
    assert_ne!(second, old_first);
    assert_eq!(c.get(second), Some(&network("N2", "two")));
    let third = c.get_idx("N3").unwrap();
    assert_eq!(c.get(third), Some(&network("N3", "three")));
}

#[test]
fn retain_that_keeps_everything_still_starts_a_generation() {
    let mut c = three();
    let before = c.get_idx("N2").unwrap();
    c.retain(|_: &Network| true);
    assert_eq!(c.len(), 3);
    assert_eq!(c.generation(), 1);
    assert_eq!(c.get(before), None);
    assert_eq!(c.get_idx("N2").unwrap().position(), before.position());
}

#[test]
fn retain_that_keeps_nothing_empties_the_collection() {
    let mut c = three();
    c.retain(|_: &Network| false);
    assert!(c.is_empty());
    assert!(c.get_idx("N1").is_none());
    assert!(c.insert(network("N1", "again")).is_ok());
}

#[test]
fn insert_after_retain_issues_handles_of_the_new_generation() {
    let mut c = three();
    c.retain(|n: &Network| n.id == "N3");
    let idx = c.insert(network("N1", "back")).ok().unwrap();
    assert_eq!(idx.position(), 1);
    assert_eq!(idx.generation(), 1);
    assert_eq!(c.get(idx).map(|n| n.id()), Some("N1"));
}

#[test]
fn duplicate_is_a_collection_of_its_own() {
    let mut c = three();
    c.retain(|n: &Network| n.id != "N2");
    let copy = c.duplicate();
    assert_eq!(copy.generation(), 0);
    assert_eq!(c.generation(), 1);
    assert_eq!(copy.into_vec(), vec![network("N1", "one"), network("N3", "three")]);
    assert_eq!(c.len(), 2);
}

#[test]
fn into_vec_gives_the_entities_back() {
    let c = three();
    assert_eq!(
        c.into_vec(),
        vec![network("N1", "one"), network("N2", "two"), network("N3", "three")]
    );
}

#[test]
fn handles_compare_by_position_and_generation() {
    let mut c = three();
    let a = c.get_idx("N1").unwrap();
    let b = c.get_idx("N2").unwrap();
    assert_eq!(a, c.get_idx("N1").unwrap());
    assert_ne!(a, b);
    assert!(a < b);
    let copy = a;
    assert_eq!(copy, a);
    c.retain(|_: &Network| true);
    assert_ne!(c.get_idx("N1").unwrap(), a);
}
