use transit_model::collection::CollectionWithId;
use transit_model::idx_set::IdxSet;
use transit_model::objects::Network;

fn networks(ids: &[&str]) -> CollectionWithId<Network> {
    let mut c = CollectionWithId::default();
    for id in ids {
        c.insert(Network { id: id.to_string(), name: String::new() }).ok().unwrap();
    }
    c
}

#[test]
fn new_set_is_empty() {
    let set: IdxSet<Network> = IdxSet::new(7);
    assert!(set.is_empty());
    assert_eq!(set.generation(), 7);
    assert!(set.to_vec().is_empty());
}

#[test]
fn inserted_handles_are_members_in_increasing_order() {
    let c = networks(&["A", "B", "C", "D"]);
    let mut set = IdxSet::new(c.generation());
    assert!(set.insert(c.get_idx("C").unwrap()));
    assert!(set.insert(c.get_idx("A").unwrap()));
    assert!(set.insert(c.get_idx("D").unwrap()));
    assert!(set.insert(c.get_idx("C").unwrap()));
    assert!(!set.is_empty());
    assert!(set.contains(c.get_idx("A").unwrap()));
    assert!(!set.contains(c.get_idx("B").unwrap()));
    assert!(set.contains(c.get_idx("C").unwrap()));
    assert!(set.contains(c.get_idx("D").unwrap()));
    let positions: Vec<usize> = set.to_vec().iter().map(|idx| idx.position()).collect();
    assert_eq!(positions, vec![0, 2, 3]);
}

#[test]
fn handle_of_another_generation_is_not_accepted() {
    let mut c = networks(&["A", "B"]);
    let stale = c.get_idx("A").unwrap();
    c.retain(|_: &Network| true);
    let mut set = IdxSet::new(c.generation());
    assert!(!set.insert(stale));
    assert!(set.is_empty());
    assert!(set.insert(c.get_idx("A").unwrap()));
    assert!(!set.contains(stale));
    assert!(set.contains(c.get_idx("A").unwrap()));
}

#[test]
fn union_holds_the_handles_of_both() {
    let c = networks(&["A", "B", "C", "D", "E"]);
    let mut left = IdxSet::new(0);
    let mut right = IdxSet::new(0);
    for id in ["A", "C", "E"] {
        left.insert(c.get_idx(id).unwrap());
    }
    for id in ["B", "C"] {
        right.insert(c.get_idx(id).unwrap());
    }
    let both = left.union(&right);
    let positions: Vec<usize> = both.to_vec().iter().map(|idx| idx.position()).collect();
    assert_eq!(positions, vec![0, 1, 2, 4]);
    assert_eq!(both.generation(), 0);
    let same: Vec<usize> = right.union(&left).to_vec().iter().map(|idx| idx.position()).collect();
    assert_eq!(same, positions);
}

#[test]
fn union_with_a_set_of_another_generation_adds_nothing() {
    let c = networks(&["A", "B"]);
    let mut left = IdxSet::new(0);
    left.insert(c.get_idx("A").unwrap());
    let mut later = c.duplicate();
    later.retain(|_: &Network| true);
    let mut right = IdxSet::new(1);
    right.insert(later.get_idx("B").unwrap());
    let both = left.union(&right);
    let positions: Vec<usize> = both.to_vec().iter().map(|idx| idx.position()).collect();
    assert_eq!(positions, vec![0]);
    assert_eq!(both.generation(), 0);
}

#[test]
fn len_counts_each_handle_once() {
    let c = networks(&["A", "B", "C"]);
    let mut set = IdxSet::new(c.generation());
    assert_eq!(set.len(), 0);
    set.insert(c.get_idx("B").unwrap());
    set.insert(c.get_idx("A").unwrap());
    set.insert(c.get_idx("B").unwrap());
    assert_eq!(set.len(), 2);
    let mut other = IdxSet::new(c.generation());
    other.insert(c.get_idx("C").unwrap());
    other.insert(c.get_idx("A").unwrap());
    assert_eq!(set.union(&other).len(), 3);
}
