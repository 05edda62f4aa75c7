use transit_model::apply_rules::reference_index::ReferenceIndex;
use transit_model::collection::{is_listed, Arena};
use transit_model::objects::{Identified, Line, Network, VehicleJourney, PhysicalMode};

fn network(id: &str) -> Network {
    Network { id: id.to_string(), name: format!("name of {}", id) }
}

fn ids(arena: &Arena<Network>) -> Vec<String> {
    arena.rows().iter().map(|row| row.id().clone()).collect()
}

#[test]
fn arena_keeps_rows_in_order() {
    let arena = Arena::from_rows(vec![network("b"), network("a"), network("c")]).unwrap();
    assert_eq!(arena.len(), 3);
    assert_eq!(ids(&arena), vec!["b", "a", "c"]);
    assert_eq!(arena.get(1).name, "name of a");
}

#[test]
fn arena_refuses_a_repeated_identifier() {
    let made = Arena::from_rows(vec![network("a"), network("b"), network("a"), network("b")]);
    assert_eq!(made.err(), Some("a".to_string()));
}

#[test]
fn empty_arena_holds_nothing() {
    let arena: Arena<Network> = Arena::new();
    assert_eq!(arena.len(), 0);
    assert!(!arena.contains_id("a"));
    assert!(!arena.contains_id(""));
}

#[test]
fn contains_id_tells_members_from_others() {
    let arena = Arena::from_rows(vec![network("a"), network("b")]).unwrap();
    assert!(arena.contains_id("a"));
    assert!(arena.contains_id("b"));
    assert!(!arena.contains_id("c"));
    assert!(!arena.contains_id("A"));
}

#[test]
fn push_appends_a_new_identifier() {
    let mut arena = Arena::from_rows(vec![network("a")]).unwrap();
    assert!(arena.push(network("b")).is_none());
    assert_eq!(ids(&arena), vec!["a", "b"]);
    assert!(arena.contains_id("b"));
}

#[test]
fn push_hands_back_a_taken_identifier() {
    let mut arena = Arena::from_rows(vec![network("a"), network("b")]).unwrap();
    let back = arena.push(Network { id: "a".to_string(), name: "other".to_string() });
    assert_eq!(back.map(|row| row.name), Some("other".to_string()));
    assert_eq!(ids(&arena), vec!["a", "b"]);
    assert_eq!(arena.get(0).name, "name of a");
}

#[test]
fn remove_ids_keeps_the_order_of_the_rest() {
    let mut arena =
        Arena::from_rows(vec![network("a"), network("b"), network("c"), network("d")]).unwrap();
    arena.remove_ids(&vec!["c".to_string(), "a".to_string(), "x".to_string()]);
    assert_eq!(ids(&arena), vec!["b", "d"]);
    assert!(!arena.contains_id("a"));
    assert!(!arena.contains_id("c"));
    assert!(arena.contains_id("b"));
    assert!(arena.contains_id("d"));
    assert!(arena.push(network("a")).is_none());
    assert_eq!(ids(&arena), vec!["b", "d", "a"]);
}

#[test]
fn remove_ids_of_nothing_changes_nothing() {
    let mut arena = Arena::from_rows(vec![network("a"), network("b")]).unwrap();
    arena.remove_ids(&Vec::new());
    assert_eq!(ids(&arena), vec!["a", "b"]);
}

#[test]
fn replace_puts_a_row_in_place() {
    let mut arena = Arena::from_rows(vec![network("a"), network("b")]).unwrap();
    arena.replace(1, Network { id: "b".to_string(), name: "renamed".to_string() });
    assert_eq!(ids(&arena), vec!["a", "b"]);
    assert_eq!(arena.get(1).name, "renamed");
    assert!(arena.contains_id("b"));
}

#[test]
fn is_listed_finds_members() {
    let listed = vec!["a".to_string(), "b".to_string()];
    assert!(is_listed(&listed, &"b".to_string()));
    assert!(!is_listed(&listed, &"c".to_string()));
    assert!(!is_listed(&Vec::new(), &"a".to_string()));
}

#[test]
fn reference_index_lists_the_referrers() {
    let networks = Arena::from_rows(vec![network("N1"), network("N2"), network("N3")]).unwrap();
    let line = |id: &str, network_id: &str| Line {
        id: id.to_string(),
        network_id: network_id.to_string(),
        commercial_mode_id: "Bus".to_string(),
    };
    let lines = Arena::from_rows(vec![
        line("L1", "N3"),
        line("L2", "N1"),
        line("L3", "N3"),
        line("L4", "N9"),
    ])
    .unwrap();
    let index = ReferenceIndex::build::<Network, Line>(&networks, &lines);
    let mut of_n3 = index.get(&"N3".to_string()).unwrap().clone();
    of_n3.sort();
    assert_eq!(of_n3, vec![0, 2]);
    assert_eq!(index.get(&"N1".to_string()), Some(&vec![1]));
    assert_eq!(index.get(&"N2".to_string()), None);
    assert_eq!(index.get(&"N9".to_string()), None);
}

#[test]
fn reference_index_of_vehicle_journeys() {
    let modes = Arena::from_rows(vec![PhysicalMode { id: "Bus".to_string(), name: "Bus".to_string() }])
        .unwrap();
    let journeys = Arena::from_rows(vec![
        VehicleJourney { id: "VJ1".to_string(), physical_mode_id: "Bus".to_string() },
        VehicleJourney { id: "VJ2".to_string(), physical_mode_id: "Tram".to_string() },
    ])
    .unwrap();
    let index = ReferenceIndex::build::<PhysicalMode, VehicleJourney>(&modes, &journeys);
    assert_eq!(index.get(&"Bus".to_string()), Some(&vec![0]));
    assert_eq!(index.get(&"Tram".to_string()), None);
}
