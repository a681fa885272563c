use mrv_executor::counting::sort_ascending;
use mrv_executor::lifecycle::sort_by_round;
use mrv_executor::ordered::{OrderedMap, OrderedSet};
use mrv_executor::scc::find_scc;
use mrv_executor::types::{Certificate, Digest, PublicKey};

#[test]
fn map_keeps_its_entries_in_order() {
    let mut map = OrderedMap::new();
    assert_eq!(map.insert(5u64, "five"), None);
    assert_eq!(map.insert(1, "one"), None);
    assert_eq!(map.insert(3, "three"), None);
    assert_eq!(map.insert(3, "drei"), Some("three"));
    assert_eq!(map.len(), 3);
    assert_eq!((map.key_at(0), map.key_at(1), map.key_at(2)), (1, 3, 5));
    assert_eq!(*map.value_at(1), "drei");
    assert_eq!(map.get(&5), Some(&"five"));
    assert_eq!(map.get(&4), None);
    *map.get_mut(&5).unwrap() = "cinq";
    assert!(map.get_mut(&4).is_none());
    assert_eq!(map.remove(&5), Some("cinq"));
    assert_eq!(map.remove(&5), None);
    assert!(!map.contains_key(&5));
}

#[test]
fn map_retains_the_given_keys() {
    let mut map = OrderedMap::new();
    for key in 0..10u64 {
        map.insert(key, key * key);
    }
    let mut keep = OrderedSet::new();
    for key in [3u64, 7, 12, 0] {
        keep.insert(key);
    }
    map.retain(&keep);
    assert_eq!(map.len(), 3);
    assert_eq!((map.key_at(0), map.key_at(1), map.key_at(2)), (0, 3, 7));
    assert_eq!(*map.value_at(2), 49);
    map.retain(&OrderedSet::new());
    assert_eq!(map.len(), 0);
}

#[test]
fn set_holds_each_member_once() {
    let mut set = OrderedSet::new();
    assert!(set.insert(2usize));
    assert!(set.insert(1));
    assert!(!set.insert(2));
    assert_eq!(set.len(), 2);
    assert_eq!((set.at(0), set.at(1)), (1, 2));
    assert!(set.contains(&1));
    assert!(set.remove(&1));
    assert!(!set.remove(&1));
    assert!(!set.contains(&1));
}

#[test]
fn displacements_are_sorted() {
    assert_eq!(sort_ascending(&vec![3, 1, 2, 1]), vec![1, 1, 2, 3]);
    assert!(sort_ascending(&vec![]).is_empty());
}

#[test]
fn certificates_of_one_round_keep_their_order() {
    let certificate = |id: u8, round: u64| Certificate {
        digest: Digest([id; 32]),
        round,
        origin: PublicKey([id; 32]),
        parents: vec![],
    };
    let sorted = sort_by_round(vec![
        certificate(1, 3),
        certificate(2, 1),
        certificate(3, 3),
        certificate(4, 2),
        certificate(5, 1),
    ]);
    let ids: Vec<u8> = sorted.iter().map(|c| c.digest.0[0]).collect();
    assert_eq!(ids, vec![2, 5, 4, 1, 3]);
}

#[test]
fn components_of_two_cycles_and_a_bridge() {
    let mut graph = OrderedMap::new();
    for node in 0..5usize {
        graph.insert(node, OrderedSet::new());
    }
    for (from, to) in [(0usize, 1usize), (1, 0), (1, 2), (2, 3), (3, 2), (4, 4)] {
        graph.get_mut(&from).unwrap().insert(to);
    }
    let mut components = find_scc(&vec![0, 1, 2, 3, 4], &graph);
    for component in &mut components {
        component.sort();
    }
    // The bridge leads forward.
    let place = |component: &Vec<usize>| components.iter().position(|c| c == component);
    assert!(place(&vec![0, 1]) < place(&vec![2, 3]));
    components.sort();
    assert_eq!(components, vec![vec![0, 1], vec![2, 3], vec![4]]);
}
