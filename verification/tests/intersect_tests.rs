use follow_graph::identity::Identity;
use follow_graph::map_intersect::intersection_map;
use follow_graph::map_intersect::IdMap;

fn id(n: u64) -> Identity {
    Identity::from_words(0, 0, 0, n)
}

#[test]
fn id_map_insert_get_remove() {
    let mut m: IdMap<u64> = IdMap::new();
    assert_eq!(m.len(), 0);
    m.insert(id(1), 10);
    m.insert(id(2), 20);
    m.insert(id(1), 11);
    assert_eq!(m.len(), 2);
    assert!(m.contains_key(&id(1)));
    assert_eq!(m.get(&id(1)), Some(&11));
    assert_eq!(m.get(&id(2)), Some(&20));
    assert_eq!(m.get(&id(3)), None);
    assert_eq!(m.remove(&id(1)), Some(11));
    assert_eq!(m.remove(&id(1)), None);
    assert_eq!(m.len(), 1);
}

#[test]
fn intersection_exact_key_set() {
    let mut a: IdMap<u64> = IdMap::new();
    a.insert(id(1), 100);
    a.insert(id(2), 200);
    a.insert(id(3), 300);
    let mut b: IdMap<u64> = IdMap::new();
    b.insert(id(2), 2000);
    b.insert(id(3), 3000);
    b.insert(id(4), 4000);

    let mut inter = intersection_map(&a, &b);
    let mut seen: Vec<(Identity, u64, u64)> = Vec::new();
    while let Some(item) = inter.next() {
        seen.push(item);
    }
    // exactly the shared keys, each once, values paired (from first, from second)
    assert_eq!(seen.len(), 2);
    assert!(seen.contains(&(id(2), 200, 2000)));
    assert!(seen.contains(&(id(3), 300, 3000)));
}

#[test]
fn intersection_pairs_values_by_argument_order() {
    // the first argument is the larger mapping, so the second is
    // iterated internally — the pairing order must not change
    let mut big: IdMap<u64> = IdMap::new();
    big.insert(id(1), 1);
    big.insert(id(2), 2);
    big.insert(id(3), 3);
    let mut small: IdMap<u64> = IdMap::new();
    small.insert(id(2), 22);

    let mut inter = intersection_map(&big, &small);
    assert_eq!(inter.next(), Some((id(2), 2, 22)));
    assert_eq!(inter.next(), None);
}

#[test]
fn intersection_of_disjoint_maps_is_empty() {
    let mut a: IdMap<u64> = IdMap::new();
    a.insert(id(1), 1);
    let mut b: IdMap<u64> = IdMap::new();
    b.insert(id(2), 2);
    let mut inter = intersection_map(&a, &b);
    assert_eq!(inter.next(), None);
}

#[test]
fn collect_map_gathers_all_triples() {
    let mut a: IdMap<u64> = IdMap::new();
    a.insert(id(5), 50);
    a.insert(id(6), 60);
    let mut b: IdMap<u64> = IdMap::new();
    b.insert(id(6), 600);
    b.insert(id(5), 500);

    let collected = intersection_map(&a, &b).collect_map();
    assert_eq!(collected.len(), 2);
    assert_eq!(collected.get(&id(5)), Some(&(50, 500)));
    assert_eq!(collected.get(&id(6)), Some(&(60, 600)));
}
