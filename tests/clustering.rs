use rackmap::cluster::{generate_racks, ClusterError, NeighborSet};

fn names(v: &[&str]) -> Vec<String> {
    v.iter().map(|s| s.to_string()).collect()
}

fn neighbor_set(entries: &[(&str, &[&str])]) -> NeighborSet {
    let mut ns = NeighborSet::new();
    for (host, nbrs) in entries {
        ns.insert(host.to_string(), names(nbrs));
    }
    ns
}

#[test]
fn conflicting_groups_yield_to_the_largest() {
    let ns = neighbor_set(&[("A", &["A", "B"]), ("B", &["A", "B", "C"]), ("C", &["B", "C"])]);
    let racks = generate_racks(&ns).unwrap();
    assert_eq!(racks, vec![names(&["A", "B", "C"])]);
}

#[test]
fn clustering_ignores_insertion_order() {
    let a = neighbor_set(&[("h1", &["h2"]), ("h2", &["h1"]), ("h3", &[]), ("h4", &["h3"]), ("h3", &["h4"])]);
    let b = neighbor_set(&[("h3", &["h4"]), ("h4", &["h3"]), ("h2", &["h1"]), ("h1", &["h2"])]);
    let ra = generate_racks(&a).unwrap();
    let rb = generate_racks(&b).unwrap();
    assert_eq!(ra, rb);
    assert_eq!(ra, vec![names(&["h1", "h2"]), names(&["h3", "h4"])]);
}

#[test]
fn racks_partition_the_hosts() {
    let ns = neighbor_set(&[
        ("d", &["e"]),
        ("a", &["b", "c"]),
        ("b", &["a", "c"]),
        ("c", &["a", "b"]),
        ("e", &["d"]),
        ("f", &[]),
    ]);
    let racks = generate_racks(&ns).unwrap();
    assert_eq!(racks, vec![names(&["a", "b", "c"]), names(&["d", "e"]), names(&["f"])]);
    let mut all: Vec<String> = racks.concat();
    all.sort();
    assert_eq!(all, names(&["a", "b", "c", "d", "e", "f"]));
}

#[test]
fn hosts_left_out_of_every_rack_are_reported() {
    let ns = neighbor_set(&[("A", &["B"]), ("B", &["A", "C"]), ("C", &["B", "D"]), ("D", &["C"])]);
    assert_eq!(generate_racks(&ns), Err(ClusterError::UnplacedHosts(names(&["D"]))));
}

#[test]
fn later_insert_replaces_neighbors() {
    let mut ns = NeighborSet::new();
    ns.insert("x".to_string(), names(&["y"]));
    ns.insert("y".to_string(), names(&[]));
    ns.insert("x".to_string(), names(&[]));
    assert_eq!(ns.len(), 2);
    assert_eq!(generate_racks(&ns).unwrap(), vec![names(&["x"]), names(&["y"])]);
}

#[test]
fn duplicate_neighbors_count_once() {
    let ns = neighbor_set(&[("b", &["a", "a", "b"]), ("a", &["b"])]);
    assert_eq!(generate_racks(&ns).unwrap(), vec![names(&["a", "b"])]);
}

#[test]
fn empty_neighbor_set_has_no_racks() {
    let ns = NeighborSet::new();
    assert_eq!(ns.len(), 0);
    assert_eq!(generate_racks(&ns).unwrap(), Vec::<Vec<String>>::new());
}

#[test]
fn equal_sized_groups_order_by_names() {
    let ns = neighbor_set(&[("m", &["n"]), ("n", &["m"]), ("b", &["c"]), ("c", &["b"])]);
    assert_eq!(generate_racks(&ns).unwrap(), vec![names(&["b", "c"]), names(&["m", "n"])]);
}
