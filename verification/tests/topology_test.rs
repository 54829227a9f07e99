use rgg::topology::{
    calculate_neighbors, calculate_neighbors_coordinates_wrapped, keep_targets, Topology,
};

fn ids(list: &[&str]) -> Vec<String> {
    list.iter().map(|s| s.to_string()).collect()
}

#[test]
fn topology_excludes_the_node_itself() {
    let t = Topology::new("n2".to_string(), ids(&["n1", "n2", "n3", "n4"]), 5);
    assert_eq!(t.node_id, "n2");
    assert_eq!(t.all_nodes, ids(&["n1", "n3", "n4"]));
    assert_eq!(t.neighbors, ids(&["n1", "n3", "n4"]));
}

#[test]
fn topology_with_small_rows_still_takes_every_other_node() {
    let t = Topology::new("n5".to_string(), ids(&["n1", "n2", "n3", "n4", "n5", "n6", "n7"]), 2);
    assert_eq!(t.neighbors, ids(&["n1", "n2", "n3", "n4", "n6", "n7"]));
    assert_eq!(t.all_nodes, t.neighbors);
}

#[test]
fn topology_of_a_single_node_is_empty() {
    let t = Topology::new("n1".to_string(), ids(&["n1"]), 5);
    assert!(t.all_nodes.is_empty());
    assert!(t.neighbors.is_empty());
    assert!(t.get_random_targets_from_all(3, &[]).is_empty());
}

#[test]
fn random_targets_avoid_excluded_and_come_from_pool() {
    let t = Topology::new("n0".to_string(), ids(&["n0", "n1", "n2", "n3", "n4", "n5"]), 5);
    for _ in 0..50 {
        let exclude = ids(&["n3"]);
        let r = t.get_random_targets_from_all(3, &exclude);
        assert_eq!(r.len(), 3);
        for x in &r {
            assert!(t.all_nodes.contains(x));
            assert_ne!(x, "n3");
            assert_ne!(x, "n0");
        }
        let mut sorted = r.clone();
        sorted.sort();
        sorted.dedup();
        assert_eq!(sorted.len(), 3);
    }
}

#[test]
fn random_targets_from_a_small_pool_take_what_there_is() {
    let t = Topology::new("n0".to_string(), ids(&["n0", "n1", "n2"]), 5);
    for _ in 0..20 {
        let r = t.get_random_targets_from_neighbors(5, &[]);
        let mut sorted = r.clone();
        sorted.sort();
        assert_eq!(sorted, ids(&["n1", "n2"]));
    }
}

#[test]
fn random_neighbour_targets_at_most_count() {
    let t = Topology::new("n0".to_string(), ids(&["n0", "n1", "n2", "n3", "n4"]), 5);
    for _ in 0..20 {
        let r = t.get_random_targets_from_neighbors(2, &[]);
        assert_eq!(r.len(), 2);
        assert!(r.iter().all(|x| t.neighbors.contains(x)));
        assert_ne!(r[0], r[1]);
    }
}

#[test]
fn keep_targets_takes_first_count_not_excluded() {
    let chosen = ids(&["a", "b", "c", "d"]);
    assert_eq!(keep_targets(&chosen, 2, &ids(&["b"])), ids(&["a", "c"]));
    assert_eq!(keep_targets(&chosen, 10, &ids(&["a", "d"])), ids(&["b", "c"]));
    assert_eq!(keep_targets(&chosen, 0, &[]), Vec::<String>::new());
}

#[test]
fn wrapped_coordinates_on_a_grid() {
    assert_eq!(
        calculate_neighbors_coordinates_wrapped(1, 1, 2, 2),
        vec![(0, 0), (0, 1), (0, 2), (1, 0), (1, 2), (2, 0), (2, 1), (2, 2)]
    );
    assert_eq!(
        calculate_neighbors_coordinates_wrapped(0, 0, 2, 2),
        vec![(2, 2), (2, 0), (2, 1), (0, 2), (0, 1), (1, 2), (1, 0), (1, 1)]
    );
}

#[test]
fn wrapped_coordinates_on_a_single_row() {
    assert_eq!(calculate_neighbors_coordinates_wrapped(0, 0, 0, 3), vec![(0, 3), (0, 1)]);
    assert_eq!(calculate_neighbors_coordinates_wrapped(0, 3, 0, 3), vec![(0, 2), (0, 0)]);
}

#[test]
fn calculate_neighbors_reads_the_wrapped_cells() {
    let chunks = vec![ids(&["ab", "cd", "ef"]), ids(&["gh", "ij", "kl"])];
    assert_eq!(
        calculate_neighbors(&chunks, 0, 1),
        ids(&["gh", "ij", "gh", "ab", "ab", "gh", "ij", "gh"])
    );
}

#[test]
fn calculate_neighbors_takes_last_column_from_id_length() {
    let chunks = vec![ids(&["a", "b", "c"])];
    assert_eq!(calculate_neighbors(&chunks, 0, 0), ids(&["a", "a"]));
    let wide = vec![ids(&["abc", "d", "e"])];
    assert_eq!(calculate_neighbors(&wide, 0, 0), ids(&["e", "d"]));
}

#[test]
fn repeated_names_without_exclusion_give_count_targets() {
    let t = Topology {
        node_id: "n1".to_string(),
        all_nodes: ids(&["a", "a"]),
        neighbors: ids(&["a", "a"]),
    };
    for _ in 0..20 {
        assert_eq!(t.get_random_targets_from_neighbors(1, &[]), ids(&["a"]));
        assert_eq!(t.get_random_targets_from_all(5, &[]), ids(&["a", "a"]));
    }
}

#[test]
fn small_pool_gives_every_available_target() {
    let t = Topology {
        node_id: "n1".to_string(),
        all_nodes: ids(&["n2", "n3"]),
        neighbors: ids(&["n2"]),
    };
    for _ in 0..20 {
        assert_eq!(t.get_random_targets_from_all(3, &ids(&["n2"])), ids(&["n3"]));
        assert_eq!(t.get_random_targets_from_all(0, &[]), Vec::<String>::new());
        assert_eq!(t.get_random_targets_from_neighbors(2, &[]), ids(&["n2"]));
        assert_eq!(t.get_random_targets_from_neighbors(2, &ids(&["n2"])), Vec::<String>::new());
    }
}

#[test]
fn random_targets_vary_between_calls() {
    let t = Topology::new("n0".to_string(), ids(&["n0", "n1", "n2", "n3", "n4", "n5"]), 5);
    let mut outcomes: Vec<Vec<String>> = Vec::new();
    for _ in 0..100 {
        let r = t.get_random_targets_from_all(2, &[]);
        if !outcomes.contains(&r) {
            outcomes.push(r);
        }
    }
    assert!(outcomes.len() > 1);
    assert!(outcomes.iter().any(|r| r[0] != "n1"));
}
