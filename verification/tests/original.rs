use babel::scoped_map::ScopedMap;
use babel::union_find::DisjointSet;
use babel::utils::tarjan_scc::{Graph, SCC};

#[test]
fn ir_it_works() {}

#[test]
fn mod_it_works() {}

#[test]
fn lib_it_works() {}

#[test]
fn scoped_map_insert1() {
    let mut map = ScopedMap::new();
    map.insert(1, "a");
    assert_eq!(map.get(&1), Some(&"a"));
    assert_eq!(map.get(&2), None)
}

#[test]
fn insert2() {
    let mut map = ScopedMap::new();
    map.insert(1, "a");
    assert_eq!(map.get(&1), Some(&"a"));
    assert_eq!(map.get(&2), None);

    map.begin_scope();
    map.insert(1, "b");
    map.insert(2, "c");
    assert_eq!(map.get(&1), Some(&"b"));
    assert_eq!(map.get(&2), Some(&"c"));

    map.end_scope();
    assert_eq!(map.get(&1), Some(&"a"));
    assert_eq!(map.get(&2), None);
}

#[test]
fn union_find_insert1() {
    let mut set = DisjointSet::<u32, char>::with_capacity(10);
    let node1 = set.add('1');
    let node2 = set.add('2');
    let node3 = set.add('3');
    let node4 = set.add('4');
    let node5 = set.add('5');
    let node6 = set.add('6');

    assert_eq!(*set.find(node1), '1');
    assert_eq!(*set.find(node2), '2');
    assert_eq!(*set.find(node3), '3');
    assert_eq!(*set.find(node4), '4');
    assert_eq!(*set.find(node5), '5');
    assert_eq!(*set.find(node6), '6');

    set.merge(node2, node4);
    assert_eq!(*set.find(node2), '2');
    assert_eq!(*set.find(node4), '2');
    assert_eq!(*set.find(node6), '6');

    set.merge(node4, node6);
    assert_eq!(*set.find(node1), '1');
    assert_eq!(*set.find(node2), '2');
    assert_eq!(*set.find(node3), '3');
    assert_eq!(*set.find(node4), '2');
    assert_eq!(*set.find(node5), '5');
    assert_eq!(*set.find(node6), '2');
}

#[test]
fn sort() {
    let mut graph = Graph::<u32, u32>::new();

    let v1 = graph.add_vertex(1);
    let v2 = graph.add_vertex(2);
    let v3 = graph.add_vertex(3);
    let v4 = graph.add_vertex(4);
    let v5 = graph.add_vertex(5);
    let v6 = graph.add_vertex(6);
    let v7 = graph.add_vertex(7);
    let v8 = graph.add_vertex(8);
    let v9 = graph.add_vertex(9);
    let v10 = graph.add_vertex(10);

    graph.add_edge(v1, v2);
    graph.add_edge(v2, v3);
    graph.add_edge(v3, v4);
    graph.add_edge(v3, v5);
    graph.add_edge(v5, v6);
    graph.add_edge(v6, v7);
    graph.add_edge(v7, v8);
    graph.add_edge(v8, v9);
    graph.add_edge(v9, v7);
    graph.add_edge(v7, v3);
    graph.add_edge(v7, v10);

    let res = SCC::run(&graph);

    println!("{:#?}", res);
}

#[test]
fn components_are_disjoint() {
    let mut graph = Graph::<u32, u32>::new();
    let v: Vec<u32> = (0..6).map(|i| graph.add_vertex(i)).collect();
    graph.add_edge(v[0], v[1]);
    graph.add_edge(v[1], v[0]);
    graph.add_edge(v[2], v[3]);
    graph.add_edge(v[3], v[4]);
    graph.add_edge(v[4], v[2]);
    let res = SCC::run(&graph);
    let mut seen = std::collections::HashSet::new();
    for comp in &res {
        for x in comp {
            assert!(seen.insert(*x));
        }
    }
}

#[test]
fn components_come_in_reverse_topological_order() {
    let mut graph = Graph::<u32, u32>::new();
    let v: Vec<u32> = (1..11).map(|i| graph.add_vertex(i)).collect();
    let edge = |g: &mut Graph<u32, u32>, a: usize, b: usize| g.add_edge(v[a - 1], v[b - 1]);
    edge(&mut graph, 1, 2);
    edge(&mut graph, 2, 3);
    edge(&mut graph, 3, 4);
    edge(&mut graph, 3, 5);
    edge(&mut graph, 5, 6);
    edge(&mut graph, 6, 7);
    edge(&mut graph, 7, 8);
    edge(&mut graph, 8, 9);
    edge(&mut graph, 9, 7);
    edge(&mut graph, 7, 3);
    edge(&mut graph, 7, 10);
    let res = SCC::run(&graph);
    assert_eq!(
        res,
        vec![vec![4], vec![10], vec![9, 8, 7, 6, 5, 3], vec![2], vec![1]]
    );
}

#[test]
fn a_cross_edge_to_a_finished_component_is_ignored() {
    // 0 -> 1, 0 -> 2, 2 -> 1: three components, 1 first.
    let mut graph = Graph::<u32, u32>::new();
    let v: Vec<u32> = (0..3).map(|i| graph.add_vertex(i)).collect();
    graph.add_edge(v[0], v[1]);
    graph.add_edge(v[0], v[2]);
    graph.add_edge(v[2], v[1]);
    let res = SCC::run(&graph);
    assert_eq!(res, vec![vec![1], vec![2], vec![0]]);
}

#[test]
fn get_mut_changes_the_innermost_binding() {
    let mut map = ScopedMap::new();
    map.insert(1u32, "a");
    map.insert(2u32, "b");
    map.begin_scope();
    map.insert(1u32, "c");
    if let Some(v) = map.get_mut(&1) {
        *v = "d";
    }
    assert_eq!(map.get(&1), Some(&"d"));
    if let Some(v) = map.get_mut(&2) {
        *v = "e";
    }
    assert_eq!(map.get(&2), Some(&"e"));
    assert!(map.get_mut(&3).is_none());
    map.end_scope();
    assert_eq!(map.get(&1), Some(&"a"));
    assert_eq!(map.get(&2), Some(&"e"));
}
