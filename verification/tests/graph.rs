use lru_cache::graph::Graph;

#[test]
fn empty_graph_has_nothing_to_pop() {
    let mut graph: Graph<u8> = Graph::with_capacity(4);
    assert_eq!(graph.pop_front(), None);
    assert_eq!(graph.remove(0), None);
    assert_eq!(graph.get(0), None);
}

#[test]
fn push_back_then_pop_front_is_first_in_first_out() {
    let mut graph = Graph::with_capacity(0);
    graph.push_back(7, "a");
    graph.push_back(3, "b");
    graph.push_back(5, "c");
    assert_eq!(graph.pop_front(), Some("a"));
    assert_eq!(graph.pop_front(), Some("b"));
    assert_eq!(graph.pop_front(), Some("c"));
    assert_eq!(graph.pop_front(), None);
}

#[test]
fn remove_only_node_empties_the_graph() {
    let mut graph = Graph::with_capacity(1);
    graph.push_back(1, 'x');
    assert_eq!(graph.remove(1), Some('x'));
    assert_eq!(graph.pop_front(), None);
    // The arena can be filled again from scratch.
    graph.push_back(2, 'y');
    graph.push_back(1, 'z');
    assert_eq!(graph.pop_front(), Some('y'));
    assert_eq!(graph.pop_front(), Some('z'));
    assert_eq!(graph.pop_front(), None);
}

#[test]
fn remove_head_moves_the_head() {
    let mut graph = Graph::with_capacity(3);
    graph.push_back(1, 10);
    graph.push_back(2, 20);
    graph.push_back(3, 30);
    assert_eq!(graph.remove(1), Some(10));
    assert_eq!(graph.pop_front(), Some(20));
    assert_eq!(graph.pop_front(), Some(30));
    assert_eq!(graph.pop_front(), None);
}

#[test]
fn remove_tail_moves_the_tail() {
    let mut graph = Graph::with_capacity(3);
    graph.push_back(1, 10);
    graph.push_back(2, 20);
    graph.push_back(3, 30);
    assert_eq!(graph.remove(3), Some(30));
    // A new node joins behind the new tail.
    graph.push_back(4, 40);
    assert_eq!(graph.pop_front(), Some(10));
    assert_eq!(graph.pop_front(), Some(20));
    assert_eq!(graph.pop_front(), Some(40));
    assert_eq!(graph.pop_front(), None);
}

#[test]
fn remove_interior_joins_the_neighbours() {
    let mut graph = Graph::with_capacity(3);
    graph.push_back(1, 10);
    graph.push_back(2, 20);
    graph.push_back(3, 30);
    assert_eq!(graph.remove(2), Some(20));
    assert_eq!(graph.remove(2), None);
    graph.push_back(2, 21);
    assert_eq!(graph.pop_front(), Some(10));
    assert_eq!(graph.pop_front(), Some(30));
    assert_eq!(graph.pop_front(), Some(21));
    assert_eq!(graph.pop_front(), None);
}

#[test]
fn remove_of_unknown_id_changes_nothing() {
    let mut graph = Graph::with_capacity(2);
    graph.push_back(1, 10);
    graph.push_back(2, 20);
    assert_eq!(graph.remove(9), None);
    assert_eq!(graph.pop_front(), Some(10));
    assert_eq!(graph.pop_front(), Some(20));
    assert_eq!(graph.pop_front(), None);
}

#[test]
fn get_moves_node_to_the_back() {
    let mut graph = Graph::with_capacity(3);
    graph.push_back(1, "a");
    graph.push_back(2, "b");
    graph.push_back(3, "c");
    assert_eq!(graph.get(1), Some(&"a"));
    assert_eq!(graph.get(9), None);
    assert_eq!(graph.pop_front(), Some("b"));
    assert_eq!(graph.pop_front(), Some("c"));
    assert_eq!(graph.pop_front(), Some("a"));
    assert_eq!(graph.pop_front(), None);
}

#[test]
fn get_of_the_tail_keeps_the_order() {
    let mut graph = Graph::with_capacity(2);
    graph.push_back(1, "a");
    graph.push_back(2, "b");
    assert_eq!(graph.get(2), Some(&"b"));
    assert_eq!(graph.get(2), Some(&"b"));
    assert_eq!(graph.pop_front(), Some("a"));
    assert_eq!(graph.get(2), Some(&"b"));
    assert_eq!(graph.pop_front(), Some("b"));
    assert_eq!(graph.pop_front(), None);
}
