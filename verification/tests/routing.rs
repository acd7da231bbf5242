use route::dijkstra::{shortest_path, simple_shortest_path};
use route::elements::Edge;
use route::table::Table;

fn e(node: i64, distance: u64, time: u64) -> Edge {
    Edge { node, distance, time }
}

// The classic five-node synthetic graph with one-way arcs:
//
//                  7
//          +-----------------+
//          |                 |
//          v   1        2    |  2
//          0 -----> 1 -----> 3 ---> 4
//          |        ^        ^      ^
//          |        | 1      |      |
//          |        |        | 3    | 1
//          +------> 2 -------+      |
//           10      |               |
//                   +---------------+
fn demo_graph() -> Table<Vec<Edge>> {
    let mut graph: Table<Vec<Edge>> = Table::new();
    graph.insert(0, vec![e(2, 10, 10), e(1, 1, 1)]);
    graph.insert(1, vec![e(3, 2, 2)]);
    graph.insert(2, vec![e(1, 1, 1), e(3, 3, 3), e(4, 1, 1)]);
    graph.insert(3, vec![e(0, 7, 7), e(4, 2, 2)]);
    graph.insert(4, vec![]);
    graph
}

#[test]
fn test_shortest_path() {
    let graph = demo_graph();

    assert_eq!(simple_shortest_path(&graph, 0, 1), Some(1));
    assert_eq!(simple_shortest_path(&graph, 0, 3), Some(3));
    assert_eq!(simple_shortest_path(&graph, 3, 0), Some(7));
    assert_eq!(simple_shortest_path(&graph, 0, 4), Some(5));
    assert_eq!(simple_shortest_path(&graph, 5, 2), None);
    assert_eq!(simple_shortest_path(&graph, 4, 0), None);
}

#[test]
fn path_agrees_with_cost_only() {
    let graph = demo_graph();
    for goal in [1i64, 3, 4] {
        let tr = shortest_path("distance", &graph, 0, goal).unwrap();
        let c = simple_shortest_path(&graph, 0, goal).unwrap();
        assert_eq!(c, tr.last().unwrap().0);
        assert_eq!(0, tr[0].0);
        assert_eq!(0, tr[0].1);
        assert_eq!(goal, tr.last().unwrap().1);
    }
}

#[test]
fn path_trace_nodes() {
    let graph = demo_graph();
    let tr = shortest_path("distance", &graph, 0, 3).unwrap();
    assert_eq!(vec![(0u64, 0i64), (1, 1), (3, 3)], tr);
}

#[test]
fn path_unreachable() {
    let graph = demo_graph();
    assert!(shortest_path("distance", &graph, 4, 0).is_none());
    assert!(shortest_path("distance", &graph, 5, 2).is_none());
}

#[test]
fn path_start_is_goal() {
    let graph = demo_graph();
    let tr = shortest_path("distance", &graph, 2, 2).unwrap();
    assert_eq!(vec![(0u64, 2i64)], tr);
}

#[test]
fn time_metric_changes_route() {
    // distances favour the top route, times favour the bottom one
    let mut graph: Table<Vec<Edge>> = Table::new();
    graph.insert(0, vec![e(1, 1, 100), e(2, 10, 1)]);
    graph.insert(1, vec![e(3, 1, 100)]);
    graph.insert(2, vec![e(3, 10, 1)]);
    graph.insert(3, vec![]);

    let by_dist = shortest_path("distance", &graph, 0, 3).unwrap();
    assert_eq!(vec![(0u64, 0i64), (1, 1), (2, 3)], by_dist);

    let by_time = shortest_path("time", &graph, 0, 3).unwrap();
    assert_eq!(vec![(0u64, 0i64), (1, 2), (2, 3)], by_time);
}

#[test]
fn unknown_mode_selects_distance() {
    let mut graph: Table<Vec<Edge>> = Table::new();
    graph.insert(0, vec![e(1, 1, 100), e(2, 10, 1)]);
    graph.insert(1, vec![e(3, 1, 100)]);
    graph.insert(2, vec![e(3, 10, 1)]);
    graph.insert(3, vec![]);
    let tr = shortest_path("whatever", &graph, 0, 3).unwrap();
    assert_eq!(vec![(0u64, 0i64), (1, 1), (2, 3)], tr);
}

#[test]
fn trace_costs_never_decrease() {
    let graph = demo_graph();
    let tr = shortest_path("distance", &graph, 0, 4).unwrap();
    for i in 0..tr.len() - 1 {
        assert!(tr[i].0 <= tr[i + 1].0);
    }
}

#[test]
fn trace_repeats_no_node() {
    // zero-weight arcs invite cycling; the trace still settles each node
    // only once
    let mut graph: Table<Vec<Edge>> = Table::new();
    graph.insert(0, vec![e(0, 0, 0), e(1, 0, 0)]);
    graph.insert(1, vec![e(0, 0, 0), e(2, 1, 1)]);
    graph.insert(2, vec![]);
    let tr = shortest_path("distance", &graph, 0, 2).unwrap();
    assert_eq!(vec![(0u64, 0i64), (0, 1), (1, 2)], tr);
    for i in 0..tr.len() {
        for j in i + 1..tr.len() {
            assert_ne!(tr[i].1, tr[j].1);
        }
    }
}

#[test]
fn parallel_arcs_cheapest_wins() {
    let mut graph: Table<Vec<Edge>> = Table::new();
    graph.insert(0, vec![e(1, 9, 9), e(1, 4, 4)]);
    graph.insert(1, vec![]);
    assert_eq!(simple_shortest_path(&graph, 0, 1), Some(4));
}
