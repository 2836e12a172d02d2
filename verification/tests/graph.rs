use cplit::graph::{dijkstra, hierholzer_directed, hierholzer_undirected, scc, Degree, Graph};
use std::collections::VecDeque;

fn numbers(input: &str) -> Vec<usize> {
    input.split_whitespace().map(|x| x.parse().unwrap()).collect()
}

#[test]
fn luogu_p4779() {
    let input = numbers(
        r#"
4 6 1
1 2 2
2 3 2
2 4 1
1 3 5
3 4 3
1 4 4
"#,
    );
    let (n, m, s) = (input[0], input[1], input[2]);
    let mut rest = input[3..].iter().copied();
    let mut graph = Graph::<(), usize>::new(n);
    for _ in 0..m {
        let u = rest.next().unwrap();
        let v = rest.next().unwrap();
        let w = rest.next().unwrap();
        graph.add_edge(u, v, w);
    }
    let dist = dijkstra(s, &graph);
    assert_eq!(
        dist[1..],
        vec![0, 2, 4, 3].into_iter().map(Some).collect::<Vec<_>>()
    );
}

#[test]
fn luogu_p7771() {
    let input = numbers(
        r#"
4 6
1 3
2 1
4 2
3 3
1 2
3 4
"#,
    );
    let (n, m) = (input[0], input[1]);
    let mut rest = input[2..].iter().copied();
    let mut graph = Graph::<(usize, usize), ()>::new(n);
    for _ in 0..m {
        let u = rest.next().unwrap();
        let v = rest.next().unwrap();
        graph.add_edge(u, v, ());
        graph.nodes[v].0 += 1;
        graph.nodes[u].1 += 1;
    }

    let mut start = 0;
    for i in 1..=n {
        if graph.nodes[i].out_dgr() > graph.nodes[i].in_dgr() + 1 {
            unreachable!();
        } else if graph.nodes[i].out_dgr() > graph.nodes[i].in_dgr() {
            if start != 0 {
                unreachable!();
            }
            start = i;
        }
    }

    for i in 1..=n {
        graph.sort_edges(i);
    }

    let ans = hierholzer_directed(start, &graph);
    assert_eq!(ans, vec![1, 2, 1, 3, 3, 4, 2]);
}

#[test]
fn luogu_p2731() {
    let input = numbers(
        r#"
9
1 2
2 3
3 4
4 2
4 5
2 5
5 6
5 7
4 6
"#,
    );
    let m = input[0];
    let mut rest = input[1..].iter().copied();
    let mut graph = Graph::<usize, bool>::empty();
    for _ in 0..m {
        let u = rest.next().unwrap();
        let v = rest.next().unwrap();
        graph.add_edge(u, v, false);
        graph.add_edge(v, u, false);
        graph.nodes[v] += 1;
        graph.nodes[u] += 1;
    }
    let n = graph.len_nodes();

    for i in 1..=n {
        graph.sort_edges(i);
    }

    let mut start = 0;
    for i in 1..=n {
        if graph.nodes[i].dgr() != 0 && start == 0 {
            start = i;
        }
        if graph.nodes[i].dgr() % 2 != 0 {
            break;
        }
    }

    let ans = hierholzer_undirected(start, &mut graph);
    assert_eq!(ans, vec![1, 2, 3, 4, 2, 5, 4, 6, 5, 7]);
}

#[test]
fn luogu_p3387() {
    let input = numbers(
        r#"
10 20
970 369 910 889 470 106 658 659 916 964 
3 2
3 6
3 4
9 5
8 3
5 8
9 1
9 7
9 8
7 5
3 7
7 8
1 7
10 2
1 10
4 8
2 6
3 1
3 5
8 5
"#,
    );
    let (n, m) = (input[0], input[1]);
    let a: Vec<usize> = std::iter::once(0).chain(input[2..2 + n].iter().copied()).collect();
    let mut rest = input[2 + n..].iter().copied();
    let mut graph = Graph::<_, ()>::from_nodes(a);
    for _ in 0..m {
        let u = rest.next().unwrap();
        let v = rest.next().unwrap();
        graph.add_edge(u, v, ());
    }
    let (sc, scc) = scc(&graph);
    let mut in_dgr: Vec<usize> = vec![0; sc + 1];
    let mut sum = vec![0; sc + 1];
    for u in 1..=n {
        sum[scc[u]] += graph.nodes[u];
        graph
            .get_edges(u)
            .into_iter()
            .filter(|&(&v, _)| scc[u] != scc[v])
            .for_each(|(&v, _)| {
                in_dgr[scc[v]] += 1;
            });
    }
    let mut dp = vec![0; sc + 1];
    let mut q = VecDeque::new();
    let mut vis = vec![false; n + 1];
    for u in 1..=n {
        if in_dgr[scc[u]] == 0 && !vis[u] {
            dp[scc[u]] = sum[scc[u]];
            q.push_back(u);
            while !q.is_empty() {
                let u = q.pop_front().unwrap();
                let mut q2 = VecDeque::new();
                vis[u] = true;
                q2.push_back(u);
                while !q2.is_empty() {
                    let u = q2.pop_front().unwrap();
                    graph.get_edges(u).into_iter().for_each(|(&v, _)| {
                        if scc[u] != scc[v] {
                            dp[scc[v]] = dp[scc[v]].max(dp[scc[u]] + sum[scc[v]]);
                            in_dgr[scc[v]] -= 1;
                            if in_dgr[scc[v]] == 0 {
                                q.push_back(v);
                            }
                        } else if !vis[v] {
                            vis[v] = true;
                            q2.push_back(v);
                        }
                    });
                }
            }
        }
    }
    let ans = dp.iter().max().unwrap();
    assert_eq!(ans, &6911);
}

#[test]
fn graph_starts_without_edges() {
    let graph = Graph::<usize, ()>::new(3);
    assert_eq!(graph.len_nodes(), 3);
    assert_eq!(graph.len_edges(), 0);
    assert_eq!(graph.nodes, vec![0, 0, 0, 0]);
    assert_eq!(graph.head, vec![0, 0, 0, 0]);
    let graph = Graph::<(), ()>::empty();
    assert_eq!(graph.len_nodes(), 0);
    assert_eq!(graph.len_edges(), 0);
    let graph = Graph::<char, ()>::from_nodes(vec![' ', 'a', 'b']);
    assert_eq!(graph.len_nodes(), 2);
    assert_eq!(graph.nodes, vec![' ', 'a', 'b']);
    assert!(graph.get_edges(1).is_empty());
}

#[test]
fn add_edge_links_in_front_and_adds_nodes() {
    let mut graph = Graph::<(), char>::new(2);
    graph.add_edge(1, 2, 'a');
    graph.add_edge(1, 5, 'b');
    graph.add_edge(2, 1, 'c');
    assert_eq!(graph.len_nodes(), 5);
    assert_eq!(graph.len_edges(), 3);
    assert_eq!(graph.get_edges(1), vec![(&5, &'b'), (&2, &'a')]);
    assert_eq!(graph.get_edges(2), vec![(&1, &'c')]);
    assert!(graph.get_edges(5).is_empty());
    assert_eq!(graph.get_edges_enum(1), vec![(2, (&5, &'b')), (1, (&2, &'a'))]);
    assert_eq!(graph.get_edges_from(1), vec![(&2, &'a')]);
    assert_eq!(graph.get_edges_enum_from(2), vec![(2, (&5, &'b')), (1, (&2, &'a'))]);
    assert_eq!(graph.get_edge(2), (1, 5, &'b'));
    assert_eq!(graph.get_edge(1), (0, 2, &'a'));
}

#[test]
fn cursors_walk_a_list_once() {
    let mut graph = Graph::<(), u8>::new(2);
    graph.add_edge(1, 2, 10);
    graph.add_edge(1, 1, 20);
    let mut cur = graph.head[1];
    assert_eq!(graph.get_edges_from_once(&mut cur), vec![(&1, &20), (&2, &10)]);
    assert_eq!(cur, 0);
    assert!(graph.get_edges_from_once(&mut cur).is_empty());
    let mut cur = graph.head[1];
    assert_eq!(
        graph.get_edges_enum_from_once(&mut cur),
        vec![(2, (&1, &20)), (1, (&2, &10))]
    );
    assert_eq!(cur, 0);
}

#[test]
fn twins_pair_the_two_directions() {
    let mut graph = Graph::<(), char>::new(3);
    graph.add_edge(1, 2, 'x');
    graph.add_edge(2, 1, 'y');
    graph.add_edge(2, 3, 'z');
    graph.add_edge(3, 2, 'w');
    assert_eq!(graph.get_twin_edge(1), (0, 1, &'y'));
    assert_eq!(graph.get_twin_edge(2), (0, 2, &'x'));
    assert_eq!(graph.get_twin_edge(3).1, 2);
    assert_eq!(graph.get_twin_edge(4).1, 3);
    *graph.get_edge_mut(3).2 = 'Z';
    *graph.get_twin_edge_mut(3).2 = 'W';
    assert_eq!(graph.get_edge(3), (2, 3, &'Z'));
    assert_eq!(graph.get_edge(4), (0, 2, &'W'));
    assert_eq!(cplit::graph::twin(1), 2);
    assert_eq!(cplit::graph::twin(2), 1);
    assert_eq!(cplit::graph::twin(7), 8);
}

#[test]
fn erase_edge_moves_the_cursor_on_and_records_a_slot() {
    let mut graph = Graph::<(), ()>::new(2);
    graph.add_edge(1, 2, ());
    graph.add_edge(1, 2, ());
    assert_eq!(graph.len_edges(), 2);
    let mut cur = 2;
    graph.erase_edge(&mut cur);
    assert_eq!(cur, 1);
    assert_eq!(graph.erased, vec![1]);
    assert_eq!(graph.len_edges(), 1);
    let mut end = 0;
    graph.erase_edge(&mut end);
    assert_eq!(end, 0);
    assert_eq!(graph.erased, vec![1]);
}

#[test]
fn sort_edges_by_takes_a_comparator() {
    let mut graph = Graph::<i32, ()>::from_nodes(vec![0, 30, 10, 20, 10]);
    for to in [3, 1, 4, 2] {
        graph.add_edge(1, to, ());
    }
    graph.add_edge(2, 4, ());
    graph.add_edge(2, 1, ());
    graph.sort_edges_by(1, |a, b| b.1.cmp(a.1));
    let order: Vec<usize> = graph.get_edges(1).into_iter().map(|(&to, _)| to).collect();
    assert_eq!(
        order.iter().map(|&to| graph.nodes[to]).collect::<Vec<_>>(),
        vec![30, 20, 10, 10]
    );
    // the other list is as it was
    assert_eq!(graph.get_edges(2), vec![(&1, &()), (&4, &())]);
    graph.sort_edges(1);
    let order: Vec<usize> = graph.get_edges(1).into_iter().map(|(&to, _)| to).collect();
    assert_eq!(order, vec![1, 2, 3, 4]);
    assert_eq!(graph.len_edges(), 6);
}

#[test]
fn dijkstra_leaves_unreachable_nodes_without_a_distance() {
    let mut graph = Graph::<(), usize>::new(5);
    graph.add_edge(1, 2, 4);
    graph.add_edge(2, 3, 0);
    graph.add_edge(1, 3, 9);
    graph.add_edge(4, 1, 1);
    graph.add_edge(3, 5, usize::MAX);
    let dist = dijkstra(1, &graph);
    assert_eq!(dist, vec![None, Some(0), Some(4), Some(4), None, None]);
}

#[test]
fn scc_labels_cycles_together() {
    let mut graph = Graph::<(), ()>::new(5);
    for (u, v) in [(1, 2), (2, 3), (3, 1), (3, 4), (4, 5), (5, 4)] {
        graph.add_edge(u, v, ());
    }
    let (count, label) = scc(&graph);
    assert_eq!(count, 2);
    assert_eq!(label[1], label[2]);
    assert_eq!(label[2], label[3]);
    assert_eq!(label[4], label[5]);
    assert_ne!(label[1], label[4]);
    assert_eq!(label[0], 0);
    // the component that the search completes first has the number 1
    assert_eq!(label[4], 1);
    assert_eq!(label[1], 2);
}

#[test]
fn degrees_of_nodes() {
    assert_eq!(5usize.in_dgr(), 5);
    assert_eq!(5usize.out_dgr(), 5);
    assert_eq!(5usize.dgr(), 5);
    assert_eq!((2usize, 3usize).in_dgr(), 2);
    assert_eq!((2usize, 3usize).out_dgr(), 3);
    assert_eq!((2usize, 3usize).dgr(), 5);
}

/// Whether `to` can be reached from `from`, by a search over all edges.
fn reachable(graph: &Graph<(), ()>, from: usize, to: usize) -> bool {
    let mut seen = vec![false; graph.nodes.len()];
    let mut todo = vec![from];
    seen[from] = true;
    while let Some(u) = todo.pop() {
        for (&v, _) in graph.get_edges(u) {
            if !seen[v] {
                seen[v] = true;
                todo.push(v);
            }
        }
    }
    seen[to]
}

#[test]
fn scc_labels_agree_with_reachability() {
    let n = 9;
    let mut graph = Graph::<(), ()>::new(n);
    for (u, v) in [
        (1, 2), (2, 3), (3, 1), (3, 4), (4, 5), (5, 6), (6, 4), (6, 7), (8, 9), (9, 8), (7, 7), (2, 5),
    ] {
        graph.add_edge(u, v, ());
    }
    let (count, label) = scc(&graph);
    assert_eq!(count, 4);
    for a in 1..=n {
        for b in 1..=n {
            let together = reachable(&graph, a, b) && reachable(&graph, b, a);
            assert_eq!(label[a] == label[b], together, "nodes {} and {}", a, b);
        }
    }
}

#[test]
fn hierholzer_passes_every_edge_of_a_circuit_once() {
    let edges = [(1, 2), (2, 3), (3, 1), (1, 4), (4, 5), (5, 1), (3, 3)];
    let mut graph = Graph::<(), ()>::new(5);
    for &(u, v) in edges.iter() {
        graph.add_edge(u, v, ());
    }
    let trail = hierholzer_directed(1, &graph);
    assert_eq!(trail.len(), edges.len() + 1);
    assert_eq!(trail[0], 1);
    assert_eq!(trail[edges.len()], 1);
    let mut left = edges.to_vec();
    for step in trail.windows(2) {
        let at = left.iter().position(|&(u, v)| u == step[0] && v == step[1]);
        assert!(at.is_some(), "no edge from {} to {} is left", step[0], step[1]);
        left.remove(at.unwrap());
    }
    assert!(left.is_empty());
}

#[test]
fn hierholzer_undirected_passes_every_edge_once() {
    let edges = [(1, 2), (2, 3), (3, 4), (4, 1), (1, 3)];
    let mut graph = Graph::<(), bool>::new(4);
    for &(u, v) in edges.iter() {
        graph.add_edge(u, v, false);
        graph.add_edge(v, u, false);
    }
    // nodes 1 and 3 have an odd number of edges: the trail runs between them
    let trail = hierholzer_undirected(1, &mut graph);
    assert_eq!(trail.len(), edges.len() + 1);
    assert_eq!(trail[0], 1);
    assert_eq!(trail[edges.len()], 3);
    let mut left = edges.to_vec();
    for step in trail.windows(2) {
        let at = left
            .iter()
            .position(|&(u, v)| (u, v) == (step[0], step[1]) || (v, u) == (step[0], step[1]));
        assert!(at.is_some(), "no edge between {} and {} is left", step[0], step[1]);
        left.remove(at.unwrap());
    }
    assert!(left.is_empty());
    // every edge is marked, in both directions
    for idx in 1..graph.edges.len() {
        assert!(graph.edges[idx].2);
    }
}

#[test]
fn scc_numbers_components_against_the_edges() {
    let mut graph = Graph::<(), ()>::new(3);
    graph.add_edge(1, 2, ());
    graph.add_edge(2, 1, ());
    graph.add_edge(2, 3, ());
    // the component that no edge leaves is completed first
    assert_eq!(scc(&graph), (2, vec![0, 2, 2, 1]));

    let mut graph = Graph::<(), ()>::new(6);
    let edges = [(1, 2), (2, 3), (3, 1), (3, 4), (4, 5), (5, 4), (6, 1), (6, 5), (2, 5)];
    for &(u, v) in edges.iter() {
        graph.add_edge(u, v, ());
    }
    let (count, label) = scc(&graph);
    assert_eq!(count, 3);
    assert_eq!(label, vec![0, 2, 2, 2, 1, 1, 3]);
    for &(u, v) in edges.iter() {
        assert!(label[v] <= label[u]);
    }
}

#[test]
fn scc_labels_the_buffer_node_only_if_it_is_reached() {
    let mut graph = Graph::<(), ()>::new(2);
    graph.add_edge(0, 1, ());
    graph.add_edge(1, 2, ());
    // node 0 has an edge that leaves it, but none leads to it
    assert_eq!(scc(&graph), (2, vec![0, 2, 1]));
    graph.add_edge(2, 0, ());
    // now the three nodes are on one cycle
    assert_eq!(scc(&graph), (1, vec![1, 1, 1]));
}

#[test]
fn new_nodes_hold_the_default_value() {
    let graph = Graph::<u8, u8>::new(2);
    assert_eq!(graph.nodes, vec![0, 0, 0]);
    assert_eq!(graph.edges, vec![(0, 0, 0)]);
    let mut graph = Graph::<u8, ()>::from_nodes(vec![7, 8]);
    graph.add_edge(1, 4, ());
    assert_eq!(graph.nodes, vec![7, 8, 0, 0, 0]);
    graph.add_edge(6, 2, ());
    assert_eq!(graph.nodes, vec![7, 8, 0, 0, 0, 0, 0]);
    graph.add_edge(3, 3, ());
    assert_eq!(graph.nodes, vec![7, 8, 0, 0, 0, 0, 0]);
}

#[test]
fn hierholzer_passes_what_it_reaches_where_no_trail_exists() {
    // from 1: a fork, no trail; node 5 and its edge are out of reach
    let edges = [(1, 2), (1, 3), (3, 4), (5, 1)];
    let mut graph = Graph::<(), ()>::new(5);
    for &(u, v) in edges.iter() {
        graph.add_edge(u, v, ());
    }
    let nodes = hierholzer_directed(1, &graph);
    assert_eq!(nodes.len(), 4);
    assert_eq!(nodes[0], 1);
    let mut led_to = nodes[1..].to_vec();
    led_to.sort();
    assert_eq!(led_to, vec![2, 3, 4]);
}

#[test]
fn hierholzer_undirected_leaves_marked_edges_alone() {
    let mut graph = Graph::<(), bool>::new(4);
    for &(u, v, passed) in [(1, 2, false), (2, 3, true), (3, 4, false), (2, 4, false)].iter() {
        graph.add_edge(u, v, passed);
        graph.add_edge(v, u, passed);
    }
    let nodes = hierholzer_undirected(4, &mut graph);
    // the edge between 2 and 3 counts as passed already
    assert_eq!(nodes.len(), 4);
    assert_eq!(nodes[0], 4);
    let mut led_to = nodes[1..].to_vec();
    led_to.sort();
    assert_eq!(led_to, vec![1, 2, 3]);
    for idx in 1..graph.edges.len() {
        assert!(graph.edges[idx].2);
    }
    // nothing is left to pass
    assert_eq!(hierholzer_undirected(4, &mut graph), vec![4]);
}

#[test]
fn from_nodes_takes_an_empty_vector() {
    let mut graph = Graph::<u8, ()>::from_nodes(vec![]);
    assert!(graph.nodes.is_empty());
    assert!(graph.head.is_empty());
    assert_eq!(graph.edges.len(), 1);
    graph.add_edge(0, 1, ());
    assert_eq!(graph.nodes, vec![0, 0]);
    assert_eq!(graph.get_edges(0), vec![(&1, &())]);
}
