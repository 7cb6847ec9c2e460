use puzzle_kernels::search::{search, trace_back, Edge, UNREACHED};

fn graph(edges: &[(usize, usize, u64)], nodes: usize) -> Vec<Vec<Edge>> {
    let mut lists: Vec<Vec<Edge>> = vec![Vec::new(); nodes];
    for (from, to, cost) in edges {
        lists[*from].push(Edge { to: *to, cost: *cost });
    }
    lists
}

fn diamond() -> Vec<Vec<Edge>> {
    graph(&[(0, 1, 2), (0, 2, 5), (1, 2, 3), (1, 3, 7), (2, 3, 1), (3, 0, 1), (4, 0, 1)], 5)
}

#[test]
fn cheapest_costs() {
    let paths = search(&diamond(), 0, &vec![0; 5]);
    assert_eq!(paths.dist, vec![0, 2, 5, 6, UNREACHED]);
}

#[test]
fn no_edge_leads_to_a_cheaper_cost() {
    let lists = diamond();
    let paths = search(&lists, 0, &vec![0; 5]);
    for (u, edges) in lists.iter().enumerate() {
        if paths.dist[u] != UNREACHED {
            for edge in edges {
                assert!(paths.dist[edge.to] <= paths.dist[u] + edge.cost);
            }
        }
    }
}

#[test]
fn predecessors_on_cheapest_walks() {
    let paths = search(&diamond(), 0, &vec![0; 5]);
    let mut into_two = paths.preds[2].clone();
    into_two.sort();
    assert_eq!(into_two, vec![0, 1]);
    assert_eq!(paths.preds[3], vec![2]);
    assert_eq!(paths.preds[1], vec![0]);
    assert_eq!(paths.preds[0], Vec::<usize>::new());
    assert_eq!(paths.preds[4], Vec::<usize>::new());
}

#[test]
fn the_order_of_expansion_does_not_change_the_result() {
    let plain = search(&diamond(), 0, &vec![0; 5]);
    let skewed = search(&diamond(), 0, &vec![9, 0, 100, 3, 7]);
    assert_eq!(plain.dist, skewed.dist);
    for v in 0..5 {
        let mut a = plain.preds[v].clone();
        let mut b = skewed.preds[v].clone();
        a.sort();
        b.sort();
        assert_eq!(a, b);
    }
}

#[test]
fn nodes_on_cheapest_walks() {
    let paths = search(&diamond(), 0, &vec![0; 5]);
    assert_eq!(trace_back(&paths.preds, &vec![3]), vec![true, true, true, true, false]);
    assert_eq!(trace_back(&paths.preds, &vec![1]), vec![true, true, false, false, false]);
    assert_eq!(trace_back(&paths.preds, &vec![]), vec![false; 5]);
    assert_eq!(trace_back(&paths.preds, &vec![4]), vec![false, false, false, false, true]);
}

#[test]
fn equal_edges_and_loops() {
    let lists = graph(&[(0, 1, 1), (0, 1, 1), (1, 1, 0), (1, 0, 0), (0, 0, 4)], 2);
    let paths = search(&lists, 0, &vec![0; 2]);
    assert_eq!(paths.dist, vec![0, 1]);
    let mut into_one = paths.preds[1].clone();
    into_one.sort();
    assert_eq!(into_one, vec![0, 1]);
    assert_eq!(paths.preds[0], Vec::<usize>::new());
}

#[test]
fn costs_that_do_not_fit_are_not_recorded() {
    let lists = graph(&[(0, 1, u64::MAX - 1), (1, 2, 5), (0, 2, u64::MAX)], 3);
    let paths = search(&lists, 0, &vec![0; 3]);
    assert_eq!(paths.dist, vec![0, u64::MAX - 1, UNREACHED]);
}
