use puzzle_kernels::cliques::{bron_kerbosch, count_triangles, find_pairs, max_clique};

const LINKS: &str = "kh-tc qp-kh de-cg ka-co yn-aq qp-ub cg-tb vc-aq tb-ka wh-tc yn-cg kh-ub \
                     ta-co de-co tc-td tb-wq wh-td ta-ka td-qp aq-cg wq-ub ub-vc de-ta wq-aq \
                     wq-vc wh-yn ka-de kh-ta co-tc wh-qp tb-vc td-yn";

fn network(text: &str) -> (Vec<[char; 2]>, Vec<Vec<usize>>) {
    let mut names: Vec<[char; 2]> = Vec::new();
    let mut graph: Vec<Vec<usize>> = Vec::new();
    for link in text.split_whitespace() {
        let ends: Vec<usize> = link
            .split('-')
            .map(|name| {
                let chars: Vec<char> = name.chars().collect();
                let name = [chars[0], chars[1]];
                match names.iter().position(|n| *n == name) {
                    Some(at) => at,
                    None => {
                        names.push(name);
                        graph.push(Vec::new());
                        names.len() - 1
                    }
                }
            })
            .collect();
        if !graph[ends[0]].contains(&ends[1]) {
            graph[ends[0]].push(ends[1]);
            graph[ends[1]].push(ends[0]);
        }
    }
    (names, graph)
}

fn named(names: &[[char; 2]], nodes: &[usize]) -> Vec<String> {
    let mut list: Vec<String> = nodes.iter().map(|n| names[*n].iter().collect()).collect();
    list.sort();
    list
}

#[test]
fn sample_triangles() {
    let (names, graph) = network(LINKS);
    assert_eq!(count_triangles(&graph, &names, 't'), Some(7));
    assert_eq!(count_triangles(&graph, &names, 'z'), Some(0));
    let all: u64 = ['a', 'c', 'd', 'k', 'q', 't', 'u', 'v', 'w', 'y']
        .iter()
        .map(|l| count_triangles(&graph, &names, *l).unwrap())
        .sum();
    assert!(all >= 12);
}

#[test]
fn sample_largest_clique() {
    let (names, graph) = network(LINKS);
    let best = max_clique(&graph);
    assert_eq!(named(&names, &best), vec!["co", "de", "ka", "ta"]);
}

#[test]
fn returned_clique_is_one_and_cannot_grow() {
    let (_, graph) = network(LINKS);
    let best = max_clique(&graph);
    for u in &best {
        for v in &best {
            assert!(u == v || graph[*u].contains(v));
        }
    }
    for w in 0..graph.len() {
        if !best.contains(&w) {
            assert!(best.iter().any(|u| !graph[w].contains(u)));
        }
    }
}

#[test]
fn recursion_extends_the_current_clique_by_candidates_only() {
    let graph = vec![vec![1, 2, 3], vec![0, 2], vec![0, 1], vec![0]];
    let mut from_three = bron_kerbosch(&graph, &vec![3], &vec![0], &vec![]);
    from_three.sort();
    assert_eq!(from_three, vec![0, 3]);
    assert_eq!(bron_kerbosch(&graph, &vec![1], &vec![], &vec![0]), vec![1]);
    let mut whole = max_clique(&graph);
    whole.sort();
    assert_eq!(whole, vec![0, 1, 2]);
}

#[test]
fn graphs_without_edges_or_nodes() {
    assert_eq!(max_clique(&vec![]), Vec::<usize>::new());
    assert_eq!(max_clique(&vec![vec![], vec![]]).len(), 1);
    assert_eq!(count_triangles(&vec![], &vec![], 't'), Some(0));
}

#[test]
fn pairs_in_order() {
    assert_eq!(find_pairs(&vec![7, 8, 9]), vec![(7, 8), (7, 9), (8, 9)]);
    assert_eq!(find_pairs(&vec![7]), vec![]);
    assert_eq!(find_pairs(&vec![]), vec![]);
}
