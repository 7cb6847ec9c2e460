//! Cliques of an undirected graph: the triangles that hold a node with a
//! given initial, and a largest clique by the Bron-Kerbosch recursion.
//!
//! The nodes are the numbers below the length of the adjacency lists; list
//! `u` holds the neighbours of node `u`.

use crate::arith::{fits, one_if};
use vstd::arithmetic::overflow::CheckedU64;
use vstd::prelude::*;
use vstd::set_lib::lemma_len_subset;

verus! {

/// The adjacency lists as sequences.
pub open spec fn neighbour_lists(graph: Seq<Vec<usize>>) -> Seq<Seq<usize>> {
    graph.map_values(|list: Vec<usize>| list@)
}

/// `v` is listed as a neighbour of `u`.
pub open spec fn adjacent(g: Seq<Seq<usize>>, u: usize, v: usize) -> bool {
    u < g.len() && g[u as int].contains(v)
}

/// The lists name nodes of the graph only, and `v` is a neighbour of `u`
/// exactly where `u` is one of `v`.
pub open spec fn undirected(g: Seq<Seq<usize>>) -> bool {
    &&& forall|u: int, k: int|
        0 <= u < g.len() && 0 <= k < g[u].len() ==> (#[trigger] g[u][k]) < g.len()
    &&& forall|u: usize, v: usize| #[trigger] adjacent(g, u, v) ==> adjacent(g, v, u)
}

/// Any two different nodes of the set are adjacent.
pub open spec fn is_clique(g: Seq<Seq<usize>>, nodes: Set<usize>) -> bool {
    forall|u: usize, v: usize|
        nodes.contains(u) && nodes.contains(v) && u != v ==> #[trigger] adjacent(g, u, v)
}

/// No node outside the set is adjacent to every node of the set.
pub open spec fn is_maximal(g: Seq<Seq<usize>>, nodes: Set<usize>) -> bool {
    forall|w: usize|
        w < g.len() && !nodes.contains(w) ==> exists|u: usize|
            nodes.contains(u) && !#[trigger] adjacent(g, w, u)
}

/// No clique of the graph has more nodes than `size`.
pub open spec fn none_larger(g: Seq<Seq<usize>>, size: nat) -> bool {
    forall|other: Set<usize>|
        other.finite() && #[trigger] is_clique(g, other) && (forall|x: usize|
            other.contains(x) ==> x < g.len()) ==> other.len() <= size
}

/// A clique that no clique of the graph exceeds in size cannot be extended:
/// no node outside it is adjacent to all of its nodes.
pub proof fn lemma_largest_is_maximal(g: Seq<Seq<usize>>, nodes: Set<usize>)
    requires
        undirected(g),
        nodes.finite(),
        is_clique(g, nodes),
        forall|x: usize| nodes.contains(x) ==> x < g.len(),
        none_larger(g, nodes.len()),
    ensures
        is_maximal(g, nodes),
{
    assert forall|w: usize| w < g.len() && !nodes.contains(w) implies exists|u: usize|
        nodes.contains(u) && !#[trigger] adjacent(g, w, u) by {
        if forall|u: usize| nodes.contains(u) ==> #[trigger] adjacent(g, w, u) {
            let larger = nodes.insert(w);
            assert forall|u: usize, v: usize|
                larger.contains(u) && larger.contains(v) && u != v implies #[trigger] adjacent(
                g,
                u,
                v,
            ) by {
                if u == w {
                    assert(adjacent(g, w, v));
                } else if v == w {
                    assert(adjacent(g, w, u));
                }
            }
            assert(is_clique(g, larger));
            assert(larger.len() == nodes.len() + 1);
            assert(false);
        }
    }
}

fn list_has(list: &Vec<usize>, x: usize) -> (found: bool)
    ensures
        found == list@.contains(x),
{
    let mut i: usize = 0;
    while i < list.len()
        invariant
            i <= list.len(),
            forall|j: int| 0 <= j < i ==> list[j] != x,
        decreases list.len() - i,
    {
        if list[i] == x {
            return true;
        }
        i += 1;
    }
    false
}

/// The entries of `list` from place `from` on that `among` holds too.
fn common(list: &Vec<usize>, from: usize, among: &Vec<usize>) -> (kept: Vec<usize>)
    requires
        from <= list.len(),
    ensures
        kept.len() <= list.len() - from,
        forall|x: usize|
            kept@.contains(x) <==> among@.contains(x) && exists|j: int|
                from <= j < list.len() && #[trigger] list[j] == x,
        list@.no_duplicates() ==> kept@.no_duplicates(),
{
    let mut kept: Vec<usize> = Vec::new();
    let mut i: usize = from;
    while i < list.len()
        invariant
            from <= i <= list.len(),
            kept.len() <= i - from,
            forall|x: usize|
                kept@.contains(x) <==> among@.contains(x) && exists|j: int|
                    from <= j < i && #[trigger] list[j] == x,
            list@.no_duplicates() ==> kept@.no_duplicates(),
        decreases list.len() - i,
    {
        let ghost before = kept@;
        if list_has(among, list[i]) {
            kept.push(list[i]);
            proof {
                assert(kept@[before.len() as int] == list[i as int]);
                assert forall|x: usize| kept@.contains(x) <==> among@.contains(x) && exists|j: int|
                    from <= j < i + 1 && #[trigger] list[j] == x by {
                    if before.contains(x) {
                        let k = choose|k: int| 0 <= k < before.len() && before[k] == x;
                        assert(kept@[k] == x);
                    }
                    if kept@.contains(x) && x != list[i as int] {
                        let k = choose|k: int| 0 <= k < kept@.len() && kept@[k] == x;
                        assert(before[k] == x);
                    }
                }
                if list@.no_duplicates() {
                    assert(!before.contains(list[i as int]));
                    assert forall|a: int, b: int|
                        0 <= a < kept@.len() && 0 <= b < kept@.len() && a != b implies kept@[a]
                        != kept@[b] by {
                        if a < before.len() {
                            assert(before.contains(kept@[a]));
                        }
                        if b < before.len() {
                            assert(before.contains(kept@[b]));
                        }
                    }
                }
            }
        }
        i += 1;
    }
    kept
}

fn copy_with(list: &Vec<usize>, x: usize) -> (longer: Vec<usize>)
    ensures
        longer@ == list@.push(x),
{
    let mut longer: Vec<usize> = Vec::new();
    let mut j: usize = 0;
    while j < list.len()
        invariant
            j <= list.len(),
            longer@ == list@.take(j as int),
        decreases list.len() - j,
    {
        longer.push(list[j]);
        assert(list@.take(j + 1) =~= list@.take(j as int).push(list[j as int]));
        j += 1;
    }
    assert(list@.take(list.len() as int) =~= list@);
    longer.push(x);
    longer
}

/// What the recursion asks of its arguments: the current clique is one, the
/// candidates are nodes outside it that are adjacent to all of it, and
/// neither list names a node twice.
pub open spec fn search_state(g: Seq<Seq<usize>>, current: Seq<usize>, potential: Seq<usize>) -> bool {
    &&& undirected(g)
    &&& current.no_duplicates()
    &&& potential.no_duplicates()
    &&& is_clique(g, current.to_set())
    &&& forall|i: int| 0 <= i < current.len() ==> (#[trigger] current[i]) < g.len()
    &&& forall|i: int| 0 <= i < potential.len() ==> (#[trigger] potential[i]) < g.len()
    &&& forall|i: int, j: int|
        0 <= i < current.len() && 0 <= j < potential.len() ==> (#[trigger] current[i]) != (
        #[trigger] potential[j]) && adjacent(g, current[i], potential[j])
}

/// `other` is a clique that holds all of `current` and, besides, candidates
/// only.
pub open spec fn extends(
    g: Seq<Seq<usize>>,
    current: Seq<usize>,
    potential: Seq<usize>,
    other: Set<usize>,
) -> bool {
    &&& other.finite()
    &&& is_clique(g, other)
    &&& forall|x: usize| current.contains(x) ==> other.contains(x)
    &&& forall|x: usize| other.contains(x) ==> current.contains(x) || potential.contains(x)
}

/// `other` holds one of the first `upto` candidates.
pub open spec fn uses_early(potential: Seq<usize>, upto: int, other: Set<usize>) -> bool {
    exists|j: int| 0 <= j < upto && j < potential.len() && other.contains(#[trigger] potential[j])
}

/// A largest clique among those that hold the whole current clique and,
/// besides, candidates only.
///
/// For each candidate in turn the recursion looks, with the candidate added
/// to the clique, at the later candidates and the excluded nodes that are
/// its neighbours, and then moves the candidate to the excluded nodes. The
/// largest clique seen is returned; where no candidate extends the current
/// clique, that is the current clique itself.
pub fn bron_kerbosch(
    graph: &Vec<Vec<usize>>,
    current_clique: &Vec<usize>,
    potential_nodes: &Vec<usize>,
    excluded_nodes: &Vec<usize>,
) -> (best: Vec<usize>)
    requires
        search_state(neighbour_lists(graph@), current_clique@, potential_nodes@),
    ensures
        best@.no_duplicates(),
        is_clique(neighbour_lists(graph@), best@.to_set()),
        forall|x: usize|
            best@.contains(x) ==> current_clique@.contains(x) || potential_nodes@.contains(x),
        forall|x: usize| current_clique@.contains(x) ==> best@.contains(x),
        forall|other: Set<usize>| #[trigger]
            extends(neighbour_lists(graph@), current_clique@, potential_nodes@, other)
                ==> other.len() <= best.len(),
    decreases potential_nodes.len(),
{
    let ghost g = neighbour_lists(graph@);
    let ghost current = current_clique@;
    let ghost potential = potential_nodes@;
    let mut best = current_clique.clone();
    assert(best@ == current);
    if potential_nodes.len() == 0 && excluded_nodes.len() == 0 {
        proof {
            lemma_without_candidates(g, current, potential, potential.len() as int);
        }
        return best;
    }
    let mut excluded = excluded_nodes.clone();
    let mut i: usize = 0;
    while i < potential_nodes.len()
        invariant
            i <= potential_nodes.len(),
            g == neighbour_lists(graph@),
            current == current_clique@,
            potential == potential_nodes@,
            search_state(g, current, potential),
            best@.no_duplicates(),
            is_clique(g, best@.to_set()),
            forall|x: usize| best@.contains(x) ==> current.contains(x) || potential.contains(x),
            forall|x: usize| current.contains(x) ==> best@.contains(x),
            current.len() <= best.len(),
            forall|other: Set<usize>| #[trigger]
                extends(g, current, potential, other) && uses_early(potential, i as int, other)
                    ==> other.len() <= best.len(),
        decreases potential_nodes.len() - i,
    {
        let node = potential_nodes[i];
        let new_clique = copy_with(current_clique, node);
        assert(g[node as int] == graph[node as int]@);
        let new_potential = common(potential_nodes, i + 1, &graph[node]);
        let new_excluded = common(&excluded, 0, &graph[node]);
        proof {
            lemma_step_state(g, current, potential, i as int, new_potential@);
        }
        let clique = bron_kerbosch(graph, &new_clique, &new_potential, &new_excluded);
        proof {
            assert forall|x: usize| clique@.contains(x) implies current.contains(x)
                || potential.contains(x) by {
                if new_clique@.contains(x) {
                    let k = choose|k: int| 0 <= k < new_clique@.len() && new_clique@[k] == x;
                    if k < current.len() {
                        assert(current[k] == x);
                    } else {
                        assert(potential[i as int] == x);
                    }
                }
            }
            assert forall|x: usize| current.contains(x) implies clique@.contains(x) by {
                let k = choose|k: int| 0 <= k < current.len() && current[k] == x;
                assert(new_clique@[k] == x);
            }
            assert(new_clique@[current.len() as int] == node);
            assert(new_clique@.contains(node));
            assert forall|other: Set<usize>| #[trigger]
                extends(g, current, potential, other) && uses_early(
                    potential,
                    i + 1,
                    other,
                ) implies other.len() <= if clique.len() > best.len() {
                clique.len()
            } else {
                best.len()
            } by {
                if !uses_early(potential, i as int, other) {
                    lemma_first_use(g, current, potential, i as int, new_potential@, other);
                    assert(extends(g, new_clique@, new_potential@, other));
                }
            }
            clique@.unique_seq_to_set();
            new_clique@.unique_seq_to_set();
        }
        if clique.len() > best.len() {
            best = clique;
        }
        excluded.push(node);
        i += 1;
    }
    proof {
        assert forall|other: Set<usize>| #[trigger]
            extends(g, current, potential, other) implies other.len() <= best.len() by {
            if !uses_early(potential, potential.len() as int, other) {
                lemma_without_candidates(g, current, potential, potential.len() as int);
                assert(other.len() <= current.len());
            }
        }
    }
    best
}

/// A clique that holds the current clique and none of the candidates is the
/// current clique.
proof fn lemma_without_candidates(g: Seq<Seq<usize>>, current: Seq<usize>, potential: Seq<usize>, upto: int)
    requires
        current.no_duplicates(),
        upto == potential.len(),
    ensures
        forall|other: Set<usize>| #[trigger]
            extends(g, current, potential, other) && !uses_early(potential, upto, other)
                ==> other.len() <= current.len(),
{
    assert forall|other: Set<usize>| #[trigger]
        extends(g, current, potential, other) && !uses_early(
            potential,
            upto,
            other,
        ) implies other.len() <= current.len() by {
        assert forall|x: usize| other.contains(x) implies current.to_set().contains(x) by {
            if potential.contains(x) {
                let j = choose|j: int| 0 <= j < potential.len() && potential[j] == x;
                assert(other.contains(potential[j]));
                assert(uses_early(potential, upto, other));
            }
        }
        vstd::seq_lib::seq_to_set_is_finite(current);
        lemma_len_subset(other, current.to_set());
        current.unique_seq_to_set();
    }
}

/// The arguments of the recursive call for candidate `i` are a search state
/// again.
proof fn lemma_step_state(
    g: Seq<Seq<usize>>,
    current: Seq<usize>,
    potential: Seq<usize>,
    i: int,
    later: Seq<usize>,
)
    requires
        search_state(g, current, potential),
        0 <= i < potential.len(),
        later.no_duplicates(),
        forall|x: usize|
            later.contains(x) <==> g[potential[i] as int].contains(x) && exists|j: int|
                i + 1 <= j < potential.len() && #[trigger] potential[j] == x,
    ensures
        search_state(g, current.push(potential[i]), later),
{
    let node = potential[i];
    let longer = current.push(node);
    assert forall|a: int, b: int|
        0 <= a < longer.len() && 0 <= b < longer.len() && a != b implies longer[a] != longer[b] by {
        if a < current.len() && b < current.len() {
        } else if a < current.len() {
            assert(current[a] != potential[i]);
        } else {
            assert(current[b] != potential[i]);
        }
    }
    assert forall|u: usize, v: usize|
        longer.to_set().contains(u) && longer.to_set().contains(v) && u != v implies #[trigger] adjacent(
        g,
        u,
        v,
    ) by {
        let a = choose|a: int| 0 <= a < longer.len() && longer[a] == u;
        let b = choose|b: int| 0 <= b < longer.len() && longer[b] == v;
        if a < current.len() && b < current.len() {
            assert(current.to_set().contains(u));
            assert(current.to_set().contains(v));
        } else if a < current.len() {
            assert(adjacent(g, current[a], potential[i]));
        } else {
            assert(adjacent(g, current[b], potential[i]));
            assert(adjacent(g, v, u));
        }
    }
    assert forall|k: int| 0 <= k < later.len() implies (#[trigger] later[k]) < g.len() by {
        assert(later.contains(later[k]));
    }
    assert forall|a: int, b: int| 0 <= a < longer.len() && 0 <= b < later.len() implies (
    #[trigger] longer[a]) != (#[trigger] later[b]) && adjacent(g, longer[a], later[b]) by {
        assert(later.contains(later[b]));
        let j = choose|j: int| i + 1 <= j < potential.len() && #[trigger] potential[j] == later[b];
        if a < current.len() {
            assert(adjacent(g, current[a], potential[j]));
        } else {
            assert(adjacent(g, node, later[b]));
        }
    }
}

/// A clique whose first candidate is candidate `i` lies within the
/// arguments of the recursive call for that candidate.
proof fn lemma_first_use(
    g: Seq<Seq<usize>>,
    current: Seq<usize>,
    potential: Seq<usize>,
    i: int,
    later: Seq<usize>,
    other: Set<usize>,
)
    requires
        search_state(g, current, potential),
        0 <= i < potential.len(),
        forall|x: usize|
            later.contains(x) <==> g[potential[i] as int].contains(x) && exists|j: int|
                i + 1 <= j < potential.len() && #[trigger] potential[j] == x,
        extends(g, current, potential, other),
        uses_early(potential, i + 1, other),
        !uses_early(potential, i, other),
    ensures
        extends(g, current.push(potential[i]), later, other),
{
    let node = potential[i];
    let longer = current.push(node);
    let first = choose|j: int|
        0 <= j < i + 1 && j < potential.len() && other.contains(#[trigger] potential[j]);
    if first < i {
        assert(uses_early(potential, i, other));
    }
    assert(other.contains(node));
    assert forall|x: usize| longer.contains(x) implies other.contains(x) by {
        let k = choose|k: int| 0 <= k < longer.len() && longer[k] == x;
        if k < current.len() {
            assert(current.contains(x));
        }
    }
    assert forall|x: usize| other.contains(x) implies longer.contains(x) || later.contains(x) by {
        if current.contains(x) {
            let k = choose|k: int| 0 <= k < current.len() && current[k] == x;
            assert(longer[k] == x);
        } else {
            let j = choose|j: int| 0 <= j < potential.len() && potential[j] == x;
            if j < i {
                assert(other.contains(potential[j]));
                assert(uses_early(potential, i, other));
            } else if j == i {
                assert(longer[current.len() as int] == x);
            } else {
                assert(adjacent(g, node, x));
            }
        }
    }
}

/// A largest clique of the graph, by the Bron-Kerbosch recursion started
/// with no node chosen, every node a candidate and none excluded.
pub fn max_clique(graph: &Vec<Vec<usize>>) -> (best: Vec<usize>)
    requires
        undirected(neighbour_lists(graph@)),
    ensures
        best@.no_duplicates(),
        forall|i: int| 0 <= i < best.len() ==> best[i] < graph.len(),
        is_clique(neighbour_lists(graph@), best@.to_set()),
        none_larger(neighbour_lists(graph@), best@.to_set().len()),
        is_maximal(neighbour_lists(graph@), best@.to_set()),
{
    let ghost g = neighbour_lists(graph@);
    let mut all: Vec<usize> = Vec::new();
    let mut u: usize = 0;
    while u < graph.len()
        invariant
            u <= graph.len(),
            all.len() == u,
            forall|k: int| 0 <= k < u ==> all[k] == k,
        decreases graph.len() - u,
    {
        all.push(u);
        u += 1;
    }
    let none: Vec<usize> = Vec::new();
    let excluded: Vec<usize> = Vec::new();
    assert(none@.to_set() =~= Set::<usize>::empty());
    let best = bron_kerbosch(graph, &none, &all, &excluded);
    proof {
        best@.unique_seq_to_set();
        vstd::seq_lib::seq_to_set_is_finite(best@);
        assert forall|i: int| 0 <= i < best.len() implies best[i] < graph.len() by {
            assert(best@.contains(best[i]));
            let k = choose|k: int| 0 <= k < all@.len() && all@[k] == best[i];
        }
        assert forall|other: Set<usize>|
            other.finite() && #[trigger] is_clique(g, other) && (forall|x: usize|
                other.contains(x) ==> x < g.len()) implies other.len() <= best@.to_set().len() by {
            assert forall|x: usize| other.contains(x) implies all@.contains(x) by {
                assert(all@[x as int] == x);
            }
            assert(extends(g, none@, all@, other));
        }
        lemma_largest_is_maximal(g, best@.to_set());
    }
    best
}

/// The pairs of entries of the list at places `i < j`, for the places `i`
/// given and `j` below `upto`.
pub open spec fn pairs_with(list: Seq<usize>, i: int, upto: int) -> Seq<(usize, usize)>
    decreases upto - i,
{
    if upto <= i + 1 {
        seq![]
    } else {
        pairs_with(list, i, upto - 1).push((list[i], list[upto - 1]))
    }
}

/// All pairs of entries of the list at places `i < j`, for `i` below
/// `upto`, ordered by `i` and then by `j`.
pub open spec fn all_pairs(list: Seq<usize>, upto: int) -> Seq<(usize, usize)>
    decreases upto,
{
    if upto <= 0 {
        seq![]
    } else {
        all_pairs(list, upto - 1) + pairs_with(list, upto - 1, list.len() as int)
    }
}

/// Every pair of two entries of the list, the earlier entry first.
pub fn find_pairs(set: &Vec<usize>) -> (pairs: Vec<(usize, usize)>)
    ensures
        pairs@ == all_pairs(set@, set.len() as int),
{
    let mut pairs: Vec<(usize, usize)> = Vec::new();
    let mut i: usize = 0;
    while i < set.len()
        invariant
            i <= set.len(),
            pairs@ == all_pairs(set@, i as int),
        decreases set.len() - i,
    {
        let ghost before = pairs@;
        let mut j: usize = i + 1;
        while j < set.len()
            invariant
                i < j <= set.len(),
                pairs@ == before + pairs_with(set@, i as int, j as int),
            decreases set.len() - j,
        {
            pairs.push((set[i], set[j]));
            assert(pairs@ =~= before + pairs_with(set@, i as int, j + 1));
            j += 1;
        }
        i += 1;
    }
    pairs
}

/// The name of one of the three nodes starts with `letter`.
pub open spec fn has_initial(names: Seq<[char; 2]>, letter: char, a: int, b: int, c: int) -> bool {
    names[a][0] == letter || names[b][0] == letter || names[c][0] == letter
}

/// `a < b < c` are pairwise adjacent, and one of their names starts with
/// `letter`.
pub open spec fn is_triangle(
    g: Seq<Seq<usize>>,
    names: Seq<[char; 2]>,
    letter: char,
    a: int,
    b: int,
    c: int,
) -> bool {
    &&& 0 <= a < b < c < g.len()
    &&& adjacent(g, a as usize, b as usize)
    &&& adjacent(g, a as usize, c as usize)
    &&& adjacent(g, b as usize, c as usize)
    &&& has_initial(names, letter, a, b, c)
}

/// The number of triangles `a < b < c` for the given `a` and `b` and `c`
/// below `upto`.
pub open spec fn triangles_on(
    g: Seq<Seq<usize>>,
    names: Seq<[char; 2]>,
    letter: char,
    a: int,
    b: int,
    upto: int,
) -> int
    decreases upto - b,
{
    if upto <= b + 1 {
        0
    } else {
        triangles_on(g, names, letter, a, b, upto - 1) + one_if(
            is_triangle(g, names, letter, a, b, upto - 1),
        )
    }
}

/// The number of triangles `a < b < c` for the given `a` and `b` below
/// `upto`.
pub open spec fn triangles_at(
    g: Seq<Seq<usize>>,
    names: Seq<[char; 2]>,
    letter: char,
    a: int,
    upto: int,
) -> int
    decreases upto - a,
{
    if upto <= a + 1 {
        0
    } else {
        triangles_at(g, names, letter, a, upto - 1) + triangles_on(
            g,
            names,
            letter,
            a,
            upto - 1,
            g.len() as int,
        )
    }
}

/// The number of triangles whose smallest node is below `upto`.
pub open spec fn triangles(g: Seq<Seq<usize>>, names: Seq<[char; 2]>, letter: char, upto: int) -> int
    decreases upto,
{
    if upto <= 0 {
        0
    } else {
        triangles(g, names, letter, upto - 1) + triangles_at(
            g,
            names,
            letter,
            upto - 1,
            g.len() as int,
        )
    }
}

/// The number of sets of three pairwise adjacent nodes of which at least
/// one has a name that starts with `letter`. Each set is counted once, at
/// its nodes in rising order. `None` where the number does not fit in 64
/// bits.
pub fn count_triangles(graph: &Vec<Vec<usize>>, names: &Vec<[char; 2]>, letter: char) -> (count: Option<
    u64,
>)
    requires
        names.len() == graph.len(),
    ensures
        fits(count, triangles(neighbour_lists(graph@), names@, letter, graph.len() as int)),
{
    let ghost g = neighbour_lists(graph@);
    let n = graph.len();
    let mut count = CheckedU64::new(0);
    let mut a: usize = 0;
    while a < n
        invariant
            a <= n,
            n == graph.len(),
            names.len() == n,
            g == neighbour_lists(graph@),
            count@ == triangles(g, names@, letter, a as int),
        decreases n - a,
    {
        let mut at_a = CheckedU64::new(0);
        let mut b: usize = a + 1;
        while b < n
            invariant
                a < b <= n,
                n == graph.len(),
                names.len() == n,
                g == neighbour_lists(graph@),
                at_a@ == triangles_at(g, names@, letter, a as int, b as int),
            decreases n - b,
        {
            let mut on_b = CheckedU64::new(0);
            let joined = list_has(&graph[a], b);
            assert(g[a as int] == graph[a as int]@);
            assert(g[b as int] == graph[b as int]@);
            let mut c: usize = b + 1;
            while c < n
                invariant
                    a < b < c <= n,
                    n == graph.len(),
                    names.len() == n,
                    g == neighbour_lists(graph@),
                    joined == adjacent(g, a, b),
                    on_b@ == triangles_on(g, names@, letter, a as int, b as int, c as int),
                decreases n - c,
            {
                let initial = names[a][0] == letter || names[b][0] == letter || names[c][0]
                    == letter;
                if joined && initial && list_has(&graph[a], c) && list_has(&graph[b], c) {
                    on_b = on_b.add_value(1);
                }
                c += 1;
            }
            at_a = at_a.add_checked(&on_b);
            b += 1;
        }
        count = count.add_checked(&at_a);
        a += 1;
    }
    count.to_option()
}

} // verus!
