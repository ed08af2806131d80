//! The tree from which a layout starts: the vertex with the most
//! neighbours at its root, its neighbours around it, and each further
//! vertex fanned out from the vertex that reached it first.
//!
//! The tree is given as a list of placements in the order in which they
//! are made; the angles and distances that belong to a placement are the
//! caller's to work out.

use crate::graph::{edges_within, Edge, Graph};
use vstd::prelude::*;

verus! {

/// The vertices that `v` is joined to, once for each end of an edge at
/// `v`, in the order of the edges. An edge from `v` counts before an edge
/// to `v`.
pub open spec fn neighbours(edges: Seq<Edge>, v: int) -> Seq<usize>
    decreases edges.len(),
{
    if edges.len() == 0 {
        Seq::empty()
    } else {
        let e = edges.last();
        let from_v = if e.src == v {
            seq![e.trg]
        } else {
            Seq::empty()
        };
        let to_v = if e.trg == v {
            seq![e.src]
        } else {
            Seq::empty()
        };
        neighbours(edges.drop_last(), v) + from_v + to_v
    }
}

/// The rows of a nested vector as sequences.
pub open spec fn rows(adj: Seq<Vec<usize>>) -> Seq<Seq<usize>> {
    Seq::new(adj.len(), |v: int| adj[v]@)
}

/// The neighbours of each of the `n` vertices.
pub open spec fn adjacency(edges: Seq<Edge>, n: nat) -> Seq<Seq<usize>> {
    Seq::new(n, |v: int| neighbours(edges, v))
}

/// `v` is the first vertex among those with the most neighbours.
pub open spec fn is_root(adj: Seq<Seq<usize>>, v: int) -> bool {
    &&& 0 <= v < adj.len()
    &&& forall|u: int| 0 <= u < adj.len() ==> (#[trigger] adj[u]).len() <= adj[v].len()
    &&& forall|u: int| 0 <= u < v ==> (#[trigger] adj[u]).len() < adj[v].len()
}

/// Every neighbour is a vertex of the graph.
pub proof fn lemma_neighbours_within(edges: Seq<Edge>, n: int, v: int)
    requires
        edges_within(edges, n),
    ensures
        forall|j: int|
            0 <= j < neighbours(edges, v).len() ==> (#[trigger] neighbours(edges, v)[j]) < n,
    decreases edges.len(),
{
    if edges.len() > 0 {
        let e = edges.last();
        let earlier = edges.drop_last();
        assert(e.src < n && e.trg < n);
        assert forall|k: int| 0 <= k < earlier.len() implies (#[trigger] earlier[k]).src < n
            && earlier[k].trg < n by {
            assert(earlier[k] == edges[k]);
        }
        lemma_neighbours_within(earlier, n, v);
        let head = neighbours(earlier, v);
        assert forall|j: int| 0 <= j < neighbours(edges, v).len() implies (#[trigger] neighbours(
            edges,
            v,
        )[j]) < n by {
            if j < head.len() {
                assert(neighbours(edges, v)[j] == head[j]);
            }
        }
    }
}

/// The neighbours of every vertex of `graph`, by vertex id.
pub fn adjacency_lists(graph: &Graph) -> (adj: Vec<Vec<usize>>)
    requires
        graph.wf(),
    ensures
        rows(adj@) == adjacency(graph.edges@, graph.n as nat),
{
    let mut adj: Vec<Vec<usize>> = Vec::new();
    let mut v: usize = 0;
    while v < graph.n
        invariant
            v <= graph.n,
            adj@.len() == v,
            forall|u: int| 0 <= u < v ==> (#[trigger] adj@[u])@ == Seq::<usize>::empty(),
        decreases graph.n - v,
    {
        adj.push(Vec::new());
        v += 1;
    }
    let mut i: usize = 0;
    assert(graph.edges@.take(0) == Seq::<Edge>::empty());
    while i < graph.edges.len()
        invariant
            i <= graph.edges@.len(),
            graph.wf(),
            adj@.len() == graph.n,
            forall|u: int|
                0 <= u < graph.n ==> (#[trigger] adj@[u])@ == neighbours(
                    graph.edges@.take(i as int),
                    u,
                ),
        decreases graph.edges@.len() - i,
    {
        let e = graph.edges[i];
        let ghost before = adj@;
        proof {
            let next = graph.edges@.take(i + 1);
            assert(next.drop_last() == graph.edges@.take(i as int));
            assert(next.last() == e);
        }
        adj[e.src].push(e.trg);
        adj[e.trg].push(e.src);
        proof {
            assert forall|u: int| 0 <= u < graph.n implies (#[trigger] adj@[u])@ == neighbours(
                graph.edges@.take(i + 1),
                u,
            ) by {
                assert(before[u]@ == neighbours(graph.edges@.take(i as int), u));
            }
        }
        i += 1;
    }
    assert(graph.edges@.take(graph.edges@.len() as int) == graph.edges@);
    assert(rows(adj@) =~= adjacency(graph.edges@, graph.n as nat));
    adj
}

/// The first vertex among those with the most neighbours.
pub fn most_connected(adj: &Vec<Vec<usize>>) -> (v0: usize)
    requires
        adj@.len() > 0,
    ensures
        is_root(rows(adj@), v0 as int),
{
    let mut v0: usize = 0;
    let mut max_edges: usize = 0;
    let mut i: usize = 0;
    while i < adj.len()
        invariant
            i <= adj@.len(),
            adj@.len() > 0,
            v0 < adj@.len(),
            i == 0 ==> v0 == 0 && max_edges == 0,
            i > 0 ==> v0 < i && max_edges == adj@[v0 as int]@.len(),
            forall|u: int| 0 <= u < i ==> (#[trigger] adj@[u])@.len() <= max_edges,
            forall|u: int| 0 <= u < v0 ==> (#[trigger] adj@[u])@.len() < max_edges,
        decreases adj@.len() - i,
    {
        if adj[i].len() > max_edges {
            v0 = i;
            max_edges = adj[i].len();
        }
        i += 1;
    }
    assert forall|u: int| 0 <= u < rows(adj@).len() implies (#[trigger] rows(adj@)[u]).len()
        <= rows(adj@)[v0 as int].len() by {
        assert(adj@[u]@.len() <= max_edges);
    }
    assert forall|u: int| 0 <= u < v0 implies (#[trigger] rows(adj@)[u]).len() < rows(
        adj@,
    )[v0 as int].len() by {
        assert(adj@[u]@.len() < max_edges);
    }
    v0
}

/// One step of a layout: `vertex` is placed from `parent`, as number
/// `step` of the `fan` vertices that are placed from it. Steps count from
/// one.
#[derive(Debug, Clone, Copy, PartialEq, Eq, Structural)]
pub struct Placement {
    pub vertex: usize,
    pub parent: usize,
    pub step: usize,
    pub fan: usize,
}

/// The number of vertices that are still unplaced.
pub open spec fn remaining(unplaced: Seq<bool>) -> nat
    decreases unplaced.len(),
{
    if unplaced.len() == 0 {
        0
    } else {
        remaining(unplaced.drop_last()) + if unplaced.last() {
            1nat
        } else {
            0nat
        }
    }
}

/// The test that a vertex is still unplaced.
pub open spec fn is_unplaced(unplaced: Seq<bool>) -> spec_fn(usize) -> bool {
    |c: usize| c < unplaced.len() && unplaced[c as int]
}

/// The vertices that are placed from `v`: its neighbours that are still
/// unplaced, in the order of the edges, a vertex as often as it is joined
/// to `v`.
pub open spec fn children_of(adj: Seq<Seq<usize>>, v: int, unplaced: Seq<bool>) -> Seq<usize> {
    adj[v].filter(is_unplaced(unplaced))
}

/// The unplaced vertices once those in `gone` have been taken.
pub open spec fn without(unplaced: Seq<bool>, gone: Seq<usize>) -> Seq<bool> {
    Seq::new(unplaced.len(), |i: int| unplaced[i] && !gone.contains(i as usize))
}

/// The placements made from `v` on, and the vertices that are unplaced
/// afterwards. The children of `v` are taken from the unplaced vertices
/// first, all at once; then each is placed and, before the next one, gives
/// places to its own children in the same way.
///
/// `depth` bounds how deep the walk may go. A walk never goes deeper than
/// there are unplaced vertices.
pub open spec fn visit(adj: Seq<Seq<usize>>, v: usize, unplaced: Seq<bool>, depth: nat) -> (
    Seq<Placement>,
    Seq<bool>,
)
    decreases depth, 0nat, 0nat,
{
    let children = children_of(adj, v as int, unplaced);
    if children.len() == 0 || depth == 0 {
        (Seq::empty(), unplaced)
    } else {
        fan_out(adj, v, children, 0, without(unplaced, children), (depth - 1) as nat)
    }
}

/// The placements of the children from number `from` on, each followed by
/// the placements below it.
pub open spec fn fan_out(
    adj: Seq<Seq<usize>>,
    parent: usize,
    children: Seq<usize>,
    from: nat,
    unplaced: Seq<bool>,
    depth: nat,
) -> (Seq<Placement>, Seq<bool>)
    decreases depth, 1nat, children.len() - from,
{
    if from >= children.len() {
        (Seq::empty(), unplaced)
    } else {
        let child = children[from as int];
        let here = Placement {
            vertex: child,
            parent,
            step: (from + 1) as usize,
            fan: children.len() as usize,
        };
        let below = visit(adj, child, unplaced, depth);
        let after = fan_out(adj, parent, children, from + 1, below.1, depth);
        (seq![here] + below.0 + after.0, after.1)
    }
}

/// Fewer flags set means fewer vertices unplaced.
pub proof fn lemma_remaining_shrinks(a: Seq<bool>, b: Seq<bool>)
    requires
        a.len() == b.len(),
        forall|i: int| 0 <= i < a.len() ==> (#[trigger] a[i] ==> b[i]),
    ensures
        remaining(a) <= remaining(b),
        forall|k: int| 0 <= k < a.len() && b[k] && !a[k] ==> remaining(a) < remaining(b),
    decreases a.len(),
{
    if a.len() > 0 {
        lemma_remaining_shrinks(a.drop_last(), b.drop_last());
        assert forall|k: int| 0 <= k < a.len() && b[k] && !a[k] implies remaining(a) < remaining(
            b,
        ) by {
            if k < a.len() - 1 {
                assert(b.drop_last()[k] && !a.drop_last()[k]);
            }
        }
    }
}

/// Every entry of the lists is a vertex.
pub open spec fn lists_within(adj: Seq<Seq<usize>>) -> bool {
    forall|v: int, j: int|
        0 <= v < adj.len() && 0 <= j < adj[v].len() ==> (#[trigger] adj[v][j]) < adj.len()
}

/// The neighbours of `parent` that are still unplaced.
fn unplaced_neighbours(adj: &Vec<Vec<usize>>, parent: usize, unplaced: &Vec<bool>) -> (children:
    Vec<usize>)
    requires
        parent < adj@.len(),
    ensures
        children@ == children_of(rows(adj@), parent as int, unplaced@),
{
    let row = &adj[parent];
    let mut children: Vec<usize> = Vec::new();
    let mut j: usize = 0;
    proof {
        reveal(Seq::filter);
        assert(row@.take(0).filter(is_unplaced(unplaced@)) == Seq::<usize>::empty());
    }
    while j < row.len()
        invariant
            j <= row@.len(),
            children@ == row@.take(j as int).filter(is_unplaced(unplaced@)),
        decreases row@.len() - j,
    {
        let c = row[j];
        proof {
            row@.lemma_take_succ_push(j as int);
            row@.take(j as int).lemma_filter_push(c, is_unplaced(unplaced@));
        }
        if c < unplaced.len() && unplaced[c] {
            children.push(c);
        }
        j += 1;
    }
    assert(row@.take(row@.len() as int) == row@);
    children
}

/// Takes the vertices in `gone` from the unplaced ones.
fn take_all(unplaced: &mut Vec<bool>, gone: &Vec<usize>)
    requires
        forall|a: int| 0 <= a < gone@.len() ==> (#[trigger] gone@[a]) < old(unplaced)@.len(),
    ensures
        final(unplaced)@ == without(old(unplaced)@, gone@),
{
    let mut a: usize = 0;
    let total = unplaced.len();
    assert(unplaced@ =~= without(old(unplaced)@, gone@.take(0)));
    while a < gone.len()
        invariant
            a <= gone@.len(),
            unplaced@.len() == old(unplaced)@.len(),
            unplaced@.len() == total,
            forall|b: int| 0 <= b < gone@.len() ==> (#[trigger] gone@[b]) < unplaced@.len(),
            unplaced@ == without(old(unplaced)@, gone@.take(a as int)),
        decreases gone@.len() - a,
    {
        let c = gone[a];
        unplaced.set(c, false);
        proof {
            let before = gone@.take(a as int);
            let now = gone@.take(a + 1);
            assert(now == before.push(c));
            assert forall|i: int| 0 <= i < unplaced@.len() implies unplaced@[i] == (old(
                unplaced,
            )@[i] && !now.contains(i as usize)) by {
                if before.contains(i as usize) {
                    let w = choose|w: int| 0 <= w < before.len() && before[w] == i as usize;
                    assert(now[w] == i as usize);
                }
                if i == c {
                    assert(now[a as int] == c);
                }
                if now.contains(i as usize) && i != c {
                    let w = choose|w: int| 0 <= w < now.len() && now[w] == i as usize;
                    assert(w < a);
                    assert(before[w] == i as usize);
                }
            }
            assert(unplaced@ =~= without(old(unplaced)@, now));
        }
        a += 1;
    }
    assert(gone@.take(gone@.len() as int) == gone@);
}

/// Places the unplaced neighbours of `parent` and, below each, whatever
/// can be reached through it.
fn calculate_loc(
    adj: &Vec<Vec<usize>>,
    parent: usize,
    unplaced: &mut Vec<bool>,
    placed: &mut Vec<Placement>,
    Ghost(depth): Ghost<nat>,
)
    requires
        parent < adj@.len(),
        old(unplaced)@.len() == adj@.len(),
        lists_within(rows(adj@)),
        remaining(old(unplaced)@) <= depth,
    ensures
        final(placed)@ == old(placed)@ + visit(
            rows(adj@),
            parent,
            old(unplaced)@,
            depth,
        ).0,
        final(unplaced)@ == visit(rows(adj@), parent, old(unplaced)@, depth).1,
        final(unplaced)@.len() == adj@.len(),
        remaining(final(unplaced)@) <= remaining(old(unplaced)@),
    decreases depth,
{
    let children = unplaced_neighbours(adj, parent, unplaced);
    let fan = children.len();
    if fan == 0 {
        assert(placed@ == old(placed)@ + Seq::<Placement>::empty());
        return ;
    }
    let ghost lists = rows(adj@);
    let ghost start = unplaced@;
    proof {
        broadcast use vstd::seq_lib::group_filter_ensures;

        assert forall|a: int| 0 <= a < children@.len() implies (#[trigger] children@[a])
            < unplaced@.len() && start[children@[a] as int] by {
            lists[parent as int].lemma_filter_pred(is_unplaced(start), a);
        }
    }
    take_all(unplaced, &children);
    let ghost taken = unplaced@;
    proof {
        lemma_remaining_shrinks(taken, start);
        let first = children@[0];
        assert(start[first as int] && !taken[first as int]);
    }
    let ghost below = (depth - 1) as nat;
    let mut a: usize = 0;
    while a < fan
        invariant
            a <= fan,
            fan == children@.len(),
            parent < adj@.len(),
            lists == rows(adj@),
            lists_within(lists),
            unplaced@.len() == adj@.len(),
            forall|b: int| 0 <= b < children@.len() ==> (#[trigger] children@[b]) < adj@.len(),
            remaining(unplaced@) <= remaining(taken),
            remaining(taken) <= below,
            below < depth,
            old(placed)@ + fan_out(lists, parent, children@, 0, taken, below).0 == placed@
                + fan_out(lists, parent, children@, a as nat, unplaced@, below).0,
            fan_out(lists, parent, children@, 0, taken, below).1 == fan_out(
                lists,
                parent,
                children@,
                a as nat,
                unplaced@,
                below,
            ).1,
        decreases fan - a,
    {
        let child = children[a];
        let here = Placement { vertex: child, parent, step: a + 1, fan };
        let ghost before = placed@;
        let ghost flags = unplaced@;
        placed.push(here);
        calculate_loc(adj, child, unplaced, placed, Ghost(below));
        proof {
            let down = visit(lists, child, flags, below);
            let after = fan_out(lists, parent, children@, (a + 1) as nat, down.1, below);
            assert(fan_out(lists, parent, children@, a as nat, flags, below).0 == seq![here]
                + down.0 + after.0);
            assert(placed@ == before.push(here) + down.0);
            assert(before + (seq![here] + down.0 + after.0) =~= before.push(here) + down.0
                + after.0);
        }
        a += 1;
    }
}

/// The tree from which a layout starts.
#[derive(Debug, Clone, PartialEq, Eq)]
pub struct Tree {
    /// The vertex in the middle.
    pub root: usize,
    /// The placements of the other vertices that the root reaches, in the
    /// order in which they are to be made.
    pub placed: Vec<Placement>,
}

/// All of `n` vertices are unplaced but `v`.
pub open spec fn all_but(n: nat, v: int) -> Seq<bool> {
    Seq::new(n, |i: int| i != v)
}

/// The placements of the walk that starts at `root` with every other
/// vertex unplaced.
pub open spec fn tree_walk(adj: Seq<Seq<usize>>, root: usize) -> Seq<Placement> {
    visit(adj, root, all_but(adj.len(), root as int), adj.len()).0
}

/// There are no more unplaced vertices than vertices.
pub proof fn lemma_remaining_bound(unplaced: Seq<bool>)
    ensures
        remaining(unplaced) <= unplaced.len(),
    decreases unplaced.len(),
{
    if unplaced.len() > 0 {
        lemma_remaining_bound(unplaced.drop_last());
    }
}

/// Builds the tree of `graph`: the root is the first vertex among those
/// with the most neighbours, and the walk from it places every vertex that
/// it reaches.
pub fn build_tree(graph: &Graph) -> (tree: Tree)
    requires
        graph.wf(),
        graph.n > 0,
    ensures
        lists_ok(adjacency(graph.edges@, graph.n as nat)),
        is_root(adjacency(graph.edges@, graph.n as nat), tree.root as int),
        tree.placed@ == tree_walk(adjacency(graph.edges@, graph.n as nat), tree.root),
{
    let adj = adjacency_lists(graph);
    let ghost lists = adjacency(graph.edges@, graph.n as nat);
    proof {
        assert forall|v: int, j: int|
            0 <= v < lists.len() && 0 <= j < lists[v].len() implies (#[trigger] lists[v][j])
            < lists.len() by {
            lemma_neighbours_within(graph.edges@, graph.n as int, v);
        }
        assert forall|v: int| 0 <= v < lists.len() implies (#[trigger] lists[v]).len()
            <= usize::MAX by {
            assert(lists[v] == adj@[v]@);
            assert(adj@[v].len() == adj@[v]@.len());
        }
    }
    let root = most_connected(&adj);
    let mut unplaced: Vec<bool> = Vec::new();
    let mut v: usize = 0;
    while v < graph.n
        invariant
            v <= graph.n,
            unplaced@.len() == v,
            forall|i: int| 0 <= i < v ==> (#[trigger] unplaced@[i]) == (i != root),
        decreases graph.n - v,
    {
        unplaced.push(v != root);
        v += 1;
    }
    assert(unplaced@ =~= all_but(graph.n as nat, root as int));
    proof {
        lemma_remaining_bound(unplaced@);
    }
    let mut placed: Vec<Placement> = Vec::new();
    calculate_loc(&adj, root, &mut unplaced, &mut placed, Ghost(graph.n as nat));
    Tree { root, placed }
}

/// Whether one of the placements places `v`.
pub open spec fn placed_in(placed: Seq<Placement>, v: int) -> bool {
    exists|k: int| 0 <= k < placed.len() && (#[trigger] placed[k]).vertex == v
}

/// Placement `k` is in order: it joins a vertex to one of its neighbours,
/// its step is one of its fan, and its parent is `start` or was placed
/// before.
pub open spec fn placement_ok(adj: Seq<Seq<usize>>, placed: Seq<Placement>, k: int, start: int) -> bool {
    let p = placed[k];
    &&& p.vertex < adj.len()
    &&& p.parent < adj.len()
    &&& adj[p.parent as int].contains(p.vertex)
    &&& 1 <= p.step <= p.fan
    &&& (p.parent == start || exists|j: int| 0 <= j < k && (#[trigger] placed[j]).vertex == p.parent)
}

/// None of the neighbours of `v` is unplaced.
pub open spec fn surrounded(adj: Seq<Seq<usize>>, v: int, unplaced: Seq<bool>) -> bool {
    forall|j: int| 0 <= j < adj[v].len() ==> !unplaced[(#[trigger] adj[v][j]) as int]
}

/// The walk from `start` is in order: it places unplaced vertices only,
/// each placement is in order, and it leaves no neighbour of a placed
/// vertex unplaced.
pub open spec fn walk_ok(
    adj: Seq<Seq<usize>>,
    start: int,
    before: Seq<bool>,
    placed: Seq<Placement>,
    after: Seq<bool>,
) -> bool {
    &&& after.len() == before.len()
    &&& forall|i: int| 0 <= i < after.len() ==> (#[trigger] after[i] ==> before[i])
    &&& forall|k: int| 0 <= k < placed.len() ==> placement_ok(adj, placed, k, start)
    &&& forall|k: int|
        0 <= k < placed.len() ==> surrounded(adj, (#[trigger] placed[k]).vertex as int, after)
}

/// The lists can be those of a graph: every entry is a vertex, and no list
/// is longer than a machine word counts.
pub open spec fn lists_ok(adj: Seq<Seq<usize>>) -> bool {
    &&& lists_within(adj)
    &&& adj.len() <= usize::MAX
    &&& forall|v: int| 0 <= v < adj.len() ==> (#[trigger] adj[v]).len() <= usize::MAX
}

/// Vertex `i` is unplaced before and not after.
pub open spec fn taken_by(before: Seq<bool>, after: Seq<bool>, i: int) -> bool {
    before[i] && !after[i]
}

/// Vertex `i` is one of the children from number `from` on.
pub open spec fn among_from(children: Seq<usize>, from: int, i: int) -> bool {
    exists|a: int| from <= a < children.len() && #[trigger] children[a] == i
}

/// An unplaced vertex counts.
pub proof fn lemma_remaining_positive(unplaced: Seq<bool>, v: int)
    requires
        0 <= v < unplaced.len(),
        unplaced[v],
    ensures
        remaining(unplaced) > 0,
    decreases unplaced.len(),
{
    if v < unplaced.len() - 1 {
        lemma_remaining_positive(unplaced.drop_last(), v);
    }
}

/// What a walk from `v` does: it is in order, it places exactly the
/// vertices that it takes from the unplaced ones, and it leaves no
/// neighbour of `v` unplaced.
pub proof fn lemma_visit(adj: Seq<Seq<usize>>, v: usize, unplaced: Seq<bool>, depth: nat)
    requires
        lists_ok(adj),
        v < adj.len(),
        unplaced.len() == adj.len(),
        remaining(unplaced) <= depth,
    ensures
        walk_ok(
            adj,
            v as int,
            unplaced,
            visit(adj, v, unplaced, depth).0,
            visit(adj, v, unplaced, depth).1,
        ),
        surrounded(adj, v as int, visit(adj, v, unplaced, depth).1),
        forall|i: int|
            0 <= i < adj.len() ==> (#[trigger] placed_in(visit(adj, v, unplaced, depth).0, i)
                <==> taken_by(unplaced, visit(adj, v, unplaced, depth).1, i)),
    decreases depth, 0nat, 0nat,
{
    broadcast use vstd::seq_lib::group_filter_ensures;

    let children = children_of(adj, v as int, unplaced);
    let row = adj[v as int];
    let wanted = is_unplaced(unplaced);
    assert forall|j: int| 0 <= j < row.len() && unplaced[row[j] as int] implies children.contains(
        row[j],
    ) by {
        assert(wanted(row[j]));
        row.lemma_filter_contains(wanted, j);
    }
    if children.len() == 0 {
        assert forall|j: int| 0 <= j < row.len() implies !unplaced[(#[trigger] row[j]) as int] by {
            if unplaced[row[j] as int] {
                assert(children.contains(row[j]));
            }
        }
    } else {
        assert forall|a: int| 0 <= a < children.len() implies (#[trigger] children[a]) < adj.len()
            && unplaced[children[a] as int] && row.contains(children[a]) by {
            row.lemma_filter_pred(wanted, a);
            assert(children.contains(children[a]));
            row.lemma_filter_contains_rev(wanted, children[a]);
        }
        let taken = without(unplaced, children);
        lemma_remaining_positive(unplaced, children[0] as int);
        lemma_remaining_shrinks(taken, unplaced);
        assert(unplaced[children[0] as int] && !taken[children[0] as int]);
        let below = (depth - 1) as nat;
        row.lemma_filter_len(wanted);
        lemma_fan_out(adj, v, children, 0, taken, below);
        let walk = fan_out(adj, v, children, 0, taken, below);
        assert forall|j: int| 0 <= j < row.len() implies !walk.1[(#[trigger] row[j]) as int] by {
            let c = row[j];
            if unplaced[c as int] {
                assert(children.contains(c));
                assert(!taken[c as int]);
            }
        }
        assert forall|i: int| 0 <= i < adj.len() implies (#[trigger] placed_in(walk.0, i)
            <==> taken_by(unplaced, walk.1, i)) by {
            if among_from(children, 0, i) {
                let a = choose|a: int| 0 <= a < children.len() && #[trigger] children[a] == i;
                assert(unplaced[children[a] as int]);
                assert(children.contains(i as usize));
                assert(!taken[i]);
            } else if unplaced[i] {
                if children.contains(i as usize) {
                    let a = choose|a: int| 0 <= a < children.len() && children[a] == i as usize;
                    assert(among_from(children, 0, i));
                }
                assert(taken[i]);
            }
        }
    }
}

/// What the walks from the children from number `from` on do, once the
/// children have been taken from the unplaced vertices: they are in
/// order, and they place these children and whatever else they take.
pub proof fn lemma_fan_out(
    adj: Seq<Seq<usize>>,
    parent: usize,
    children: Seq<usize>,
    from: nat,
    unplaced: Seq<bool>,
    depth: nat,
)
    requires
        lists_ok(adj),
        parent < adj.len(),
        unplaced.len() == adj.len(),
        remaining(unplaced) <= depth,
        from <= children.len() <= usize::MAX,
        forall|a: int|
            0 <= a < children.len() ==> (#[trigger] children[a]) < adj.len()
                && !unplaced[children[a] as int] && adj[parent as int].contains(children[a]),
    ensures
        walk_ok(
            adj,
            parent as int,
            unplaced,
            fan_out(adj, parent, children, from, unplaced, depth).0,
            fan_out(adj, parent, children, from, unplaced, depth).1,
        ),
        forall|i: int|
            0 <= i < adj.len() ==> (#[trigger] placed_in(
                fan_out(adj, parent, children, from, unplaced, depth).0,
                i,
            ) <==> taken_by(
                unplaced,
                fan_out(adj, parent, children, from, unplaced, depth).1,
                i,
            ) || among_from(children, from as int, i)),
    decreases depth, 1nat, children.len() - from,
{
    if from < children.len() {
        let child = children[from as int];
        let here = Placement {
            vertex: child,
            parent,
            step: (from + 1) as usize,
            fan: children.len() as usize,
        };
        let below = visit(adj, child, unplaced, depth);
        lemma_visit(adj, child, unplaced, depth);
        lemma_remaining_shrinks(below.1, unplaced);
        lemma_fan_out(adj, parent, children, from + 1, below.1, depth);
        let after = fan_out(adj, parent, children, from + 1, below.1, depth);
        let placed = seq![here] + below.0 + after.0;
        let out = after.1;
        assert(fan_out(adj, parent, children, from, unplaced, depth) == (placed, out));
        let n1 = below.0.len();
        assert forall|k: int| 0 <= k < placed.len() implies placement_ok(
            adj,
            placed,
            k,
            parent as int,
        ) && surrounded(adj, (#[trigger] placed[k]).vertex as int, out) by {
            if k == 0 {
                assert(placed[0] == here);
                assert(surrounded(adj, child as int, below.1));
            } else if k <= n1 {
                let e = below.0[k - 1];
                assert(placed[k] == e);
                assert(placement_ok(adj, below.0, k - 1, child as int));
                assert(surrounded(adj, e.vertex as int, below.1));
                if e.parent == child {
                    assert(placed[0].vertex == e.parent);
                } else {
                    let j = choose|j: int|
                        0 <= j < k - 1 && (#[trigger] below.0[j]).vertex == e.parent;
                    assert(placed[j + 1].vertex == e.parent);
                }
            } else {
                let e = after.0[k - 1 - n1];
                assert(placed[k] == e);
                assert(placement_ok(adj, after.0, k - 1 - n1, parent as int));
                if e.parent != parent {
                    let j = choose|j: int|
                        0 <= j < k - 1 - n1 && (#[trigger] after.0[j]).vertex == e.parent;
                    assert(placed[j + 1 + n1].vertex == e.parent);
                }
            }
        }
        assert forall|i: int| 0 <= i < adj.len() implies (#[trigger] placed_in(placed, i)
            <==> taken_by(unplaced, out, i) || among_from(children, from as int, i)) by {
            let by_walk = placed_in(below.0, i);
            let by_rest = placed_in(after.0, i);
            assert(by_walk <==> taken_by(unplaced, below.1, i));
            assert(by_rest <==> taken_by(below.1, out, i) || among_from(
                children,
                (from + 1) as int,
                i,
            ));
            if placed_in(placed, i) {
                let k = choose|k: int| 0 <= k < placed.len() && (#[trigger] placed[k]).vertex == i;
                if k == 0 {
                    assert(children[from as int] == i);
                } else if k <= n1 {
                    assert(below.0[k - 1].vertex == i);
                } else {
                    assert(after.0[k - 1 - n1].vertex == i);
                    if among_from(children, (from + 1) as int, i) {
                        let a = choose|a: int|
                            from + 1 <= a < children.len() && #[trigger] children[a] == i;
                        assert(children[a] == i);
                    }
                }
            }
            if among_from(children, from as int, i) {
                let a = choose|a: int| from <= a < children.len() && #[trigger] children[a] == i;
                if a == from {
                    assert(placed[0].vertex == i);
                } else {
                    assert(children[a] == i);
                    assert(among_from(children, (from + 1) as int, i));
                }
            }
            if by_walk {
                let k = choose|k: int| 0 <= k < below.0.len() && (#[trigger] below.0[k]).vertex == i;
                assert(placed[k + 1].vertex == i);
            }
            if by_rest {
                let k = choose|k: int| 0 <= k < after.0.len() && (#[trigger] after.0[k]).vertex == i;
                assert(placed[k + 1 + n1].vertex == i);
            }
        }
    }
}

/// The depth that a walk is allowed never runs out where it is no less
/// than the number of unplaced vertices: with a greater depth the walk is
/// the same.
pub proof fn lemma_visit_depth(
    adj: Seq<Seq<usize>>,
    v: usize,
    unplaced: Seq<bool>,
    depth: nat,
    more: nat,
)
    requires
        lists_ok(adj),
        v < adj.len(),
        unplaced.len() == adj.len(),
        remaining(unplaced) <= depth <= more,
    ensures
        visit(adj, v, unplaced, more) == visit(adj, v, unplaced, depth),
    decreases depth, 0nat, 0nat,
{
    broadcast use vstd::seq_lib::group_filter_ensures;

    let children = children_of(adj, v as int, unplaced);
    let row = adj[v as int];
    let wanted = is_unplaced(unplaced);
    if children.len() > 0 {
        assert forall|a: int| 0 <= a < children.len() implies (#[trigger] children[a]) < adj.len()
            && unplaced[children[a] as int] && row.contains(children[a]) by {
            row.lemma_filter_pred(wanted, a);
            assert(children.contains(children[a]));
            row.lemma_filter_contains_rev(wanted, children[a]);
        }
        let taken = without(unplaced, children);
        lemma_remaining_positive(unplaced, children[0] as int);
        lemma_remaining_shrinks(taken, unplaced);
        assert(unplaced[children[0] as int] && !taken[children[0] as int]);
        row.lemma_filter_len(wanted);
        lemma_fan_out_depth(adj, v, children, 0, taken, (depth - 1) as nat, (more - 1) as nat);
    }
}

/// The same for the walks from the children of a vertex.
pub proof fn lemma_fan_out_depth(
    adj: Seq<Seq<usize>>,
    parent: usize,
    children: Seq<usize>,
    from: nat,
    unplaced: Seq<bool>,
    depth: nat,
    more: nat,
)
    requires
        lists_ok(adj),
        parent < adj.len(),
        unplaced.len() == adj.len(),
        remaining(unplaced) <= depth <= more,
        from <= children.len() <= usize::MAX,
        forall|a: int|
            0 <= a < children.len() ==> (#[trigger] children[a]) < adj.len()
                && !unplaced[children[a] as int] && adj[parent as int].contains(children[a]),
    ensures
        fan_out(adj, parent, children, from, unplaced, more) == fan_out(
            adj,
            parent,
            children,
            from,
            unplaced,
            depth,
        ),
    decreases depth, 1nat, children.len() - from,
{
    if from < children.len() {
        let child = children[from as int];
        lemma_visit_depth(adj, child, unplaced, depth, more);
        lemma_visit(adj, child, unplaced, depth);
        let below = visit(adj, child, unplaced, depth);
        lemma_remaining_shrinks(below.1, unplaced);
        lemma_fan_out_depth(adj, parent, children, from + 1, below.1, depth, more);
    }
}

/// The depth that the walk of a tree is allowed never runs out: with a
/// greater depth the tree is the same.
pub proof fn lemma_tree_walk_depth(adj: Seq<Seq<usize>>, root: usize, more: nat)
    requires
        lists_ok(adj),
        root < adj.len(),
        more >= adj.len(),
    ensures
        visit(adj, root, all_but(adj.len(), root as int), more).0 == tree_walk(adj, root),
{
    lemma_remaining_bound(all_but(adj.len(), root as int));
    lemma_visit_depth(adj, root, all_but(adj.len(), root as int), adj.len(), more);
}

/// A way from `root`: vertices of which the first is `root` and each
/// further one is a neighbour of the one before it.
pub open spec fn is_way(adj: Seq<Seq<usize>>, root: int, way: Seq<usize>) -> bool {
    &&& way.len() > 0
    &&& way[0] == root
    &&& forall|i: int| 0 <= i < way.len() ==> (#[trigger] way[i]) < adj.len()
    &&& forall|i: int|
        0 <= i < way.len() - 1 ==> adj[(#[trigger] way[i]) as int].contains(way[i + 1])
}

/// The placements of a tree are in order: each joins a vertex other than
/// the root to one of its neighbours, which is the root or was placed
/// before, and its step is one of its fan.
pub proof fn lemma_tree_in_order(adj: Seq<Seq<usize>>, root: usize)
    requires
        lists_ok(adj),
        root < adj.len(),
    ensures
        forall|k: int|
            0 <= k < tree_walk(adj, root).len() ==> placement_ok(
                adj,
                tree_walk(adj, root),
                k,
                root as int,
            ),
        forall|k: int|
            0 <= k < tree_walk(adj, root).len() ==> (#[trigger] tree_walk(adj, root)[k]).vertex
                != root,
{
    let start = all_but(adj.len(), root as int);
    lemma_remaining_bound(start);
    lemma_visit(adj, root, start, adj.len());
    let placed = tree_walk(adj, root);
    assert forall|k: int| 0 <= k < placed.len() implies (#[trigger] placed[k]).vertex != root by {
        assert(placement_ok(adj, placed, k, root as int));
        assert(placed_in(placed, placed[k].vertex as int));
    }
}

/// A tree places every vertex that a way leads to from its root.
pub proof fn lemma_tree_reaches(adj: Seq<Seq<usize>>, root: usize, way: Seq<usize>)
    requires
        lists_ok(adj),
        root < adj.len(),
        is_way(adj, root as int, way),
    ensures
        way.last() == root || placed_in(tree_walk(adj, root), way.last() as int),
    decreases way.len(),
{
    let start = all_but(adj.len(), root as int);
    lemma_remaining_bound(start);
    lemma_visit(adj, root, start, adj.len());
    let walk = visit(adj, root, start, adj.len());
    if way.len() > 1 {
        let before = way.drop_last();
        assert(is_way(adj, root as int, before)) by {
            assert forall|i: int| 0 <= i < before.len() - 1 implies adj[(
            #[trigger] before[i]) as int].contains(before[i + 1]) by {
                assert(adj[way[i] as int].contains(way[i + 1]));
            }
        }
        lemma_tree_reaches(adj, root, before);
        let from = before.last();
        let to = way.last();
        assert(from == way[way.len() - 2]);
        assert(adj[way[way.len() - 2] as int].contains(way[way.len() - 2 + 1]));
        assert(surrounded(adj, from as int, walk.1)) by {
            if from != root {
                let k = choose|k: int|
                    0 <= k < walk.0.len() && (#[trigger] walk.0[k]).vertex == from as int;
                assert(surrounded(adj, walk.0[k].vertex as int, walk.1));
            }
        }
        let j = choose|j: int| 0 <= j < adj[from as int].len() && adj[from as int][j] == to;
        assert(!walk.1[adj[from as int][j] as int]);
        if to != root {
            assert(taken_by(start, walk.1, to as int));
            assert(placed_in(walk.0, to as int));
        }
    }
}

/// A tree places no vertex but those that a way leads to from its root:
/// for each placement there is such a way.
pub proof fn lemma_tree_places_reached(adj: Seq<Seq<usize>>, root: usize, k: int) -> (way: Seq<usize>)
    requires
        lists_ok(adj),
        root < adj.len(),
        0 <= k < tree_walk(adj, root).len(),
    ensures
        is_way(adj, root as int, way),
        way.last() == tree_walk(adj, root)[k].vertex,
    decreases k,
{
    lemma_tree_in_order(adj, root);
    let placed = tree_walk(adj, root);
    let p = placed[k];
    assert(placement_ok(adj, placed, k, root as int));
    let to_parent = if p.parent == root {
        seq![root]
    } else {
        let j = choose|j: int| 0 <= j < k && (#[trigger] placed[j]).vertex == p.parent;
        lemma_tree_places_reached(adj, root, j)
    };
    let way = to_parent.push(p.vertex);
    assert forall|i: int| 0 <= i < way.len() - 1 implies adj[(#[trigger] way[i]) as int].contains(
        way[i + 1],
    ) by {
        if i < to_parent.len() - 1 {
            assert(adj[to_parent[i] as int].contains(to_parent[i + 1]));
        }
    }
    way
}

} // verus!
