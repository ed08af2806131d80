//! What the part of a graph around a vertex holds: the edges of every
//! vertex that few enough steps lead to, each once, and nothing else.

use crate::graph::{edges_within, grow, vertex_id, with_edge, with_vertex, Edge};
use vstd::prelude::*;

verus! {

/// Names and edges, as a graph holds them.
pub type Content = (Seq<Seq<char>>, Seq<Edge>);

/// The edge has `d` at one of its ends.
pub open spec fn is_at(e: Edge, d: int) -> bool {
    e.src == d || e.trg == d
}

/// The end of an edge at `d` that a walk from `d` goes on from.
pub open spec fn other_end(e: Edge, d: int) -> int {
    if e.src == d {
        e.trg as int
    } else {
        e.src as int
    }
}

/// At most `steps` steps along edges, in either direction, lead from `d`
/// to `x`.
pub open spec fn near(edges: Seq<Edge>, d: int, x: int, steps: nat) -> bool
    decreases steps,
{
    x == d || (steps > 0 && exists|k: int|
        0 <= k < edges.len() && is_at(#[trigger] edges[k], d) && near(
            edges,
            other_end(edges[k], d),
            x,
            (steps - 1) as nat,
        ))
}

/// The content can be that of a graph: no name twice, no more names than
/// a machine word counts, and edges between the named vertices only.
pub open spec fn content_ok(g: Content) -> bool {
    &&& g.0.no_duplicates()
    &&& g.0.len() <= usize::MAX
    &&& edges_within(g.1, g.0.len() as int)
}

/// `later` holds what `earlier` holds, at the same places, and maybe more.
pub open spec fn extends(earlier: Content, later: Content) -> bool {
    &&& earlier.0.len() <= later.0.len()
    &&& forall|i: int| 0 <= i < earlier.0.len() ==> #[trigger] later.0[i] == earlier.0[i]
    &&& earlier.1.len() <= later.1.len()
    &&& forall|i: int| 0 <= i < earlier.1.len() ==> #[trigger] later.1[i] == earlier.1[i]
}

/// The copy of an edge between the vertices called `src` and `trg`.
pub open spec fn copy_of(g: Content, src: Seq<char>, trg: Seq<char>) -> Edge {
    Edge { src: g.0.index_of(src) as usize, trg: g.0.index_of(trg) as usize }
}

/// The content holds the copy of an edge between the vertices called
/// `src` and `trg`, and both vertices.
pub open spec fn holds_copy(g: Content, src: Seq<char>, trg: Seq<char>) -> bool {
    &&& g.0.contains(src)
    &&& g.0.contains(trg)
    &&& g.1.contains(copy_of(g, src, trg))
}

/// A walk only ever adds: what was copied before stays where it was.
pub proof fn lemma_grow_extends(
    names: Seq<Seq<char>>,
    edges: Seq<Edge>,
    d: int,
    hops: nat,
    from: nat,
    copied: Content,
)
    ensures
        extends(copied, grow(names, edges, d, hops, from, copied)),
    decreases hops, edges.len() - from,
{
    if hops == 0 || from >= edges.len() {
    } else {
        let e = edges[from as int];
        if e.src == d || e.trg == d {
            let with_src = with_vertex(copied.0, names[e.src as int]);
            let s = vertex_id(copied.0, names[e.src as int]);
            let with_both = with_vertex(with_src, names[e.trg as int]);
            let t = vertex_id(with_src, names[e.trg as int]);
            let joined = with_edge(copied.1, Edge { src: s as usize, trg: t as usize });
            let other = if e.src == d {
                e.trg
            } else {
                e.src
            };
            let beyond = grow(names, edges, other as int, (hops - 1) as nat, 0, (with_both, joined));
            lemma_grow_extends(names, edges, other as int, (hops - 1) as nat, 0, (with_both, joined));
            lemma_grow_extends(names, edges, d, hops, from + 1, beyond);
            assert(extends(copied, (with_both, joined)));
        } else {
            lemma_grow_extends(names, edges, d, hops, from + 1, copied);
        }
    }
}

/// What a content holds, a content that extends it holds too.
pub proof fn lemma_copy_stays(earlier: Content, later: Content, src: Seq<char>, trg: Seq<char>)
    requires
        extends(earlier, later),
        later.0.no_duplicates(),
        holds_copy(earlier, src, trg),
    ensures
        holds_copy(later, src, trg),
        copy_of(later, src, trg) == copy_of(earlier, src, trg),
{
    let i = earlier.0.index_of(src);
    let j = earlier.0.index_of(trg);
    assert(later.0[i] == src);
    assert(later.0[j] == trg);
    assert(later.0.index_of(src) == i);
    assert(later.0.index_of(trg) == j);
    let k = choose|k: int| 0 <= k < earlier.1.len() && earlier.1[k] == copy_of(earlier, src, trg);
    assert(later.1[k] == copy_of(earlier, src, trg));
}

/// A content with one more edge between two vertices, under their names,
/// is a content that holds the copy of that edge.
pub proof fn lemma_copy_added(g: Content, src: Seq<char>, trg: Seq<char>)
    requires
        content_ok(g),
        with_vertex(with_vertex(g.0, src), trg).len() <= usize::MAX,
    ensures
        ({
            let with_src = with_vertex(g.0, src);
            let after = (
                with_vertex(with_src, trg),
                with_edge(
                    g.1,
                    Edge {
                        src: vertex_id(g.0, src) as usize,
                        trg: vertex_id(with_src, trg) as usize,
                    },
                ),
            );
            &&& content_ok(after)
            &&& extends(g, after)
            &&& holds_copy(after, src, trg)
            &&& g.1.no_duplicates() ==> after.1.no_duplicates()
        }),
{
    let with_src = with_vertex(g.0, src);
    let with_both = with_vertex(with_src, trg);
    crate::graph::lemma_add_vertex_idempotent(g.0, src);
    crate::graph::lemma_add_vertex_idempotent(with_src, trg);
    let s = vertex_id(g.0, src);
    let t = vertex_id(with_src, trg);
    let e = Edge { src: s as usize, trg: t as usize };
    let joined = with_edge(g.1, e);
    assert(with_src[s] == src);
    assert(with_both[s] == src);
    assert(with_both[t] == trg);
    assert(with_both.index_of(src) == s);
    assert(with_both.index_of(trg) == t);
    if g.1.contains(e) {
        let k = choose|k: int| 0 <= k < g.1.len() && g.1[k] == e;
        assert(joined[k] == e);
    } else {
        assert(joined[g.1.len() as int] == e);
    }
    assert forall|k: int| 0 <= k < joined.len() implies (#[trigger] joined[k]).src < with_both.len()
        && joined[k].trg < with_both.len() by {
        if k < g.1.len() {
            assert(g.1[k].src < g.0.len());
        }
    }
}

/// The content holds the copy of every edge of the graph that has `x` at
/// one of its ends.
pub open spec fn covers(g: Content, names: Seq<Seq<char>>, edges: Seq<Edge>, x: int) -> bool {
    forall|m: int|
        0 <= m < edges.len() && is_at(#[trigger] edges[m], x) ==> holds_copy(
            g,
            names[edges[m].src as int],
            names[edges[m].trg as int],
        )
}

/// What a content covers, a content that extends it covers too.
pub proof fn lemma_cover_stays(
    earlier: Content,
    later: Content,
    names: Seq<Seq<char>>,
    edges: Seq<Edge>,
    x: int,
)
    requires
        extends(earlier, later),
        later.0.no_duplicates(),
        covers(earlier, names, edges, x),
    ensures
        covers(later, names, edges, x),
{
    assert forall|m: int| 0 <= m < edges.len() && is_at(#[trigger] edges[m], x) implies holds_copy(
        later,
        names[edges[m].src as int],
        names[edges[m].trg as int],
    ) by {
        lemma_copy_stays(earlier, later, names[edges[m].src as int], names[edges[m].trg as int]);
    }
}

/// What a walk from `d` over the edges from number `from` on brings
/// about, where its result fits the machine: a content that is in order,
/// without an edge twice if there was none before, with the copy of each
/// of these edges at `d`, and with the copies of all edges at every vertex
/// that the walk comes to beyond them.
pub proof fn lemma_grow(
    names: Seq<Seq<char>>,
    edges: Seq<Edge>,
    d: int,
    hops: nat,
    from: nat,
    copied: Content,
)
    requires
        content_ok(copied),
        grow(names, edges, d, hops, from, copied).0.len() <= usize::MAX,
    ensures
        content_ok(grow(names, edges, d, hops, from, copied)),
        copied.1.no_duplicates() ==> grow(names, edges, d, hops, from, copied).1.no_duplicates(),
        hops >= 1 ==> forall|k: int|
            from <= k < edges.len() && is_at(#[trigger] edges[k], d) ==> holds_copy(
                grow(names, edges, d, hops, from, copied),
                names[edges[k].src as int],
                names[edges[k].trg as int],
            ),
        hops >= 2 ==> forall|k: int, x: int|
            #![trigger edges[k], covers(grow(names, edges, d, hops, from, copied), names, edges, x)]
            from <= k < edges.len() && is_at(edges[k], d) && near(
                edges,
                other_end(edges[k], d),
                x,
                (hops - 2) as nat,
            ) ==> covers(grow(names, edges, d, hops, from, copied), names, edges, x),
    decreases hops, edges.len() - from,
{
    let result = grow(names, edges, d, hops, from, copied);
    if hops == 0 || from >= edges.len() {
    } else {
        let e = edges[from as int];
        if e.src == d || e.trg == d {
            let src = names[e.src as int];
            let trg = names[e.trg as int];
            let with_src = with_vertex(copied.0, src);
            let s = vertex_id(copied.0, src);
            let with_both = with_vertex(with_src, trg);
            let t = vertex_id(with_src, trg);
            let joined = with_edge(copied.1, Edge { src: s as usize, trg: t as usize });
            let other = if e.src == d {
                e.trg
            } else {
                e.src
            };
            let first = (with_both, joined);
            let less = (hops - 1) as nat;
            let beyond = grow(names, edges, other as int, less, 0, first);
            assert(result == grow(names, edges, d, hops, from + 1, beyond));
            lemma_grow_extends(names, edges, other as int, less, 0, first);
            lemma_grow_extends(names, edges, d, hops, from + 1, beyond);
            lemma_copy_added(copied, src, trg);
            lemma_grow(names, edges, other as int, less, 0, first);
            lemma_grow(names, edges, d, hops, from + 1, beyond);
            lemma_copy_stays(first, beyond, src, trg);
            lemma_copy_stays(beyond, result, src, trg);
            if hops >= 2 {
                assert forall|k: int, x: int|
                    #![trigger edges[k], covers(result, names, edges, x)]
                    from <= k < edges.len() && is_at(edges[k], d) && near(
                        edges,
                        other_end(edges[k], d),
                        x,
                        (hops - 2) as nat,
                    ) implies covers(result, names, edges, x) by {
                    if k == from {
                        assert(other_end(edges[k], d) == other);
                        if x == other {
                            assert(covers(beyond, names, edges, x));
                        } else {
                            let k2 = choose|k2: int|
                                0 <= k2 < edges.len() && is_at(#[trigger] edges[k2], other as int)
                                    && near(
                                    edges,
                                    other_end(edges[k2], other as int),
                                    x,
                                    (hops - 3) as nat,
                                );
                            assert(is_at(edges[k2], other as int));
                            assert(covers(beyond, names, edges, x));
                        }
                        lemma_cover_stays(beyond, result, names, edges, x);
                    }
                }
            }
        } else {
            lemma_grow(names, edges, d, hops, from + 1, copied);
        }
    }
}

/// The part of a graph around `d` holds the copy of every edge at a
/// vertex that fewer than `hops` steps lead to from `d`.
pub proof fn lemma_grow_covers(
    names: Seq<Seq<char>>,
    edges: Seq<Edge>,
    d: int,
    hops: nat,
    copied: Content,
    x: int,
)
    requires
        content_ok(copied),
        grow(names, edges, d, hops, 0, copied).0.len() <= usize::MAX,
        hops >= 1,
        near(edges, d, x, (hops - 1) as nat),
    ensures
        covers(grow(names, edges, d, hops, 0, copied), names, edges, x),
{
    lemma_grow(names, edges, d, hops, 0, copied);
    let result = grow(names, edges, d, hops, 0, copied);
    if x != d {
        let k = choose|k: int|
            0 <= k < edges.len() && is_at(#[trigger] edges[k], d) && near(
                edges,
                other_end(edges[k], d),
                x,
                (hops - 2) as nat,
            );
        assert(is_at(edges[k], d));
        assert(covers(result, names, edges, x));
    }
}

/// Edge `m` of the graph has an end that at most `steps` steps lead to
/// from `d`.
pub open spec fn edge_near(edges: Seq<Edge>, d: int, steps: nat, m: int) -> bool {
    &&& 0 <= m < edges.len()
    &&& (near(edges, d, edges[m].src as int, steps) || near(edges, d, edges[m].trg as int, steps))
}

/// `e` is the copy of an edge of the graph that has an end which at most
/// `steps` steps lead to from `d`.
pub open spec fn edge_from_near(
    g: Content,
    names: Seq<Seq<char>>,
    edges: Seq<Edge>,
    d: int,
    steps: nat,
    e: Edge,
) -> bool {
    exists|m: int|
        #![trigger edges[m]]
        edge_near(edges, d, steps, m) && holds_copy(
            g,
            names[edges[m].src as int],
            names[edges[m].trg as int],
        ) && e == copy_of(g, names[edges[m].src as int], names[edges[m].trg as int])
}

/// `name` is the name of an end of an edge of the graph that has an end
/// which at most `steps` steps lead to from `d`.
pub open spec fn name_from_near(
    names: Seq<Seq<char>>,
    edges: Seq<Edge>,
    d: int,
    steps: nat,
    name: Seq<char>,
) -> bool {
    exists|m: int|
        #![trigger edges[m]]
        edge_near(edges, d, steps, m) && (name == names[edges[m].src as int] || name
            == names[edges[m].trg as int])
}

/// What is near the other end of an edge at `d` is near `d`, one step
/// further.
pub proof fn lemma_near_step(edges: Seq<Edge>, d: int, k: int, x: int, steps: nat)
    requires
        0 <= k < edges.len(),
        is_at(edges[k], d),
        near(edges, other_end(edges[k], d), x, steps),
    ensures
        near(edges, d, x, steps + 1),
{
}

/// A walk copies nothing but edges that have an end which fewer than
/// `hops` steps lead to from `d`, and names no vertices but the ends of
/// such edges.
pub proof fn lemma_grow_sound(
    names: Seq<Seq<char>>,
    edges: Seq<Edge>,
    d: int,
    hops: nat,
    from: nat,
    copied: Content,
)
    requires
        content_ok(copied),
        grow(names, edges, d, hops, from, copied).0.len() <= usize::MAX,
    ensures
        forall|j: int|
            copied.1.len() <= j < grow(names, edges, d, hops, from, copied).1.len()
                ==> edge_from_near(
                grow(names, edges, d, hops, from, copied),
                names,
                edges,
                d,
                (hops - 1) as nat,
                #[trigger] grow(names, edges, d, hops, from, copied).1[j],
            ),
        forall|i: int|
            copied.0.len() <= i < grow(names, edges, d, hops, from, copied).0.len()
                ==> name_from_near(
                names,
                edges,
                d,
                (hops - 1) as nat,
                #[trigger] grow(names, edges, d, hops, from, copied).0[i],
            ),
    decreases hops, edges.len() - from,
{
    let result = grow(names, edges, d, hops, from, copied);
    let steps = (hops - 1) as nat;
    if hops == 0 || from >= edges.len() {
        assert(result == copied);
    } else {
        let e = edges[from as int];
        if e.src == d || e.trg == d {
            let src = names[e.src as int];
            let trg = names[e.trg as int];
            let with_src = with_vertex(copied.0, src);
            let s = vertex_id(copied.0, src);
            let with_both = with_vertex(with_src, trg);
            let t = vertex_id(with_src, trg);
            let joined = with_edge(copied.1, Edge { src: s as usize, trg: t as usize });
            let other = if e.src == d {
                e.trg
            } else {
                e.src
            };
            let first = (with_both, joined);
            let less = (hops - 1) as nat;
            let beyond = grow(names, edges, other as int, less, 0, first);
            assert(result == grow(names, edges, d, hops, from + 1, beyond));
            lemma_grow_extends(names, edges, other as int, less, 0, first);
            lemma_grow_extends(names, edges, d, hops, from + 1, beyond);
            lemma_copy_added(copied, src, trg);
            lemma_grow(names, edges, other as int, less, 0, first);
            lemma_grow(names, edges, d, hops, from + 1, beyond);
            lemma_grow_sound(names, edges, other as int, less, 0, first);
            lemma_grow_sound(names, edges, d, hops, from + 1, beyond);
            lemma_copy_stays(first, beyond, src, trg);
            lemma_copy_stays(beyond, result, src, trg);
            assert(edge_near(edges, d, steps, from as int));
            assert forall|j: int| copied.1.len() <= j < result.1.len() implies edge_from_near(
                result,
                names,
                edges,
                d,
                steps,
                #[trigger] result.1[j],
            ) by {
                if j >= beyond.1.len() {
                } else if j >= first.1.len() {
                    assert(result.1[j] == beyond.1[j]);
                    assert(edge_from_near(
                        beyond,
                        names,
                        edges,
                        other as int,
                        (less - 1) as nat,
                        beyond.1[j],
                    ));
                    let m = choose|m: int|
                        #![trigger edges[m]]
                        edge_near(edges, other as int, (less - 1) as nat, m) && holds_copy(
                            beyond,
                            names[edges[m].src as int],
                            names[edges[m].trg as int],
                        ) && beyond.1[j] == copy_of(
                            beyond,
                            names[edges[m].src as int],
                            names[edges[m].trg as int],
                        );
                    assert(less >= 1) by {
                        if less == 0 {
                            assert(beyond == first);
                        }
                    }
                    if near(edges, other as int, edges[m].src as int, (less - 1) as nat) {
                        lemma_near_step(
                            edges,
                            d,
                            from as int,
                            edges[m].src as int,
                            (less - 1) as nat,
                        );
                    } else {
                        lemma_near_step(
                            edges,
                            d,
                            from as int,
                            edges[m].trg as int,
                            (less - 1) as nat,
                        );
                    }
                    assert(edge_near(edges, d, steps, m));
                    lemma_copy_stays(
                        beyond,
                        result,
                        names[edges[m].src as int],
                        names[edges[m].trg as int],
                    );
                } else {
                    assert(result.1[j] == first.1[j]);
                    assert(first.1[j] == Edge { src: s as usize, trg: t as usize });
                    assert(first.1.contains(copy_of(first, src, trg)));
                    assert(copy_of(first, src, trg) == Edge { src: s as usize, trg: t as usize })
                        by {
                        crate::graph::lemma_add_vertex_idempotent(copied.0, src);
                        crate::graph::lemma_add_vertex_idempotent(with_src, trg);
                        assert(with_src[s] == src);
                        assert(with_both[s] == src);
                        assert(with_both[t] == trg);
                    }
                }
            }
            assert forall|i: int| copied.0.len() <= i < result.0.len() implies name_from_near(
                names,
                edges,
                d,
                steps,
                #[trigger] result.0[i],
            ) by {
                if i >= beyond.0.len() {
                } else if i >= first.0.len() {
                    assert(result.0[i] == beyond.0[i]);
                    assert(name_from_near(
                        names,
                        edges,
                        other as int,
                        (less - 1) as nat,
                        beyond.0[i],
                    ));
                    let m = choose|m: int|
                        #![trigger edges[m]]
                        edge_near(edges, other as int, (less - 1) as nat, m) && (beyond.0[i]
                            == names[edges[m].src as int] || beyond.0[i]
                            == names[edges[m].trg as int]);
                    assert(less >= 1) by {
                        if less == 0 {
                            assert(beyond == first);
                        }
                    }
                    if near(edges, other as int, edges[m].src as int, (less - 1) as nat) {
                        lemma_near_step(
                            edges,
                            d,
                            from as int,
                            edges[m].src as int,
                            (less - 1) as nat,
                        );
                    } else {
                        lemma_near_step(
                            edges,
                            d,
                            from as int,
                            edges[m].trg as int,
                            (less - 1) as nat,
                        );
                    }
                    assert(edge_near(edges, d, steps, m));
                } else {
                    assert(result.0[i] == first.0[i]);
                    assert(first.0[i] == src || first.0[i] == trg);
                }
            }
        } else {
            lemma_grow_sound(names, edges, d, hops, from + 1, copied);
            assert(result == grow(names, edges, d, hops, from + 1, copied));
        }
    }
}

} // verus!
