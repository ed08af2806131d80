//! Vertices known by name, numbered densely from zero, and the directed
//! edges between them.

use crate::data::{Dataset, DatasetView, LinkView};
use crate::settings::{contains_name, is_among, Settings};
use vstd::prelude::*;

verus! {

/// The parameters of the model that a layout is held against. `T` is the
/// type of a coordinate.
#[derive(Debug, Clone, Copy, Default)]
pub struct Model<T> {
    /// How much linked bubbles are drawn together.
    pub spring: T,
    /// How much any two bubbles are pushed apart.
    pub repulse: T,
    /// The least distance between the centres of two bubbles.
    pub repulse_dist: T,
    /// The rigidity of the bubbles.
    pub repulse_rigidity: T,
    /// How much the bubbles are held inside the well.
    pub canvas: T,
    /// The radius of the well that holds all bubbles.
    pub canvas_size: T,
    /// The rigidity of the well.
    pub canvas_rigidity: T,
    /// The number of blocks along each side of the grid in which near
    /// bubbles are looked for; with one block or none, every bubble is
    /// held against every other.
    pub n_blocks: usize,
}

/// A directed edge between two vertices, given by their ids.
#[derive(Debug, Clone, Copy, PartialEq, Eq, Structural)]
pub struct Edge {
    pub src: usize,
    pub trg: usize,
}

impl Edge {
    /// An edge from `from` to `to`.
    pub fn new(from: usize, to: usize) -> (e: Edge)
        ensures
            e.src == from,
            e.trg == to,
    {
        Edge { src: from, trg: to }
    }
}

/// The names of a sequence of strings, as sequences of characters.
pub open spec fn name_views(names: Seq<String>) -> Seq<Seq<char>> {
    Seq::new(names.len(), |i: int| names[i]@)
}

/// The id that `name` has once it is known: its place in `names`, or the
/// next free id.
pub open spec fn vertex_id(names: Seq<Seq<char>>, name: Seq<char>) -> int {
    if names.contains(name) {
        names.index_of(name)
    } else {
        names.len() as int
    }
}

/// The names after `name` has been made known.
pub open spec fn with_vertex(names: Seq<Seq<char>>, name: Seq<char>) -> Seq<Seq<char>> {
    if names.contains(name) {
        names
    } else {
        names.push(name)
    }
}

/// Every edge of `edges` joins two ids below `n`.
pub open spec fn edges_within(edges: Seq<Edge>, n: int) -> bool {
    forall|k: int| 0 <= k < edges.len() ==> (#[trigger] edges[k]).src < n && edges[k].trg < n
}

/// Making a name known a second time changes nothing: the id is the one
/// that the first time gave, and no vertex is added.
pub proof fn lemma_add_vertex_idempotent(names: Seq<Seq<char>>, name: Seq<char>)
    requires
        names.no_duplicates(),
    ensures
        with_vertex(names, name).no_duplicates(),
        vertex_id(with_vertex(names, name), name) == vertex_id(names, name),
        with_vertex(with_vertex(names, name), name) == with_vertex(names, name),
        with_vertex(with_vertex(names, name), name).len() == with_vertex(names, name).len(),
        0 <= vertex_id(names, name) < with_vertex(names, name).len(),
{
    let once = with_vertex(names, name);
    if !names.contains(name) {
        assert(once[names.len() as int] == name);
        assert(once.contains(name));
    }
}

/// The edges with `e` among them: `e` is added at the end unless it is
/// there already.
pub open spec fn with_edge(edges: Seq<Edge>, e: Edge) -> Seq<Edge> {
    if edges.contains(e) {
        edges
    } else {
        edges.push(e)
    }
}

/// The part of a graph that is copied when a walk of at most `hops` steps
/// starts at vertex `d`, added to the names and edges that were copied
/// before. The edges of the graph are gone through from number `from` on.
/// Each edge that has `d` at one of its ends is copied, with its two
/// vertices under their names, the source first; the walk then goes on
/// from the other end with one step less before it turns to the next edge.
pub open spec fn grow(
    names: Seq<Seq<char>>,
    edges: Seq<Edge>,
    d: int,
    hops: nat,
    from: nat,
    copied: (Seq<Seq<char>>, Seq<Edge>),
) -> (Seq<Seq<char>>, Seq<Edge>)
    decreases hops, edges.len() - from,
{
    if hops == 0 || from >= edges.len() {
        copied
    } else {
        let e = edges[from as int];
        if e.src == d || e.trg == d {
            let with_src = with_vertex(copied.0, names[e.src as int]);
            let s = vertex_id(copied.0, names[e.src as int]);
            let with_both = with_vertex(with_src, names[e.trg as int]);
            let t = vertex_id(with_src, names[e.trg as int]);
            let joined = with_edge(copied.1, Edge { src: s as usize, trg: t as usize });
            let other = if e.src == d {
                e.trg
            } else {
                e.src
            };
            let beyond = grow(names, edges, other as int, (hops - 1) as nat, 0, (with_both, joined));
            grow(names, edges, d, hops, from + 1, beyond)
        } else {
            grow(names, edges, d, hops, from + 1, copied)
        }
    }
}

/// Whether `e` is one of `edges`.
pub fn has_edge(edges: &Vec<Edge>, e: Edge) -> (found: bool)
    ensures
        found == edges@.contains(e),
{
    let mut i: usize = 0;
    while i < edges.len()
        invariant
            i <= edges@.len(),
            forall|k: int| 0 <= k < i ==> edges@[k] != e,
        decreases edges@.len() - i,
    {
        if edges[i] == e {
            return true;
        }
        i += 1;
    }
    false
}

/// The place at which the list `fixed` pins the vertex called `name`: that
/// of the last entry with this name, if there is one.
pub open spec fn pinned<T>(fixed: Seq<(String, (T, T))>, name: Seq<char>) -> Option<(T, T)>
    decreases fixed.len(),
{
    if fixed.len() == 0 {
        None
    } else if fixed.last().0@ == name {
        Some(fixed.last().1)
    } else {
        pinned(fixed.drop_last(), name)
    }
}

/// `after` is `before` with every pinned vertex moved to its place: the
/// two entries of a pinned vertex are those of its place, and all other
/// entries are as they were.
pub open spec fn pins_applied<T>(
    names: Seq<Seq<char>>,
    fixed: Seq<(String, (T, T))>,
    before: Seq<T>,
    after: Seq<T>,
) -> bool {
    &&& after.len() == before.len()
    &&& forall|v: int|
        0 <= v < names.len() ==> match pinned(fixed, #[trigger] names[v]) {
            Some((x, y)) => after[2 * v] == x && after[2 * v + 1] == y,
            None => after[2 * v] == before[2 * v] && after[2 * v + 1] == before[2 * v + 1],
        }
}

/// `after` is `before` with the two entries of every pinned vertex set to
/// `zero`, and all other entries as they were.
pub open spec fn pins_zeroed<T>(
    names: Seq<Seq<char>>,
    fixed: Seq<(String, (T, T))>,
    zero: T,
    before: Seq<T>,
    after: Seq<T>,
) -> bool {
    &&& after.len() == before.len()
    &&& forall|v: int|
        0 <= v < names.len() ==> if pinned(fixed, #[trigger] names[v]) is Some {
            after[2 * v] == zero && after[2 * v + 1] == zero
        } else {
            after[2 * v] == before[2 * v] && after[2 * v + 1] == before[2 * v + 1]
        }
}

/// A graph of `n` vertices with a list of directed edges.
#[derive(Debug, Clone, PartialEq)]
pub struct Graph {
    /// The number of vertices.
    pub n: usize,
    /// The vertex names; the name of vertex `i` stands at index `i`.
    pub names: Vec<String>,
    /// The edges, in the order in which they were added. An edge may occur
    /// more than once.
    pub edges: Vec<Edge>,
}

impl Graph {
    /// The vertex names as sequences of characters.
    pub open spec fn names(&self) -> Seq<Seq<char>> {
        name_views(self.names@)
    }

    /// The graph is well formed: `n` counts the names, no name occurs twice
    /// and every edge joins two vertices of the graph.
    pub open spec fn wf(&self) -> bool {
        &&& self.n == self.names().len()
        &&& self.names().no_duplicates()
        &&& edges_within(self.edges@, self.n as int)
    }

    /// A graph without vertices or edges.
    pub fn new() -> (g: Graph)
        ensures
            g.wf(),
            g.n == 0,
            g.names() == Seq::<Seq<char>>::empty(),
            g.edges@ == Seq::<Edge>::empty(),
    {
        Graph { n: 0, names: Vec::new(), edges: Vec::new() }
    }

    /// Whether the graph is well formed.
    pub fn is_well_formed(&self) -> (ok: bool)
        ensures
            ok == self.wf(),
    {
        if self.n != self.names.len() {
            return false;
        }
        let mut i: usize = 0;
        while i < self.names.len()
            invariant
                i <= self.names@.len(),
                forall|a: int, b: int|
                    0 <= a < b < i ==> #[trigger] self.names()[a] != #[trigger] self.names()[b],
            decreases self.names@.len() - i,
        {
            let mut j: usize = 0;
            while j < i
                invariant
                    j <= i,
                    i < self.names@.len(),
                    forall|a: int| 0 <= a < j ==> #[trigger] self.names()[a] != self.names()[i as int],
                decreases i - j,
            {
                if self.names[j] == self.names[i] {
                    assert(self.names()[j as int] == self.names()[i as int]);
                    return false;
                }
                j += 1;
            }
            i += 1;
        }
        let mut k: usize = 0;
        while k < self.edges.len()
            invariant
                k <= self.edges@.len(),
                forall|e: int|
                    0 <= e < k ==> (#[trigger] self.edges@[e]).src < self.n && self.edges@[e].trg
                        < self.n,
            decreases self.edges@.len() - k,
        {
            if self.edges[k].src >= self.n || self.edges[k].trg >= self.n {
                return false;
            }
            k += 1;
        }
        true
    }

    /// The id of the vertex called `name`, if the graph has one.
    pub fn find_vertex(&self, name: &str) -> (found: Option<usize>)
        requires
            self.wf(),
        ensures
            match found {
                Some(id) => self.names().contains(name@) && id == self.names().index_of(name@),
                None => !self.names().contains(name@),
            },
    {
        let wanted = name.to_owned();
        let mut i: usize = 0;
        while i < self.names.len()
            invariant
                i <= self.names@.len(),
                wanted@ == name@,
                self.names().no_duplicates(),
                forall|k: int| 0 <= k < i ==> self.names()[k] != name@,
            decreases self.names@.len() - i,
        {
            if self.names[i] == wanted {
                assert(self.names()[i as int] == name@);
                assert(self.names().index_of(name@) == i);
                return Some(i);
            }
            i += 1;
        }
        None
    }

    /// Adds a vertex called `name`, or looks up the vertex that already has
    /// that name, and returns its id.
    pub fn add_vertex(&mut self, name: &str) -> (id: usize)
        requires
            old(self).wf(),
        ensures
            final(self).wf(),
            id == vertex_id(old(self).names(), name@),
            final(self).names() == with_vertex(old(self).names(), name@),
            final(self).edges@ == old(self).edges@,
            id < final(self).n,
            final(self).names()[id as int] == name@,
    {
        match self.find_vertex(name) {
            Some(id) => id,
            None => {
                let ghost before = self.names();
                self.names.push(name.to_owned());
                self.n = self.names.len();
                assert(self.names() =~= before.push(name@));
                self.n - 1
            },
        }
    }

    /// Moves the pinned vertices to their places: for each entry of
    /// `fixed_points` that names a vertex of the graph, the two entries of
    /// that vertex in `loc` are overwritten. Names that the graph does not
    /// know are passed over, and a later entry wins over an earlier one.
    pub fn set_fixed_points<T: Copy>(&self, loc: Vec<T>, fixed_points: &Vec<(String, (T, T))>) -> (out:
        Vec<T>)
        requires
            self.wf(),
            loc@.len() == 2 * self.n,
        ensures
            pins_applied(self.names(), fixed_points@, loc@, out@),
    {
        let mut out = loc;
        let mut k: usize = 0;
        while k < fixed_points.len()
            invariant
                k <= fixed_points@.len(),
                self.wf(),
                loc@.len() == 2 * self.n,
                pins_applied(self.names(), fixed_points@.take(k as int), loc@, out@),
            decreases fixed_points@.len() - k,
        {
            let ghost before = out@;
            let ghost seen = fixed_points@.take(k as int);
            let ghost next = fixed_points@.take(k + 1);
            proof {
                assert(next.drop_last() == seen);
                assert(next.last() == fixed_points@[k as int]);
            }
            let (x, y) = fixed_points[k].1;
            match self.find_vertex(fixed_points[k].0.as_str()) {
                Some(id) => {
                    let total = out.len();
                    assert(id < self.n && total == 2 * self.n);
                    out.set(id * 2, x);
                    out.set(id * 2 + 1, y);
                    proof {
                        assert forall|v: int| 0 <= v < self.names().len() implies match pinned(
                            next,
                            #[trigger] self.names()[v],
                        ) {
                            Some((x, y)) => out@[2 * v] == x && out@[2 * v + 1] == y,
                            None => out@[2 * v] == loc@[2 * v] && out@[2 * v + 1] == loc@[2 * v
                                + 1],
                        } by {
                            if v != id {
                                assert(self.names()[v] != self.names()[id as int]);
                            }
                        }
                    }
                },
                None => {
                    proof {
                        assert forall|v: int| 0 <= v < self.names().len() implies pinned(
                            next,
                            #[trigger] self.names()[v],
                        ) == pinned(seen, self.names()[v]) by {
                            assert(self.names().contains(self.names()[v]));
                        }
                    }
                },
            }
            k += 1;
        }
        assert(fixed_points@.take(fixed_points@.len() as int) == fixed_points@);
        out
    }

    /// Sets the entries of the pinned vertices to `zero`: for each entry
    /// of `fixed_points` that names a vertex of the graph, the two entries
    /// of that vertex in `loc` become `zero`, whatever they were. Names
    /// that the graph does not know are passed over.
    pub fn zero_fixed_points<T: Copy>(
        &self,
        loc: Vec<T>,
        fixed_points: &Vec<(String, (T, T))>,
        zero: T,
    ) -> (out: Vec<T>)
        requires
            self.wf(),
            loc@.len() == 2 * self.n,
        ensures
            pins_zeroed(self.names(), fixed_points@, zero, loc@, out@),
    {
        let mut out = loc;
        let mut k: usize = 0;
        while k < fixed_points.len()
            invariant
                k <= fixed_points@.len(),
                self.wf(),
                loc@.len() == 2 * self.n,
                pins_zeroed(self.names(), fixed_points@.take(k as int), zero, loc@, out@),
            decreases fixed_points@.len() - k,
        {
            let ghost seen = fixed_points@.take(k as int);
            let ghost next = fixed_points@.take(k + 1);
            proof {
                assert(next.drop_last() == seen);
                assert(next.last() == fixed_points@[k as int]);
            }
            match self.find_vertex(fixed_points[k].0.as_str()) {
                Some(id) => {
                    let total = out.len();
                    assert(id < self.n && total == 2 * self.n);
                    out.set(id * 2, zero);
                    out.set(id * 2 + 1, zero);
                    proof {
                        assert forall|v: int| 0 <= v < self.names().len() implies if pinned(
                            next,
                            #[trigger] self.names()[v],
                        ) is Some {
                            out@[2 * v] == zero && out@[2 * v + 1] == zero
                        } else {
                            out@[2 * v] == loc@[2 * v] && out@[2 * v + 1] == loc@[2 * v + 1]
                        } by {
                            if v != id {
                                assert(self.names()[v] != self.names()[id as int]);
                            }
                        }
                    }
                },
                None => {
                    proof {
                        assert forall|v: int| 0 <= v < self.names().len() implies pinned(
                            next,
                            #[trigger] self.names()[v],
                        ) == pinned(seen, self.names()[v]) by {
                            assert(self.names().contains(self.names()[v]));
                        }
                    }
                },
            }
            k += 1;
        }
        assert(fixed_points@.take(fixed_points@.len() as int) == fixed_points@);
        out
    }

    /// The names and the edges of the graph.
    pub open spec fn content(&self) -> (Seq<Seq<char>>, Seq<Edge>) {
        (self.names(), self.edges@)
    }

    /// The part of the graph that lies within `hops` steps of the vertex
    /// called `dataset`, along edges in either direction. No edge is
    /// copied twice. The result is empty where the graph has no vertex of
    /// that name.
    pub fn subgraph(&self, dataset: &str, hops: u32) -> (graph: Graph)
        requires
            self.wf(),
        ensures
            graph.wf(),
            graph.content() == if self.names().contains(dataset@) {
                grow(
                    self.names(),
                    self.edges@,
                    self.names().index_of(dataset@),
                    hops as nat,
                    0,
                    (Seq::empty(), Seq::empty()),
                )
            } else {
                (Seq::empty(), Seq::empty())
            },
    {
        let mut graph = Graph::new();
        match self.find_vertex(dataset) {
            Some(d) => {
                self.subgraph2(d, hops, &mut graph);
            },
            None => {},
        }
        graph
    }

    /// Copies into `graph` the part of this graph that a walk of at most
    /// `hops` steps from vertex `d` reaches.
    pub fn subgraph2(&self, d: usize, hops: u32, graph: &mut Graph)
        requires
            self.wf(),
            old(graph).wf(),
        ensures
            final(graph).wf(),
            final(graph).content() == grow(
                self.names(),
                self.edges@,
                d as int,
                hops as nat,
                0,
                old(graph).content(),
            ),
        decreases hops,
    {
        if hops > 0 {
            let mut i: usize = 0;
            while i < self.edges.len()
                invariant
                    i <= self.edges@.len(),
                    hops > 0,
                    self.wf(),
                    graph.wf(),
                    grow(
                        self.names(),
                        self.edges@,
                        d as int,
                        hops as nat,
                        0,
                        old(graph).content(),
                    ) == grow(
                        self.names(),
                        self.edges@,
                        d as int,
                        hops as nat,
                        i as nat,
                        graph.content(),
                    ),
                decreases self.edges@.len() - i,
            {
                let edge = self.edges[i];
                if edge.src == d || edge.trg == d {
                    let s = graph.add_vertex(self.names[edge.src].as_str());
                    let t = graph.add_vertex(self.names[edge.trg].as_str());
                    let e = Edge::new(s, t);
                    if !has_edge(&graph.edges, e) {
                        graph.edges.push(e);
                    }
                    let other = if edge.src == d {
                        edge.trg
                    } else {
                        edge.src
                    };
                    self.subgraph2(other, hops - 1, graph);
                }
                i += 1;
            }
        }
    }

    /// The name of vertex `id`, if the graph has such a vertex.
    pub fn vertex_name(&self, id: usize) -> (name: Option<String>)
        requires
            self.wf(),
        ensures
            match name {
                Some(s) => id < self.n && s@ == self.names()[id as int],
                None => id >= self.n,
            },
    {
        if id < self.names.len() {
            Some(self.names[id].clone())
        } else {
            None
        }
    }
}

/// A dataset under the key by which it is found.
pub type Entry = (Seq<char>, DatasetView);

/// The keys and what the datasets say.
pub open spec fn entries(data: Seq<(String, Dataset)>) -> Seq<Entry> {
    Seq::new(data.len(), |i: int| (data[i].0@, data[i].1@))
}

/// Whether the data has a dataset under `key`.
pub open spec fn has_key(data: Seq<Entry>, key: Seq<char>) -> bool {
    exists|i: int| 0 <= i < data.len() && (#[trigger] data[i]).0 == key
}

/// Link `b` of dataset `a` points to a dataset of the data, and `name` is
/// the identifier of `a` or the target of that link.
pub open spec fn link_makes(data: Seq<Entry>, a: int, b: int, name: Seq<char>) -> bool {
    &&& 0 <= a < data.len()
    &&& 0 <= b < data[a].1.links.len()
    &&& has_key(data, data[a].1.links[b].target)
    &&& (name == data[a].1.identifier || name == data[a].1.links[b].target)
}

/// `name` is linked: it names a dataset with a link into the data, or the
/// target of such a link.
pub open spec fn is_linked(data: Seq<Entry>, name: Seq<char>) -> bool {
    exists|a: int, b: int| link_makes(data, a, b, name)
}

/// `name` is linked by a link that comes before link `b` of dataset `a`.
pub open spec fn linked_before(data: Seq<Entry>, a: int, b: int, name: Seq<char>) -> bool {
    exists|x: int, y: int| (x < a || (x == a && y < b)) && link_makes(data, x, y, name)
}

/// The graph after the links of one dataset, which is vertex `v1`, have
/// been added: each link to a linked name gives an edge from `v1` to the
/// vertex of that name.
pub open spec fn add_links(
    links: Seq<LinkView>,
    data: Seq<Entry>,
    v1: int,
    graph: (Seq<Seq<char>>, Seq<Edge>),
) -> (Seq<Seq<char>>, Seq<Edge>)
    decreases links.len(),
{
    if links.len() == 0 {
        graph
    } else {
        let earlier = add_links(links.drop_last(), data, v1, graph);
        let target = links.last().target;
        if is_linked(data, target) {
            (
                with_vertex(earlier.0, target),
                earlier.1.push(
                    Edge { src: v1 as usize, trg: vertex_id(earlier.0, target) as usize },
                ),
            )
        } else {
            earlier
        }
    }
}

/// The graph of the first datasets of `data`, those in `some`: each that
/// is linked becomes a vertex, under its identifier, and then gives its
/// edges.
pub open spec fn add_datasets(some: Seq<Entry>, data: Seq<Entry>) -> (Seq<Seq<char>>, Seq<Edge>)
    decreases some.len(),
{
    if some.len() == 0 {
        (Seq::empty(), Seq::empty())
    } else {
        let earlier = add_datasets(some.drop_last(), data);
        let d = some.last().1;
        if is_linked(data, d.identifier) {
            add_links(
                d.links,
                data,
                vertex_id(earlier.0, d.identifier),
                (with_vertex(earlier.0, d.identifier), earlier.1),
            )
        } else {
            earlier
        }
    }
}

/// The graph of the data: the linked datasets and the links between them.
pub open spec fn built(data: Seq<Entry>) -> (Seq<Seq<char>>, Seq<Edge>) {
    add_datasets(data, data)
}

/// The names once `name` is known are the names before and `name`.
pub proof fn lemma_with_vertex_holds(names: Seq<Seq<char>>, name: Seq<char>, other: Seq<char>)
    ensures
        with_vertex(names, name).contains(other) <==> names.contains(other) || other == name,
{
    let after = with_vertex(names, name);
    if !names.contains(name) {
        assert(after[names.len() as int] == name);
        if names.contains(other) {
            let i = choose|i: int| 0 <= i < names.len() && names[i] == other;
            assert(after[i] == other);
        }
        if after.contains(other) {
            let i = choose|i: int| 0 <= i < after.len() && after[i] == other;
            if i < names.len() {
                assert(names[i] == other);
            }
        }
    }
}

/// One of the links points to `name`.
pub open spec fn is_target(links: Seq<LinkView>, name: Seq<char>) -> bool {
    exists|j: int| 0 <= j < links.len() && (#[trigger] links[j]).target == name
}

/// The links of a dataset add the linked names that they point to as
/// vertices, and no others.
pub proof fn lemma_add_links_names(
    links: Seq<LinkView>,
    data: Seq<Entry>,
    v1: int,
    graph: (Seq<Seq<char>>, Seq<Edge>),
    name: Seq<char>,
)
    ensures
        add_links(links, data, v1, graph).0.contains(name) <==> graph.0.contains(name) || (
        is_target(links, name) && is_linked(data, name)),
    decreases links.len(),
{
    if links.len() > 0 {
        let rest = links.drop_last();
        lemma_add_links_names(rest, data, v1, graph, name);
        let earlier = add_links(rest, data, v1, graph);
        let target = links.last().target;
        lemma_with_vertex_holds(earlier.0, target, name);
        if is_target(rest, name) {
            let j = choose|j: int| 0 <= j < rest.len() && (#[trigger] rest[j]).target == name;
            assert(links[j].target == name);
        }
        if is_target(links, name) {
            let j = choose|j: int| 0 <= j < links.len() && (#[trigger] links[j]).target == name;
            if j < rest.len() {
                assert(rest[j].target == name);
            }
        }
        if target == name {
            assert(links[links.len() - 1].target == name);
        }
    }
}

/// `name` is the identifier of one of the datasets, which is linked, or a
/// linked name that one of its links points to.
pub open spec fn is_added(some: Seq<Entry>, data: Seq<Entry>, name: Seq<char>) -> bool {
    exists|a: int|
        0 <= a < some.len() && is_linked(data, (#[trigger] some[a]).1.identifier) && (name
            == some[a].1.identifier || (is_target(some[a].1.links, name) && is_linked(data, name)))
}

/// The vertices of the graph of some datasets are the names that these
/// datasets add.
pub proof fn lemma_add_datasets_names(some: Seq<Entry>, data: Seq<Entry>, name: Seq<char>)
    ensures
        add_datasets(some, data).0.contains(name) <==> is_added(some, data, name),
    decreases some.len(),
{
    if some.len() > 0 {
        let rest = some.drop_last();
        lemma_add_datasets_names(rest, data, name);
        let earlier = add_datasets(rest, data);
        let d = some.last().1;
        if is_added(rest, data, name) {
            let a = choose|a: int|
                0 <= a < rest.len() && is_linked(data, (#[trigger] rest[a]).1.identifier) && (name
                    == rest[a].1.identifier || (is_target(rest[a].1.links, name) && is_linked(
                    data,
                    name,
                )));
            assert(some[a] == rest[a]);
        }
        if is_added(some, data, name) {
            let a = choose|a: int|
                0 <= a < some.len() && is_linked(data, (#[trigger] some[a]).1.identifier) && (name
                    == some[a].1.identifier || (is_target(some[a].1.links, name) && is_linked(
                    data,
                    name,
                )));
            if a < rest.len() {
                assert(rest[a] == some[a]);
                assert(is_added(rest, data, name));
            }
        }
        if is_linked(data, d.identifier) {
            let v1 = vertex_id(earlier.0, d.identifier);
            let start = (with_vertex(earlier.0, d.identifier), earlier.1);
            lemma_with_vertex_holds(earlier.0, d.identifier, name);
            lemma_add_links_names(d.links, data, v1, start, name);
            if name == d.identifier || (is_target(d.links, name) && is_linked(data, name)) {
                assert(some[some.len() - 1].1 == d);
            }
        }
    } else {
        assert(!Seq::<Seq<char>>::empty().contains(name));
    }
}

/// The vertices of the graph of the data are the linked names: the
/// datasets with a link to a dataset of the data, and the datasets that
/// such a link points to.
pub proof fn lemma_built_names(data: Seq<Entry>, name: Seq<char>)
    ensures
        built(data).0.contains(name) <==> is_linked(data, name),
{
    lemma_add_datasets_names(data, data, name);
    if is_added(data, data, name) {
        let a = choose|a: int|
            0 <= a < data.len() && is_linked(data, (#[trigger] data[a]).1.identifier) && (name
                == data[a].1.identifier || (is_target(data[a].1.links, name) && is_linked(
                data,
                name,
            )));
    }
    if is_linked(data, name) {
        let (a, b) = choose|a: int, b: int| link_makes(data, a, b, name);
        assert(link_makes(data, a, b, data[a].1.identifier));
        assert(is_linked(data, data[a].1.identifier));
        assert(data[a].1.links[b].target == name ==> is_target(data[a].1.links, name));
        assert(is_added(data, data, name));
    }
}

/// Whether the data has a dataset under `key`.
pub fn key_known(data: &Vec<(String, Dataset)>, key: &String) -> (found: bool)
    ensures
        found == has_key(entries(data@), key@),
{
    let mut i: usize = 0;
    while i < data.len()
        invariant
            i <= data@.len(),
            forall|k: int| 0 <= k < i ==> (#[trigger] entries(data@)[k]).0 != key@,
        decreases data@.len() - i,
    {
        if data[i].0 == *key {
            assert(entries(data@)[i as int].0 == key@);
            return true;
        }
        i += 1;
    }
    false
}

/// Adds `name` to `names` unless it is there.
fn note_name(names: &mut Vec<String>, name: &String)
    ensures
        forall|other: Seq<char>|
            is_among(final(names)@, other) <==> is_among(old(names)@, other) || other == name@,
{
    if !contains_name(names, name) {
        names.push(name.clone());
        assert forall|other: Seq<char>| is_among(names@, other) implies is_among(
            old(names)@,
            other,
        ) || other == name@ by {
            let i = choose|i: int| 0 <= i < names@.len() && (#[trigger] names@[i])@ == other;
            if i < old(names)@.len() {
                assert(old(names)@[i]@ == other);
            }
        }
        assert forall|other: Seq<char>| is_among(old(names)@, other) || other
            == name@ implies is_among(names@, other) by {
            if other == name@ {
                assert(names@[old(names)@.len() as int]@ == other);
            } else {
                let i = choose|i: int|
                    0 <= i < old(names)@.len() && (#[trigger] old(names)@[i])@ == other;
                assert(names@[i]@ == other);
            }
        }
    }
}

/// The linked names of the data.
pub fn linked_names(data: &Vec<(String, Dataset)>) -> (names: Vec<String>)
    ensures
        forall|name: Seq<char>| is_among(names@, name) <==> is_linked(entries(data@), name),
{
    let mut names: Vec<String> = Vec::new();
    let ghost all = entries(data@);
    let mut a: usize = 0;
    while a < data.len()
        invariant
            a <= data@.len(),
            all == entries(data@),
            forall|name: Seq<char>|
                is_among(names@, name) <==> linked_before(all, a as int, 0, name),
        decreases data@.len() - a,
    {
        let dataset = &data[a].1;
        let mut b: usize = 0;
        while b < dataset.links.len()
            invariant
                a < data@.len(),
                b <= dataset.links@.len(),
                all == entries(data@),
                *dataset == data@[a as int].1,
                forall|name: Seq<char>|
                    is_among(names@, name) <==> linked_before(all, a as int, b as int, name),
            decreases dataset.links@.len() - b,
        {
            let ghost before = names@;
            let target = &dataset.links[b].target;
            assert(all[a as int].1.links[b as int].target == target@);
            assert(all[a as int].1.identifier == dataset.identifier@);
            if key_known(data, target) {
                note_name(&mut names, &dataset.identifier);
                note_name(&mut names, target);
            }
            proof {
                assert forall|name: Seq<char>| is_among(names@, name) implies linked_before(
                    all,
                    a as int,
                    b + 1,
                    name,
                ) by {
                    if is_among(before, name) {
                        let (x, y) = choose|x: int, y: int|
                            (x < a || (x == a && y < b)) && link_makes(all, x, y, name);
                        assert(link_makes(all, x, y, name));
                    } else {
                        assert(link_makes(all, a as int, b as int, name));
                    }
                }
                assert forall|name: Seq<char>|
                    linked_before(all, a as int, b + 1, name) implies is_among(names@, name) by {
                    let (x, y) = choose|x: int, y: int|
                        (x < a || (x == a && y < b + 1)) && link_makes(all, x, y, name);
                    if x == a && y == b {
                    } else {
                        assert(link_makes(all, x, y, name));
                        assert(linked_before(all, a as int, b as int, name));
                    }
                }
            }
            b += 1;
        }
        proof {
            assert forall|name: Seq<char>| is_among(names@, name) implies linked_before(
                all,
                a + 1,
                0,
                name,
            ) by {
                let (x, y) = choose|x: int, y: int|
                    (x < a || (x == a && y < b)) && link_makes(all, x, y, name);
                assert(link_makes(all, x, y, name));
            }
            assert forall|name: Seq<char>| linked_before(all, a + 1, 0, name) implies is_among(
                names@,
                name,
            ) by {
                let (x, y) = choose|x: int, y: int|
                    (x < a + 1 || (x == a + 1 && y < 0)) && link_makes(all, x, y, name);
                assert(link_makes(all, x, y, name));
                assert(linked_before(all, a as int, b as int, name));
            }
        }
        a += 1;
    }
    proof {
        assert forall|name: Seq<char>| is_linked(all, name) implies is_among(names@, name) by {
            let (x, y) = choose|x: int, y: int| link_makes(all, x, y, name);
            assert(link_makes(all, x, y, name));
            assert(linked_before(all, a as int, 0, name));
        }
        assert forall|name: Seq<char>| is_among(names@, name) implies is_linked(all, name) by {
            let (x, y) = choose|x: int, y: int|
                (x < a || (x == a && y < 0)) && link_makes(all, x, y, name);
            assert(link_makes(all, x, y, name));
        }
    }
    names
}

/// Builds the graph of the data: each linked dataset becomes a vertex,
/// under its identifier, and each of its links to a linked name an edge.
/// The datasets are taken in their order.
pub fn build_graph2(data: &Vec<(String, Dataset)>) -> (g: Graph)
    ensures
        g.wf(),
        g.content() == built(entries(data@)),
{
    let linked = linked_names(data);
    let ghost all = entries(data@);
    let mut g = Graph::new();
    let mut a: usize = 0;
    assert(all.take(0) == Seq::<Entry>::empty());
    while a < data.len()
        invariant
            a <= data@.len(),
            all == entries(data@),
            forall|name: Seq<char>| is_among(linked@, name) <==> is_linked(all, name),
            g.wf(),
            g.content() == add_datasets(all.take(a as int), all),
        decreases data@.len() - a,
    {
        let dataset = &data[a].1;
        proof {
            assert(all.take(a + 1).drop_last() == all.take(a as int));
            assert(all.take(a + 1).last().1 == dataset@);
        }
        if contains_name(&linked, &dataset.identifier) {
            let ghost earlier = g.content();
            let v1 = g.add_vertex(dataset.identifier.as_str());
            let ghost links = dataset@.links;
            let mut b: usize = 0;
            assert(links.take(0) == Seq::<LinkView>::empty());
            while b < dataset.links.len()
                invariant
                    b <= dataset.links@.len(),
                    links == dataset@.links,
                    forall|name: Seq<char>| is_among(linked@, name) <==> is_linked(all, name),
                    g.wf(),
                    v1 < g.n,
                    g.content() == add_links(
                        links.take(b as int),
                        all,
                        v1 as int,
                        (with_vertex(earlier.0, dataset.identifier@), earlier.1),
                    ),
                decreases dataset.links@.len() - b,
            {
                let target = &dataset.links[b].target;
                proof {
                    assert(links.take(b + 1).drop_last() == links.take(b as int));
                    assert(links.take(b + 1).last().target == target@);
                }
                if contains_name(&linked, target) {
                    let v2 = g.add_vertex(target.as_str());
                    g.edges.push(Edge::new(v1, v2));
                }
                b += 1;
            }
            assert(links.take(links.len() as int) == links);
        }
        a += 1;
    }
    assert(all.take(all.len() as int) == all);
    g
}

/// The walk that copies the part of a graph within `hops` steps of the
/// vertex called `name`; nothing where no vertex has that name.
pub open spec fn within_hops(
    graph: (Seq<Seq<char>>, Seq<Edge>),
    name: Seq<char>,
    hops: nat,
) -> (Seq<Seq<char>>, Seq<Edge>) {
    if graph.0.contains(name) {
        grow(graph.0, graph.1, graph.0.index_of(name), hops, 0, (Seq::empty(), Seq::empty()))
    } else {
        (Seq::empty(), Seq::empty())
    }
}

/// The test that a dataset is drawn when the domain `domain` is selected:
/// it is of that domain, or its key is among `always`.
pub open spec fn in_domain(domain: Seq<char>, always: Option<Vec<String>>) -> spec_fn(Entry) -> bool {
    |e: Entry|
        e.1.domain == domain || match always {
            Some(keys) => is_among(keys@, e.0),
            None => false,
        }
}

/// The number of hops from a selected dataset where the settings give none.
pub const DEFAULT_HOPS: u32 = 2;

/// The graph that the settings select from the data.
pub open spec fn selected_graph<T>(data: Seq<Entry>, settings: Settings<T>) -> (
    Seq<Seq<char>>,
    Seq<Edge>,
) {
    match (settings.selection, settings.selected) {
        (Some(how), Some(what)) => if how@ == "dataset"@ {
            within_hops(
                built(data),
                what@,
                match settings.hops {
                    Some(h) => h as nat,
                    None => DEFAULT_HOPS as nat,
                },
            )
        } else if how@ == "domain"@ {
            built(data.filter(in_domain(what@, settings.datasets)))
        } else {
            built(data)
        },
        _ => built(data),
    }
}

/// The datasets that are drawn when the domain `domain` is selected.
pub fn datasets_of_domain(
    data: &Vec<(String, Dataset)>,
    domain: &String,
    always: &Option<Vec<String>>,
) -> (kept: Vec<(String, Dataset)>)
    ensures
        entries(kept@) == entries(data@).filter(in_domain(domain@, *always)),
{
    let mut kept: Vec<(String, Dataset)> = Vec::new();
    let ghost all = entries(data@);
    let ghost wanted = in_domain(domain@, *always);
    let mut i: usize = 0;
    proof {
        reveal(Seq::filter);
        assert(all.take(0).filter(wanted) == Seq::<Entry>::empty());
        assert(entries(kept@) =~= Seq::<Entry>::empty());
    }
    while i < data.len()
        invariant
            i <= data@.len(),
            all == entries(data@),
            wanted == in_domain(domain@, *always),
            entries(kept@) == all.take(i as int).filter(wanted),
        decreases data@.len() - i,
    {
        let ghost before = entries(kept@);
        let key = &data[i].0;
        let dataset = &data[i].1;
        let keep = dataset.domain == *domain || match always {
            Some(keys) => contains_name(keys, key),
            None => false,
        };
        proof {
            all.lemma_take_succ_push(i as int);
            all.take(i as int).lemma_filter_push(all[i as int], wanted);
            assert(keep == wanted(all[i as int]));
        }
        if keep {
            kept.push((key.clone(), dataset.clone()));
            assert(entries(kept@) =~= before.push(all[i as int]));
        }
        i += 1;
    }
    assert(all.take(all.len() as int) == all);
    kept
}

/// Builds the graph that the settings select: the part of the whole graph
/// around one dataset, the graph of the datasets of one domain, or the
/// whole graph.
pub fn build_graph<T>(data: &Vec<(String, Dataset)>, settings: &Settings<T>) -> (g: Graph)
    ensures
        g.wf(),
        g.content() == selected_graph(entries(data@), *settings),
{
    match (&settings.selection, &settings.selected) {
        (Some(how), Some(what)) => {
            if *how == "dataset".to_owned() {
                let hops = match settings.hops {
                    Some(h) => h,
                    None => DEFAULT_HOPS,
                };
                build_graph2(data).subgraph(what.as_str(), hops)
            } else if *how == "domain".to_owned() {
                let kept = datasets_of_domain(data, what, &settings.datasets);
                build_graph2(&kept)
            } else {
                build_graph2(data)
            }
        },
        _ => build_graph2(data),
    }
}

} // verus!
