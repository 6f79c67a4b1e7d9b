//! Graph model: nodes are plain indices, edge weights are plain integers,
//! and a weight of zero means "no edge".  The `Graph` trait is the narrow
//! edge-weight-lookup contract that the search drivers consume; `GraphMat`
//! backs it with an adjacency matrix.

use vstd::prelude::*;

verus! {

/// Nodes are identified by 32-bit indices.
pub type Node = u32;

/// Edge weights; zero means "no edge".
pub type Weight = u64;

/// Largest node count a well-formed graph may hold.
pub const MAX_NODES: usize = 0x8000;

/// Largest weight a well-formed graph gives any edge.
pub const MAX_EDGE_WEIGHT: u64 = 0xffff_ffff;

/// An edge: two endpoints and the weight between them.
#[derive(Clone, Copy, Debug)]
pub struct Edge(pub Node, pub Node, pub Weight);

impl Edge {
    /// The endpoints with the larger one first, so that the edges (a, b)
    /// and (b, a) normalize to the same pair.
    pub fn as_edge(self) -> (r: (Node, Node))
        ensures
            r == (if self.1 > self.0 { (self.1, self.0) } else { (self.0, self.1) }),
            r.0 >= r.1,
    {
        if self.1 > self.0 {
            (self.1, self.0)
        } else {
            (self.0, self.1)
        }
    }
}

/// What every graph backing must offer: a node count, edge-weight lookup
/// and update, and edge enumeration.  A weight of zero stands for an
/// absent edge, and every position outside the node range carries zero.
pub trait Graph: Sized {
    /// How many nodes the graph holds.
    spec fn spec_node_count(&self) -> int;

    /// The weight between two nodes; zero outside the node range.
    spec fn spec_weight(&self, a: int, b: int) -> Weight;

    /// Bounded node count and bounded weights.
    spec fn wf(&self) -> bool;

    /// What well-formedness guarantees about the two other spec functions.
    proof fn lemma_wf(&self)
        requires
            self.wf(),
        ensures
            0 <= self.spec_node_count() <= MAX_NODES,
            forall|a: int, b: int| #[trigger] self.spec_weight(a, b) <= MAX_EDGE_WEIGHT,
            forall|a: int, b: int|
                !(0 <= a < self.spec_node_count() && 0 <= b < self.spec_node_count())
                    ==> #[trigger] self.spec_weight(a, b) == 0;

    fn node_count(&self) -> (r: usize)
        requires
            self.wf(),
        ensures
            r == self.spec_node_count();

    /// Appends one node, carrying no edges yet; returns its index.
    fn add_node(&mut self) -> (r: Node)
        requires
            old(self).wf(),
            old(self).spec_node_count() < MAX_NODES,
        ensures
            final(self).wf(),
            r == old(self).spec_node_count(),
            final(self).spec_node_count() == old(self).spec_node_count() + 1,
            forall|a: int, b: int|
                #[trigger] final(self).spec_weight(a, b) == (if a == old(self).spec_node_count()
                    || b == old(self).spec_node_count() {
                    0
                } else {
                    old(self).spec_weight(a, b)
                }),
    ;

    /// Sets the weight in both directions.
    fn add_edge(&mut self, a: Node, b: Node, weight: Weight)
        requires
            old(self).wf(),
            (a as int) < old(self).spec_node_count(),
            (b as int) < old(self).spec_node_count(),
            weight <= MAX_EDGE_WEIGHT,
        ensures
            final(self).wf(),
            final(self).spec_node_count() == old(self).spec_node_count(),
            forall|x: int, y: int|
                #[trigger] final(self).spec_weight(x, y) == (if (x == a && y == b) || (x == b
                    && y == a) {
                    weight
                } else {
                    old(self).spec_weight(x, y)
                }),
    ;

    /// Sets the weight in one direction only.
    fn set_edge_weight(&mut self, a: Node, b: Node, weight: Weight)
        requires
            old(self).wf(),
            (a as int) < old(self).spec_node_count(),
            (b as int) < old(self).spec_node_count(),
            weight <= MAX_EDGE_WEIGHT,
        ensures
            final(self).wf(),
            final(self).spec_node_count() == old(self).spec_node_count(),
            forall|x: int, y: int|
                #[trigger] final(self).spec_weight(x, y) == (if x == a && y == b {
                    weight
                } else {
                    old(self).spec_weight(x, y)
                }),
    ;

    fn get_edge_weight(&self, a: Node, b: Node) -> (r: Option<Weight>)
        requires
            self.wf(),
        ensures
            r == (if self.spec_weight(a as int, b as int) == 0 {
                Option::<Weight>::None
            } else {
                Option::<Weight>::Some(self.spec_weight(a as int, b as int))
            }),
    ;

    /// Every present edge, one entry per ordered pair with nonzero weight.
    fn edges(&self) -> (r: Vec<Edge>)
        requires
            self.wf(),
        ensures
            forall|k: int|
                0 <= k < r.len() ==> (#[trigger] r[k]).0 < self.spec_node_count() && r[k].1
                    < self.spec_node_count() && r[k].2 == self.spec_weight(
                    r[k].0 as int,
                    r[k].1 as int,
                ) && r[k].2 != 0,
            forall|a: int, b: int|
                0 <= a < self.spec_node_count() && 0 <= b < self.spec_node_count()
                    && #[trigger] self.spec_weight(a, b) != 0 ==> exists|k: int|
                    0 <= k < r.len() && (#[trigger] r[k]).0 == a && r[k].1 == b,
            forall|k1: int, k2: int|
                0 <= k1 < k2 < r.len() ==> !((#[trigger] r[k1]).0 == (#[trigger] r[k2]).0 && r[k1].1
                    == r[k2].1),
    ;

    /// The present edges leaving one node, one entry per nonzero weight.
    fn get_node_edges(&self, a: Node) -> (r: Vec<Edge>)
        requires
            self.wf(),
            (a as int) < self.spec_node_count(),
        ensures
            forall|k: int|
                0 <= k < r.len() ==> (#[trigger] r[k]).0 == a && r[k].1 < self.spec_node_count()
                    && r[k].2 == self.spec_weight(a as int, r[k].1 as int) && r[k].2 != 0,
            forall|b: int|
                0 <= b < self.spec_node_count() && #[trigger] self.spec_weight(a as int, b) != 0
                    ==> exists|k: int| 0 <= k < r.len() && (#[trigger] r[k]).1 == b,
            forall|k1: int, k2: int|
                0 <= k1 < k2 < r.len() ==> (#[trigger] r[k1]).1 != (#[trigger] r[k2]).1,
    ;
}

/// Appends `node_count` nodes and returns their indices, in order.
pub fn add_nodes<G: Graph>(graph: &mut G, node_count: usize) -> (r: Vec<Node>)
    requires
        old(graph).wf(),
        old(graph).spec_node_count() + node_count <= MAX_NODES,
    ensures
        final(graph).wf(),
        final(graph).spec_node_count() == old(graph).spec_node_count() + node_count,
        r.len() == node_count,
        forall|k: int|
            0 <= k < node_count ==> (#[trigger] r[k]) as int == old(graph).spec_node_count() + k,
        forall|a: int, b: int|
            #[trigger] final(graph).spec_weight(a, b) == (if a < old(graph).spec_node_count() && b
                < old(graph).spec_node_count() {
                old(graph).spec_weight(a, b)
            } else {
                0
            }),
{
    proof {
        old(graph).lemma_wf();
    }
    let mut r: Vec<Node> = Vec::new();
    let mut i: usize = 0;
    while i < node_count
        invariant
            i <= node_count,
            r.len() == i,
            graph.wf(),
            graph.spec_node_count() == old(graph).spec_node_count() + i,
            old(graph).spec_node_count() + node_count <= MAX_NODES,
            forall|k: int|
                0 <= k < i ==> (#[trigger] r[k]) as int == old(graph).spec_node_count() + k,
            forall|a: int, b: int|
                #[trigger] graph.spec_weight(a, b) == (if a < old(graph).spec_node_count() && b
                    < old(graph).spec_node_count() {
                    old(graph).spec_weight(a, b)
                } else {
                    0
                }),
        decreases node_count - i,
    {
        proof {
            graph.lemma_wf();
        }
        let node = graph.add_node();
        r.push(node);
        i = i + 1;
    }
    r
}

/// Why a set of graph input rows is rejected.
#[derive(Clone, Copy, Debug, PartialEq, Eq, Structural)]
pub enum GraphInputError {
    /// No rows at all.
    Empty,
    /// The first row does not hold exactly a node count and an edge count.
    BadHeader,
    /// More nodes than a well-formed graph may hold.
    TooManyNodes,
    /// Fewer edge rows than the header promises.
    MissingEdges,
    /// An edge row without exactly three values, or with an endpoint
    /// outside `1..=node_count`.
    BadEdge,
}

/// Whether an edge row is well-formed for `vertex_count` nodes: three
/// values, both one-based endpoints in range.
pub open spec fn spec_edge_row_ok(row: Seq<u32>, vertex_count: int) -> bool {
    &&& row.len() == 3
    &&& 1 <= row[0] <= vertex_count
    &&& 1 <= row[1] <= vertex_count
}

/// The weight between `a` and `b` after the first `k` edge rows (rows
/// `1..=k` of the input) are applied: the last row naming the pair, in
/// either order, wins.
pub open spec fn spec_filled_weight(data: Seq<Seq<u32>>, k: int, a: int, b: int) -> Weight
    decreases k,
{
    if k <= 0 {
        0
    } else {
        let row = data[k];
        if (row[0] - 1 == a && row[1] - 1 == b) || (row[0] - 1 == b && row[1] - 1 == a) {
            row[2] as Weight
        } else {
            spec_filled_weight(data, k - 1, a, b)
        }
    }
}

/// Fills an empty graph from numeric rows: the first row holds the node
/// count and edge count, and each edge row holds two one-based endpoints
/// and a weight.
pub fn fill_graph<G: Graph>(input_data: &Vec<Vec<u32>>, graph: &mut G) -> (r: Result<
    (),
    GraphInputError,
>)
    requires
        old(graph).wf(),
        old(graph).spec_node_count() == 0,
    ensures
        input_data.deep_view().len() == 0 ==> r == Result::<(), GraphInputError>::Err(GraphInputError::Empty),
        input_data.deep_view().len() >= 1 && input_data.deep_view()[0].len() != 2 ==> r == Result::<
            (),
            GraphInputError,
        >::Err(GraphInputError::BadHeader),
        input_data.deep_view().len() >= 1 && input_data.deep_view()[0].len() == 2 && input_data.deep_view()[0][0] > MAX_NODES ==> r
            == Result::<(), GraphInputError>::Err(GraphInputError::TooManyNodes),
        input_data.deep_view().len() >= 1 && input_data.deep_view()[0].len() == 2 && input_data.deep_view()[0][0] <= MAX_NODES
            && input_data.deep_view().len() < 1 + input_data.deep_view()[0][1] ==> r == Result::<
            (),
            GraphInputError,
        >::Err(GraphInputError::MissingEdges),
        input_data.deep_view().len() >= 1 && input_data.deep_view()[0].len() == 2 && input_data.deep_view()[0][0] <= MAX_NODES
            && input_data.deep_view().len() >= 1 + input_data.deep_view()[0][1] && (exists|i: int|
            0 <= i < input_data.deep_view()[0][1] && !spec_edge_row_ok(
                #[trigger] input_data.deep_view()[1 + i],
                input_data.deep_view()[0][0] as int,
            )) ==> r == Result::<(), GraphInputError>::Err(GraphInputError::BadEdge),
        input_data.deep_view().len() >= 1 && input_data.deep_view()[0].len() == 2 && input_data.deep_view()[0][0] <= MAX_NODES
            && input_data.deep_view().len() >= 1 + input_data.deep_view()[0][1] && (forall|i: int|
            0 <= i < input_data.deep_view()[0][1] ==> spec_edge_row_ok(
                #[trigger] input_data.deep_view()[1 + i],
                input_data.deep_view()[0][0] as int,
            )) ==> r is Ok && final(graph).wf() && final(graph).spec_node_count()
            == input_data.deep_view()[0][0] && (forall|a: int, b: int|
            0 <= a < input_data.deep_view()[0][0] && 0 <= b < input_data.deep_view()[0][0]
                ==> #[trigger] final(graph).spec_weight(a, b) == spec_filled_weight(
                input_data.deep_view(),
                input_data.deep_view()[0][1] as int,
                a,
                b,
            )),
{
    proof {
        assert(input_data.deep_view().len() == input_data@.len());
    }
    if input_data.len() == 0 {
        return Err(GraphInputError::Empty);
    }
    let head = &input_data[0];
    proof {
        assert(input_data.deep_view()[0] =~= head@);
    }
    if head.len() != 2 {
        return Err(GraphInputError::BadHeader);
    }
    let vertex_count = head[0];
    let edge_count = head[1];
    if vertex_count as usize > MAX_NODES {
        return Err(GraphInputError::TooManyNodes);
    }
    if (input_data.len() as u64) < 1 + edge_count as u64 {
        return Err(GraphInputError::MissingEdges);
    }
    let mut i: usize = 0;
    while i < edge_count as usize
        invariant
            i <= edge_count,
            input_data.deep_view().len() == input_data@.len(),
            input_data.deep_view().len() >= 1 + edge_count,
            input_data.deep_view()[0].len() == 2,
            vertex_count == input_data.deep_view()[0][0],
            edge_count == input_data.deep_view()[0][1],
            vertex_count <= MAX_NODES,
            forall|j: int|
                0 <= j < i ==> spec_edge_row_ok(#[trigger] input_data.deep_view()[1 + j], vertex_count as int),
        decreases edge_count - i,
    {
        let row = &input_data[1 + i];
        proof {
            assert(input_data.deep_view()[1 + i as int] =~= row@);
        }
        if row.len() != 3 {
            return Err(GraphInputError::BadEdge);
        }
        if row[0] < 1 || row[0] > vertex_count || row[1] < 1 || row[1] > vertex_count {
            return Err(GraphInputError::BadEdge);
        }
        i = i + 1;
    }
    add_nodes(graph, vertex_count as usize);
    let mut k: usize = 0;
    while k < edge_count as usize
        invariant
            k <= edge_count,
            input_data.deep_view().len() >= 1 + edge_count,
            graph.wf(),
            graph.spec_node_count() == vertex_count,
            vertex_count <= MAX_NODES,
            forall|j: int|
                0 <= j < edge_count ==> spec_edge_row_ok(
                    #[trigger] input_data.deep_view()[1 + j],
                    vertex_count as int,
                ),
            forall|a: int, b: int|
                0 <= a < vertex_count && 0 <= b < vertex_count ==> #[trigger] graph.spec_weight(
                    a,
                    b,
                ) == spec_filled_weight(input_data.deep_view(), k as int, a, b),
        decreases edge_count - k,
    {
        let row = &input_data[1 + k];
        proof {
            assert(input_data.deep_view()[1 + k as int] =~= row@);
        }
        let a = row[0] - 1;
        let b = row[1] - 1;
        let weight = row[2] as Weight;
        proof {
            graph.lemma_wf();
        }
        graph.add_edge(a, b, weight);
        k = k + 1;
    }
    Ok(())
}

/// A graph backed by a flat adjacency matrix of `node_count * node_count`
/// weights, row-major: the weight from `a` to `b` sits at `a * node_count + b`.
#[derive(Clone, Debug)]
pub struct GraphMat {
    node_count: usize,
    links: Vec<Weight>,
}

impl GraphMat {
    /// The matrix has exactly one cell per ordered node pair, the node
    /// count is bounded, and every weight is bounded.
    pub closed spec fn inv(&self) -> bool {
        &&& self.links.len() == self.node_count * self.node_count
        &&& self.node_count <= MAX_NODES
        &&& forall|i: int| 0 <= i < self.links.len() ==> #[trigger] self.links[i] <= MAX_EDGE_WEIGHT
    }
}

impl Default for GraphMat {
    /// An empty graph: no nodes, no edges.
    fn default() -> (r: Self)
        ensures
            r.wf(),
            r.spec_node_count() == 0,
    {
        GraphMat { node_count: 0, links: Vec::new() }
    }
}

impl Graph for GraphMat {
    closed spec fn spec_node_count(&self) -> int {
        self.node_count as int
    }

    closed spec fn spec_weight(&self, a: int, b: int) -> Weight {
        if 0 <= a < self.node_count && 0 <= b < self.node_count {
            self.links[a * (self.node_count as int) + b]
        } else {
            0
        }
    }

    closed spec fn wf(&self) -> bool {
        self.inv()
    }

    proof fn lemma_wf(&self) {
        let n = self.node_count as int;
        assert forall|a: int, b: int| #[trigger] self.spec_weight(a, b) <= MAX_EDGE_WEIGHT by {
            if 0 <= a < n && 0 <= b < n {
                assert(a * n + b < n * n) by (nonlinear_arith)
                    requires
                        0 <= a < n,
                        0 <= b < n,
                ;
                assert(0 <= a * n + b) by (nonlinear_arith)
                    requires
                        0 <= a,
                        0 <= b,
                        0 <= n,
                ;
            }
        }
    }

    fn node_count(&self) -> (r: usize) {
        self.node_count
    }

    fn add_node(&mut self) -> (r: Node) {
        let n = self.node_count;
        let new_n = n + 1;
        proof {
            assert(new_n * new_n <= MAX_NODES * MAX_NODES) by (nonlinear_arith)
                requires
                    0 < new_n <= MAX_NODES,
            ;
        }
        let total = new_n * new_n;
        let ghost old_self = *self;
        let mut new_links: Vec<Weight> = Vec::new();
        let mut k: usize = 0;
        while k < total
            invariant
                new_links.len() == k,
                k <= total,
                total == new_n * new_n,
                new_n == n + 1,
                *self == old_self,
                self.inv(),
                n == self.node_count,
                forall|j: int|
                    0 <= j < k ==> #[trigger] new_links[j] == (if (j / (new_n as int)) < n && (j % (
                    new_n as int)) < n {
                        self.links[(j / (new_n as int)) * (n as int) + (j % (new_n as int))]
                    } else {
                        0
                    }),
            decreases total - k,
        {
            let r = k / new_n;
            let c = k % new_n;
            if r < n && c < n {
                proof {
                    assert(r * n + c < n * n) by (nonlinear_arith)
                        requires
                            0 <= (r as int) < n,
                            0 <= (c as int) < n,
                    ;
                }
                let w = self.links[r * n + c];
                new_links.push(w);
            } else {
                new_links.push(0);
            }
            k = k + 1;
        }
        self.links = new_links;
        self.node_count = new_n;
        proof {
            let ni = new_n as int;
            assert forall|i: int| 0 <= i < self.links.len() implies #[trigger] self.links[i]
                <= MAX_EDGE_WEIGHT by {
                vstd::arithmetic::div_mod::lemma_fundamental_div_mod(i, ni);
                vstd::arithmetic::div_mod::lemma_remainder_upper(i, ni);
                vstd::arithmetic::div_mod::lemma_remainder_lower(i, ni);
                vstd::arithmetic::div_mod::lemma_div_pos_is_pos(i, ni);
                if (i / ni) < n && (i % ni) < n {
                    assert((i / ni) * (n as int) + (i % ni) < (n as int) * (n as int))
                        by (nonlinear_arith)
                        requires
                            0 <= (i / ni) < (n as int),
                            0 <= (i % ni) < (n as int),
                    ;
                    assert(0 <= (i / ni) * (n as int) + (i % ni)) by (nonlinear_arith)
                        requires
                            0 <= (i / ni),
                            0 <= (i % ni),
                            0 <= (n as int),
                    ;
                }
                if !(0 <= i / ni < ni) {
                    assert(false) by (nonlinear_arith)
                        requires
                            0 <= i < ni * ni,
                            0 < ni,
                            i == ni * (i / ni) + (i % ni),
                            0 <= i % ni < ni,
                            !(0 <= i / ni < ni),
                    ;
                }
            }
            assert forall|a: int, b: int| #[trigger] self.spec_weight(a, b) == (if a == (n as int)
                || b == (n as int) {
                0
            } else {
                old_self.spec_weight(a, b)
            }) by {
                let ni = new_n as int;
                if 0 <= a < ni && 0 <= b < ni {
                    assert(0 <= a * ni + b < ni * ni) by (nonlinear_arith)
                        requires
                            0 <= a < ni,
                            0 <= b < ni,
                    ;
                    assert((a * ni + b) / ni == a && (a * ni + b) % ni == b) by (nonlinear_arith)
                        requires
                            0 <= a,
                            0 <= b < ni,
                            0 < ni,
                    ;
                    if a < n && b < n {
                        assert(0 <= a * (n as int) + b < (n as int) * (n as int))
                            by (nonlinear_arith)
                            requires
                                0 <= a < (n as int),
                                0 <= b < (n as int),
                        ;
                    }
                }
            }
        }
        n as Node
    }

    fn add_edge(&mut self, a: Node, b: Node, weight: Weight) {
        self.set_edge_weight(a, b, weight);
        self.set_edge_weight(b, a, weight);
    }

    fn set_edge_weight(&mut self, a: Node, b: Node, weight: Weight) {
        let n = self.node_count;
        let au = a as usize;
        let bu = b as usize;
        proof {
            assert(0 <= (au as int) * (n as int) + (bu as int) < (n as int) * (n as int))
                by (nonlinear_arith)
                requires
                    0 <= (au as int) < (n as int),
                    0 <= (bu as int) < (n as int),
            ;
            assert((au as int) * (n as int) + (bu as int) <= MAX_NODES * MAX_NODES)
                by (nonlinear_arith)
                requires
                    0 <= (au as int) * (n as int) + (bu as int) < (n as int) * (n as int),
                    (n as int) <= MAX_NODES,
                    0 <= (n as int),
            ;
        }
        let idx = au * n + bu;
        self.links.set(idx, weight);
        proof {
            let ghost ni = n as int;
            assert forall|x: int, y: int| #[trigger] self.spec_weight(x, y) == (if x == a && y == b {
                weight
            } else {
                old(self).spec_weight(x, y)
            }) by {
                if 0 <= x < ni && 0 <= y < ni {
                    assert(0 <= x * ni + y < ni * ni) by (nonlinear_arith)
                        requires
                            0 <= x < ni,
                            0 <= y < ni,
                    ;
                    if !(x == a && y == b) {
                        assert(x * ni + y != (au as int) * ni + (bu as int)) by (nonlinear_arith)
                            requires
                                0 <= x < ni,
                                0 <= y < ni,
                                0 <= (au as int) < ni,
                                0 <= (bu as int) < ni,
                                !(x == (au as int) && y == (bu as int)),
                        ;
                    }
                }
            }
        }
    }

    fn get_edge_weight(&self, a: Node, b: Node) -> (r: Option<Weight>) {
        let n = self.node_count;
        if (a as usize) < n && (b as usize) < n {
            proof {
                assert(0 <= (a as int) * (n as int) + (b as int) < (n as int) * (n as int))
                    by (nonlinear_arith)
                    requires
                        0 <= (a as int) < (n as int),
                        0 <= (b as int) < (n as int),
                ;
                assert((a as int) * (n as int) + (b as int) <= MAX_NODES * MAX_NODES)
                    by (nonlinear_arith)
                    requires
                        0 <= (a as int) * (n as int) + (b as int) < (n as int) * (n as int),
                        (n as int) <= MAX_NODES,
                        0 <= (n as int),
                ;
            }
            let idx = (a as usize) * n + (b as usize);
            let w = self.links[idx];
            if w == 0 {
                None
            } else {
                Some(w)
            }
        } else {
            None
        }
    }

    fn edges(&self) -> (r: Vec<Edge>) {
        let n = self.node_count;
        let mut r: Vec<Edge> = Vec::new();
        let mut a: usize = 0;
        while a < n
            invariant
                a <= n,
                n == self.node_count,
                self.inv(),
                forall|k: int|
                    0 <= k < r.len() ==> (#[trigger] r[k]).0 < a && r[k].1 < n && r[k].2
                        == self.spec_weight(r[k].0 as int, r[k].1 as int) && r[k].2 != 0,
                forall|x: int, y: int|
                    0 <= x < a && 0 <= y < n && #[trigger] self.spec_weight(x, y) != 0
                        ==> exists|k: int|
                        0 <= k < r.len() && (#[trigger] r[k]).0 == x && r[k].1 == y,
                forall|k1: int, k2: int|
                    0 <= k1 < k2 < r.len() ==> !((#[trigger] r[k1]).0 == (#[trigger] r[k2]).0
                        && r[k1].1 == r[k2].1),
            decreases n - a,
        {
            let mut row = self.get_node_edges_impl(a as Node);
            let mut j: usize = 0;
            let ghost r0 = r;
            while j < row.len()
                invariant
                    j <= row.len(),
                    n == self.node_count,
                    self.inv(),
                    a < n,
                    r.len() == r0.len() + j,
                    forall|k: int| 0 <= k < r0.len() ==> #[trigger] r[k] == r0[k],
                    forall|k: int|
                        0 <= k < r0.len() ==> (#[trigger] r0[k]).0 < a && r0[k].1 < n && r0[k].2
                            == self.spec_weight(r0[k].0 as int, r0[k].1 as int) && r0[k].2 != 0,
                    forall|k1: int, k2: int|
                        0 <= k1 < k2 < r0.len() ==> !((#[trigger] r0[k1]).0 == (#[trigger] r0[k2]).0
                            && r0[k1].1 == r0[k2].1),
                    forall|k: int|
                        0 <= k < row.len() ==> (#[trigger] row[k]).0 == a && row[k].1 < n
                            && row[k].2 == self.spec_weight(a as int, row[k].1 as int) && row[k].2
                            != 0,
                    forall|k1: int, k2: int|
                        0 <= k1 < k2 < row.len() ==> (#[trigger] row[k1]).1 != (
                        #[trigger] row[k2]).1,
                    forall|k: int|
                        0 <= k < j ==> #[trigger] r[r0.len() + k] == row[k],
                decreases row.len() - j,
            {
                let e = row[j];
                r.push(e);
                j = j + 1;
            }
            proof {
                assert(r.len() == r0.len() + row.len());
                assert forall|k: int|
                    0 <= k < r.len() implies (#[trigger] r[k]).0 < a + 1 && r[k].1 < n && r[k].2
                    == self.spec_weight(r[k].0 as int, r[k].1 as int) && r[k].2 != 0 by {
                    if k < r0.len() {
                        assert(r[k] == r0[k]);
                    } else {
                        let kk = k - r0.len();
                        assert(r[r0.len() + kk] == row[kk]);
                    }
                }
                assert forall|x: int, y: int|
                    0 <= x < a + 1 && 0 <= y < n && #[trigger] self.spec_weight(x, y) != 0
                        implies exists|k: int|
                    0 <= k < r.len() && (#[trigger] r[k]).0 == x && r[k].1 == y by {
                    if x < a {
                        let k0 = choose|k: int|
                            0 <= k < r0.len() && (#[trigger] r0[k]).0 == x && r0[k].1 == y;
                        assert(r[k0].0 == x && r[k0].1 == y);
                    } else {
                        let kr = choose|k: int| 0 <= k < row.len() && (#[trigger] row[k]).1 == y;
                        assert(r[r0.len() + kr] == row[kr]);
                    }
                }
                assert forall|k1: int, k2: int|
                    0 <= k1 < k2 < r.len() implies !((#[trigger] r[k1]).0 == (#[trigger] r[k2]).0
                    && r[k1].1 == r[k2].1) by {
                    if k1 < r0.len() && k2 < r0.len() {
                        assert(r[k1] == r0[k1] && r[k2] == r0[k2]);
                    } else if k1 < r0.len() {
                        let kk2 = k2 - r0.len();
                        assert(r[k1] == r0[k1] && r[r0.len() + kk2] == row[kk2]);
                        assert(r[k1].0 < a && r[k2].0 == a);
                    } else {
                        let kk1 = k1 - r0.len();
                        let kk2 = k2 - r0.len();
                        assert(r[r0.len() + kk1] == row[kk1] && r[r0.len() + kk2] == row[kk2]);
                    }
                }
            }
            a = a + 1;
        }
        r
    }

    fn get_node_edges(&self, a: Node) -> (r: Vec<Edge>) {
        self.get_node_edges_impl(a)
    }
}

impl GraphMat {
    /// One row of the matrix as an edge list, skipping absent edges.
    fn get_node_edges_impl(&self, a: Node) -> (r: Vec<Edge>)
        requires
            self.inv(),
            (a as int) < self.node_count,
        ensures
            forall|k: int|
                0 <= k < r.len() ==> (#[trigger] r[k]).0 == a && r[k].1 < self.spec_node_count()
                    && r[k].2 == self.spec_weight(a as int, r[k].1 as int) && r[k].2 != 0,
            forall|b: int|
                0 <= b < self.spec_node_count() && #[trigger] self.spec_weight(a as int, b) != 0
                    ==> exists|k: int| 0 <= k < r.len() && (#[trigger] r[k]).1 == b,
            forall|k1: int, k2: int|
                0 <= k1 < k2 < r.len() ==> (#[trigger] r[k1]).1 < (#[trigger] r[k2]).1,
    {
        let n = self.node_count;
        let mut r: Vec<Edge> = Vec::new();
        let mut b: usize = 0;
        while b < n
            invariant
                b <= n,
                n == self.node_count,
                self.inv(),
                (a as int) < self.node_count,
                forall|k: int|
                    0 <= k < r.len() ==> (#[trigger] r[k]).0 == a && r[k].1 < b && r[k].2
                        == self.spec_weight(a as int, r[k].1 as int) && r[k].2 != 0,
                forall|y: int|
                    0 <= y < b && #[trigger] self.spec_weight(a as int, y) != 0 ==> exists|k: int|
                        0 <= k < r.len() && (#[trigger] r[k]).1 == y,
                forall|k1: int, k2: int|
                    0 <= k1 < k2 < r.len() ==> (#[trigger] r[k1]).1 < (#[trigger] r[k2]).1,
            decreases n - b,
        {
            let ghost r_old = r;
            match self.get_edge_weight(a, b as Node) {
                Some(w) => {
                    let e = Edge(a, b as Node, w);
                    r.push(e);
                },
                None => {},
            }
            proof {
                assert forall|y: int|
                    0 <= y < b + 1 && #[trigger] self.spec_weight(a as int, y) != 0
                        implies exists|k: int|
                    0 <= k < r.len() && (#[trigger] r[k]).1 == y by {
                    if y < b {
                        let k0 = choose|k: int|
                            0 <= k < r_old.len() && (#[trigger] r_old[k]).1 == y;
                        assert(r[k0].1 == y);
                    } else {
                        assert(r[r.len() - 1].1 == y);
                    }
                }
            }
            b = b + 1;
        }
        r
    }
}

} // verus!
