//! TSP candidates: a tour visits every node exactly once, and its value is
//! the cycle length — the edge weights along consecutive pairs plus the
//! closing edge from the last node back to the first.

use vstd::prelude::*;

use crate::graph::Graph;
use crate::graph::Node;
use crate::graph::MAX_EDGE_WEIGHT;

verus! {

/// A tour encoding, one entry per node.
pub type NodeList = Vec<Node>;

/// `s` is a permutation of `0..n`: right length, in range, no repeats.
pub open spec fn spec_is_perm(s: Seq<Node>, n: int) -> bool {
    &&& s.len() == n
    &&& forall|k: int| 0 <= k < s.len() ==> (#[trigger] s[k] as int) < n
    &&& s.no_duplicates()
}

/// Every ordered pair of distinct nodes carries an edge.
pub open spec fn spec_complete<G: Graph>(g: &G) -> bool {
    forall|a: int, b: int|
        0 <= a < g.spec_node_count() && 0 <= b < g.spec_node_count() && a != b
            ==> #[trigger] g.spec_weight(a, b) != 0
}

/// Sum of the edge weights along consecutive pairs from position `i` on.
pub open spec fn spec_path_tail<G: Graph>(g: &G, s: Seq<Node>, i: int) -> int
    decreases s.len() - i,
{
    if i < 0 || i + 1 >= s.len() {
        0
    } else {
        g.spec_weight(s[i] as int, s[i + 1] as int) + spec_path_tail(g, s, i + 1)
    }
}

/// Full cycle length: the path along the sequence plus the closing edge.
pub open spec fn spec_tour_value<G: Graph>(g: &G, s: Seq<Node>) -> int {
    if s.len() == 0 {
        0
    } else {
        spec_path_tail(g, s, 0) + g.spec_weight(s.last() as int, s[0] as int)
    }
}

/// Path sums over a well-formed graph are nonnegative and bounded.
pub proof fn lemma_path_tail_bounds<G: Graph>(g: &G, s: Seq<Node>, i: int)
    requires
        g.wf(),
        0 <= i,
    ensures
        0 <= spec_path_tail(g, s, i),
        spec_path_tail(g, s, i) <= (if i < s.len() {
            (s.len() - i) * (MAX_EDGE_WEIGHT as int)
        } else {
            0
        }),
    decreases s.len() - i,
{
    g.lemma_wf();
    if i < 0 || i + 1 >= s.len() {
        if i < s.len() {
            assert(0 <= (s.len() - i) * (MAX_EDGE_WEIGHT as int)) by (nonlinear_arith)
                requires
                    0 <= s.len() - i,
            ;
        }
    } else {
        lemma_path_tail_bounds(g, s, i + 1);
        assert((s.len() - i - 1) * (MAX_EDGE_WEIGHT as int) + (MAX_EDGE_WEIGHT as int) == (s.len()
            - i) * (MAX_EDGE_WEIGHT as int)) by (nonlinear_arith);
    }
}

/// Tour values over a well-formed graph are nonnegative and bounded.
pub proof fn lemma_tour_value_bounds<G: Graph>(g: &G, s: Seq<Node>)
    requires
        g.wf(),
    ensures
        0 <= spec_tour_value(g, s),
        spec_tour_value(g, s) <= (s.len() + 1) * (MAX_EDGE_WEIGHT as int),
{
    g.lemma_wf();
    lemma_path_tail_bounds(g, s, 0);
    assert((s.len() as int) * (MAX_EDGE_WEIGHT as int) + (MAX_EDGE_WEIGHT as int) == (s.len() + 1)
        * (MAX_EDGE_WEIGHT as int)) by (nonlinear_arith);
    assert(0 <= (s.len() + 1) * (MAX_EDGE_WEIGHT as int)) by (nonlinear_arith)
        requires
            0 <= s.len() + 1,
    ;
}

/// A sequence of distinct values below `n` has at most `n` entries.
pub proof fn lemma_distinct_bounded(s: Seq<Node>, n: int)
    requires
        s.no_duplicates(),
        forall|k: int| 0 <= k < s.len() ==> (#[trigger] s[k] as int) < n,
        0 <= n,
    ensures
        s.len() <= n,
{
    broadcast use vstd::seq_lib::group_seq_properties;

    let si = s.map_values(|x: Node| x as int);
    assert(si.no_duplicates()) by {
        assert forall|i: int, j: int|
            0 <= i < si.len() && 0 <= j < si.len() && i != j implies si[i] != si[j] by {
            assert(s[i] != s[j]);
        }
    }
    si.unique_seq_to_set();
    assert(si.to_set().subset_of(vstd::set_lib::set_int_range(0, n))) by {
        assert forall|v: int| si.to_set().contains(v) implies vstd::set_lib::set_int_range(
            0,
            n,
        ).contains(v) by {
            let k = choose|k: int| 0 <= k < si.len() && si[k] == v;
            assert((s[k] as int) < n);
        }
    }
    vstd::set_lib::lemma_int_range(0, n);
    vstd::set_lib::lemma_len_subset(si.to_set(), vstd::set_lib::set_int_range(0, n));
}

/// The sequence holds value `v` somewhere.
pub open spec fn spec_hits(s: Seq<Node>, v: int) -> bool {
    exists|k: int| 0 <= k < s.len() && (#[trigger] s[k] as int) == v
}

/// A sequence of distinct values below `n` that reaches every value below
/// `n` is a permutation of `0..n`.
pub proof fn lemma_covering_perm(s: Seq<Node>, n: int)
    requires
        s.no_duplicates(),
        forall|k: int| 0 <= k < s.len() ==> (#[trigger] s[k] as int) < n,
        forall|v: int| 0 <= v < n ==> #[trigger] spec_hits(s, v),
        0 <= n,
    ensures
        spec_is_perm(s, n),
{
    broadcast use vstd::seq_lib::group_seq_properties;

    lemma_distinct_bounded(s, n);
    let si = s.map_values(|x: Node| x as int);
    assert(si.no_duplicates()) by {
        assert forall|i: int, j: int|
            0 <= i < si.len() && 0 <= j < si.len() && i != j implies si[i] != si[j] by {
            assert(s[i] != s[j]);
        }
    }
    si.unique_seq_to_set();
    assert(vstd::set_lib::set_int_range(0, n).subset_of(si.to_set())) by {
        assert forall|v: int| vstd::set_lib::set_int_range(0, n).contains(v) implies si.to_set().contains(
            v,
        ) by {
            assert(spec_hits(s, v));
            let k = choose|k: int| 0 <= k < s.len() && (#[trigger] s[k] as int) == v;
            assert(si[k] == v);
        }
    }
    vstd::set_lib::lemma_int_range(0, n);
    vstd::set_lib::lemma_len_subset(vstd::set_lib::set_int_range(0, n), si.to_set());
}

/// A permutation reaches every value below `n`: together with
/// `spec_is_perm` itself this is the bijection over `0..n`.
pub proof fn lemma_perm_bijective(s: Seq<Node>, n: int)
    requires
        spec_is_perm(s, n),
    ensures
        forall|v: int| 0 <= v < n ==> #[trigger] spec_hits(s, v),
{
    broadcast use vstd::seq_lib::group_seq_properties;

    let si = s.map_values(|x: Node| x as int);
    assert(si.no_duplicates()) by {
        assert forall|i: int, j: int|
            0 <= i < si.len() && 0 <= j < si.len() && i != j implies si[i] != si[j] by {
            assert(s[i] != s[j]);
        }
    }
    si.unique_seq_to_set();
    vstd::set_lib::lemma_int_range(0, n);
    assert(si.to_set().subset_of(vstd::set_lib::set_int_range(0, n))) by {
        assert forall|v: int| si.to_set().contains(v) implies vstd::set_lib::set_int_range(
            0,
            n,
        ).contains(v) by {
            let k = choose|k: int| 0 <= k < si.len() && si[k] == v;
            assert((s[k] as int) < n);
        }
    }
    assert forall|v: int| 0 <= v < n implies #[trigger] spec_hits(s, v) by {
        if !si.to_set().contains(v) {
            let smaller = si.to_set();
            assert(smaller.subset_of(vstd::set_lib::set_int_range(0, n).remove(v)));
            vstd::set_lib::lemma_len_subset(smaller, vstd::set_lib::set_int_range(0, n).remove(v));
        }
        let k = choose|k: int| 0 <= k < si.len() && si[k] == v;
        assert(0 <= k < s.len() && (s[k] as int) == v);
    }
}

/// Moving one entry from the pool to the path keeps the pair a split of
/// a permutation: both stay duplicate-free and in range, they stay
/// disjoint, and together they still reach every value below `n`.
pub proof fn lemma_transfer_element(path: Seq<Node>, pool: Seq<Node>, idx: int, n: int)
    requires
        path.no_duplicates(),
        pool.no_duplicates(),
        forall|k: int| 0 <= k < path.len() ==> (#[trigger] path[k] as int) < n,
        forall|k: int| 0 <= k < pool.len() ==> (#[trigger] pool[k] as int) < n,
        forall|v: Node| !(#[trigger] path.contains(v) && pool.contains(v)),
        forall|v: int| 0 <= v < n ==> #[trigger] spec_hits(path, v) || spec_hits(pool, v),
        0 <= idx < pool.len(),
    ensures
        path.push(pool[idx]).no_duplicates(),
        pool.remove(idx).no_duplicates(),
        forall|k: int|
            0 <= k < path.push(pool[idx]).len() ==> (#[trigger] path.push(pool[idx])[k] as int) < n,
        forall|k: int|
            0 <= k < pool.remove(idx).len() ==> (#[trigger] pool.remove(idx)[k] as int) < n,
        forall|v: Node| !(#[trigger] path.push(pool[idx]).contains(v) && pool.remove(idx).contains(v)),
        forall|v: int|
            0 <= v < n ==> #[trigger] spec_hits(path.push(pool[idx]), v) || spec_hits(
                pool.remove(idx),
                v,
            ),
{
    let x = pool[idx];
    let path2 = path.push(x);
    let pool2 = pool.remove(idx);
    assert(pool.contains(x));
    assert(!path.contains(x));
    assert forall|i: int, j: int|
        0 <= i < path2.len() && 0 <= j < path2.len() && i != j implies path2[i] != path2[j] by {
        if i < path.len() && j < path.len() {
            assert(path2[i] == path[i] && path2[j] == path[j]);
        } else if i < path.len() {
            assert(path2[j] == x && path2[i] == path[i]);
            if path[i] == x {
                assert(path.contains(x));
            }
        } else {
            assert(path2[i] == x && path2[j] == path[j]);
            if path[j] == x {
                assert(path.contains(x));
            }
        }
    }
    assert forall|i: int, j: int|
        0 <= i < pool2.len() && 0 <= j < pool2.len() && i != j implies pool2[i] != pool2[j] by {
        let oi: int = if i < idx {
            i
        } else {
            i + 1
        };
        let oj: int = if j < idx {
            j
        } else {
            j + 1
        };
        assert(pool2[i] == pool[oi] && pool2[j] == pool[oj]);
    }
    assert forall|k: int| 0 <= k < pool2.len() implies (#[trigger] pool2[k] as int) < n by {
        let ok: int = if k < idx {
            k
        } else {
            k + 1
        };
        assert(pool2[k] == pool[ok]);
    }
    assert forall|v: Node| !(#[trigger] path2.contains(v) && pool2.contains(v)) by {
        if path2.contains(v) && pool2.contains(v) {
            let k2 = choose|k2: int| 0 <= k2 < pool2.len() && pool2[k2] == v;
            let ok: int = if k2 < idx {
                k2
            } else {
                k2 + 1
            };
            assert(pool[ok] == v);
            assert(pool.contains(v));
            let kp = choose|kp: int| 0 <= kp < path2.len() && path2[kp] == v;
            if kp < path.len() {
                assert(path.contains(v));
            } else {
                assert(v == x);
                assert(ok != idx);
            }
        }
    }
    assert forall|v: int|
        0 <= v < n implies #[trigger] spec_hits(path2, v) || spec_hits(pool2, v) by {
        if spec_hits(path, v) {
            let k = choose|k: int| 0 <= k < path.len() && (#[trigger] path[k] as int) == v;
            assert(0 <= k < path2.len() && (path2[k] as int) == v);
        } else {
            assert(spec_hits(pool, v));
            let k = choose|k: int| 0 <= k < pool.len() && (#[trigger] pool[k] as int) == v;
            if k == idx {
                assert((path2[path2.len() - 1] as int) == v);
            } else if k < idx {
                assert((pool2[k] as int) == v);
            } else {
                assert((pool2[k - 1] as int) == v);
            }
        }
    }
}

/// The tour with the entries at `a` and `b` exchanged.
pub open spec fn spec_swapped(s: Seq<Node>, a: int, b: int) -> Seq<Node> {
    s.update(a, s[b]).update(b, s[a])
}

/// The cycle length of the tour reached by exchanging positions `a` and `b`.
pub open spec fn spec_swap_value<G: Graph>(g: &G, s: Seq<Node>, a: int, b: int) -> int {
    spec_tour_value(g, spec_swapped(s, a, b))
}

/// Single-move locality: a swapped tour differs from its source in
/// exactly the two exchanged positions, and, when well-formed, carries
/// exactly the from-scratch cycle length of its nodes.
pub proof fn lemma_swap_locality<G: Graph>(
    g: &G,
    source: &Solution,
    swapped: &Solution,
    a: int,
    b: int,
)
    requires
        0 <= a < source.nodes@.len(),
        0 <= b < source.nodes@.len(),
        swapped.nodes@ == spec_swapped(source.nodes@, a, b),
        swapped.wf(g),
    ensures
        swapped.value as int == spec_swap_value(g, source.nodes@, a, b),
        forall|j: int|
            0 <= j < source.nodes@.len() && j != a && j != b ==> #[trigger] swapped.nodes@[j]
                == source.nodes@[j],
        swapped.nodes@[a] == source.nodes@[b],
        swapped.nodes@[b] == source.nodes@[a],
{
}

/// The identity sequence over `0..n` is a permutation of `0..n`.
pub proof fn lemma_identity_perm(s: Seq<Node>, n: int)
    requires
        s.len() == n,
        forall|k: int| 0 <= k < s.len() ==> (#[trigger] s[k] as int) == k,
    ensures
        spec_is_perm(s, n),
{
    assert forall|i: int, j: int| 0 <= i < s.len() && 0 <= j < s.len() && i != j implies s[i]
        != s[j] by {
        assert((s[i] as int) == i && (s[j] as int) == j);
    }
}

/// Exchanging two positions of a permutation leaves a permutation.
pub proof fn lemma_swap_preserves_perm(s: Seq<Node>, n: int, a: int, b: int)
    requires
        spec_is_perm(s, n),
        0 <= a < s.len(),
        0 <= b < s.len(),
    ensures
        spec_is_perm(s.update(a, s[b]).update(b, s[a]), n),
{
    let t = s.update(a, s[b]).update(b, s[a]);
    assert forall|i: int, j: int| 0 <= i < t.len() && 0 <= j < t.len() && i != j implies t[i]
        != t[j] by {
        let oi: int = if i == a && i != b {
            b
        } else if i == b {
            a
        } else {
            i
        };
        let oj: int = if j == a && j != b {
            b
        } else if j == b {
            a
        } else {
            j
        };
        assert(t[i] == s[oi] && t[j] == s[oj]);
    }
}

/// Two sequences with the same element multiset over a permutation of
/// `0..n` are both permutations of `0..n`.
pub proof fn lemma_multiset_perm(s1: Seq<Node>, s2: Seq<Node>, n: int)
    requires
        spec_is_perm(s1, n),
        s1.to_multiset() == s2.to_multiset(),
    ensures
        spec_is_perm(s2, n),
{
    broadcast use vstd::seq_lib::group_to_multiset_ensures;

    s1.lemma_multiset_has_no_duplicates();
    s2.lemma_multiset_has_no_duplicates_conv();
    assert(s1.to_multiset().len() == s1.len());
    assert(s2.to_multiset().len() == s2.len());
    assert forall|k: int| 0 <= k < s2.len() implies (#[trigger] s2[k] as int) < n by {
        assert(s2.contains(s2[k]));
        assert(s2.to_multiset().count(s2[k]) > 0);
        assert(s1.contains(s2[k]));
        let j = choose|j: int| 0 <= j < s1.len() && s1[j] == s2[k];
        assert((s1[j] as int) < n);
    }
}

/// One TSP candidate: a tour and the cached cycle length its graph gives
/// it.  Moves never mutate in place; every move returns a fresh candidate
/// with a freshly derived value.
#[derive(Debug)]
pub struct Solution {
    pub nodes: NodeList,
    pub value: i64,
}

impl Clone for Solution {
    fn clone(&self) -> (r: Self)
        ensures
            r.nodes@ == self.nodes@,
            r.value == self.value,
    {
        let nodes = self.nodes.clone();
        proof {
            assert(nodes@ =~= self.nodes@);
        }
        Solution { nodes, value: self.value }
    }
}

/// Cycle length of a tour, recomputed from scratch.
pub fn solution_value<G: Graph>(solution: &Vec<Node>, g: &G) -> (r: u64)
    requires
        g.wf(),
        spec_complete(g),
        spec_is_perm(solution@, g.spec_node_count()),
        solution.len() >= 2,
    ensures
        r as int == spec_tour_value(g, solution@),
{
    let n = solution.len();
    let mut acc: u64 = 0;
    let mut i: usize = 0;
    proof {
        g.lemma_wf();
        lemma_path_tail_bounds(g, solution@, 0);
    }
    while i < n - 1
        invariant
            i < n,
            n == solution.len(),
            n >= 2,
            g.wf(),
            spec_complete(g),
            spec_is_perm(solution@, g.spec_node_count()),
            acc as int + spec_path_tail(g, solution@, i as int) == spec_path_tail(g, solution@, 0),
            acc as int <= (n as int) * (MAX_EDGE_WEIGHT as int),
        decreases n - i,
    {
        let a = solution[i];
        let b = solution[i + 1];
        proof {
            g.lemma_wf();
            lemma_path_tail_bounds(g, solution@, 0);
            lemma_path_tail_bounds(g, solution@, i as int);
            lemma_path_tail_bounds(g, solution@, i + 1);
        }
        let w = match g.get_edge_weight(a, b) {
            Some(w) => w,
            None => {
                proof {
                    assert(a != b);
                    assert(false);
                }
                0
            },
        };
        acc = acc + w;
        i = i + 1;
    }
    let last = solution[n - 1];
    let first = solution[0];
    proof {
        g.lemma_wf();
        lemma_path_tail_bounds(g, solution@, (n - 1) as int);
        assert(last != first);
    }
    let w = match g.get_edge_weight(last, first) {
        Some(w) => w,
        None => {
            proof {
                assert(false);
            }
            0
        },
    };
    acc + w
}

impl Solution {
    /// The tour is a permutation over the graph's nodes and the cached
    /// value agrees with a from-scratch cycle-length computation.
    pub open spec fn wf<G: Graph>(&self, g: &G) -> bool {
        &&& g.wf()
        &&& spec_is_perm(self.nodes@, g.spec_node_count())
        &&& self.value as int == spec_tour_value(g, self.nodes@)
    }

    /// Wraps a tour and derives its cycle length.
    pub fn new<G: Graph>(nodes: NodeList, graph: &G) -> (r: Self)
        requires
            graph.wf(),
            spec_complete(graph),
            spec_is_perm(nodes@, graph.spec_node_count()),
            nodes.len() >= 2,
        ensures
            r.wf(graph),
            r.nodes@ == nodes@,
    {
        let value = solution_value(&nodes, graph);
        proof {
            lemma_tour_value_bounds(graph, nodes@);
            graph.lemma_wf();
            assert((nodes@.len() + 1) * (MAX_EDGE_WEIGHT as int) <= 0x8001 * (MAX_EDGE_WEIGHT
                as int)) by (nonlinear_arith)
                requires
                    nodes@.len() + 1 <= 0x8001,
            ;
        }
        Solution { nodes, value: value as i64 }
    }

    /// The identity tour `0, 1, .., n - 1`.
    pub fn sequential<G: Graph>(g: &G) -> (r: Self)
        requires
            g.wf(),
            spec_complete(g),
            2 <= g.spec_node_count(),
        ensures
            r.wf(g),
            forall|k: int| 0 <= k < r.nodes@.len() ==> (#[trigger] r.nodes@[k] as int) == k,
    {
        let n = g.node_count();
        proof {
            g.lemma_wf();
        }
        let mut nodes: Vec<Node> = Vec::new();
        let mut i: usize = 0;
        while i < n
            invariant
                i <= n,
                n <= 0x8000,
                nodes.len() == i,
                forall|k: int| 0 <= k < i ==> (#[trigger] nodes@[k] as int) == k,
            decreases n - i,
        {
            nodes.push(i as Node);
            i = i + 1;
        }
        proof {
            lemma_identity_perm(nodes@, g.spec_node_count());
        }
        Self::new(nodes, g)
    }

    /// A uniformly random tour.
    pub fn random<G: Graph>(graph: &G) -> (r: Self)
        requires
            graph.wf(),
            spec_complete(graph),
            2 <= graph.spec_node_count(),
        ensures
            r.wf(graph),
    {
        let n = graph.node_count();
        proof {
            graph.lemma_wf();
        }
        let mut nodes: Vec<Node> = Vec::new();
        let mut i: usize = 0;
        while i < n
            invariant
                i <= n,
                n <= 0x8000,
                nodes.len() == i,
                forall|k: int| 0 <= k < i ==> (#[trigger] nodes@[k] as int) == k,
            decreases n - i,
        {
            nodes.push(i as Node);
            i = i + 1;
        }
        let ghost before = nodes@;
        proof {
            lemma_identity_perm(before, graph.spec_node_count());
        }
        crate::rng::shuffle_nodes(&mut nodes);
        proof {
            lemma_multiset_perm(before, nodes@, graph.spec_node_count());
        }
        Self::new(nodes, graph)
    }

    /// Returns a new tour with exactly the entries at `a` and `b`
    /// exchanged and a freshly derived value; the receiver is untouched.
    pub fn swap<G: Graph>(&self, a: usize, b: usize, graph: &G) -> (r: Self)
        requires
            self.wf(graph),
            spec_complete(graph),
            a < self.nodes.len(),
            b < self.nodes.len(),
            self.nodes.len() >= 2,
        ensures
            r.wf(graph),
            r.nodes@ == self.nodes@.update(a as int, self.nodes@[b as int]).update(
                b as int,
                self.nodes@[a as int],
            ),
    {
        let mut nodes = self.nodes.clone();
        proof {
            assert(nodes@ =~= self.nodes@);
        }
        let va = nodes[a];
        let vb = nodes[b];
        nodes.set(a, vb);
        nodes.set(b, va);
        proof {
            lemma_swap_preserves_perm(
                self.nodes@,
                graph.spec_node_count(),
                a as int,
                b as int,
            );
        }
        Self::new(nodes, graph)
    }

    /// Picks two distinct positions uniformly and applies `swap`.
    pub fn random_neighbour<G: Graph>(&self, graph: &G) -> (r: Self)
        requires
            self.wf(graph),
            spec_complete(graph),
            self.nodes.len() >= 2,
        ensures
            r.wf(graph),
            exists|a: int, b: int|
                0 <= a < self.nodes@.len() && 0 <= b < self.nodes@.len() && a != b && r.nodes@
                    == self.nodes@.update(a, self.nodes@[b]).update(b, self.nodes@[a]),
    {
        let len = self.nodes.len();
        let a = crate::rng::rand_below(len as u64) as usize;
        let b0 = crate::rng::rand_below((len - 1) as u64) as usize;
        let b = if b0 >= a {
            b0 + 1
        } else {
            b0
        };
        let r = self.swap(a, b, graph);
        proof {
            assert(r.nodes@ == self.nodes@.update(a as int, self.nodes@[b as int]).update(
                b as int,
                self.nodes@[a as int],
            ));
        }
        r
    }
}

} // verus!
