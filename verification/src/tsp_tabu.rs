//! Tabu search for the traveling salesman problem: from the sequential
//! tour, repeatedly take the best admissible pair swap, remember the move
//! in a tabu list keyed by the unordered node pair, and stop after
//! `i_max` turns or `idle_max` consecutive turns without improvement.

use vstd::prelude::*;

use crate::graph::Graph;
use crate::graph::Node;
use crate::graph::MAX_NODES;
use crate::order::Direction;
use crate::tsp::lemma_tour_value_bounds;
use crate::tsp::spec_complete;
use crate::tsp::spec_swap_value;
use crate::tsp::spec_tour_value;
use crate::tsp::Solution;

verus! {

/// Driver parameters.  A zero `i_max` or `idle_max` disables that stop;
/// at least one stop must be configured for the run to be finite.
#[derive(Clone, Copy, Debug)]
pub struct Params {
    pub i_max: usize,
    pub tabu_memory: usize,
    pub idle_max: usize,
}

/// Remaining-forbidden-turns per unordered node pair.  Moves (a, b) and
/// (b, a) are normalized to one entry, so their counters always agree.
pub struct TabuList {
    turns: Vec<u64>,
    n: usize,
}

impl TabuList {
    /// One counter cell per ordered pair; only normalized cells are used.
    pub closed spec fn inv(&self) -> bool {
        &&& self.turns.len() == self.n * self.n
        &&& self.n <= MAX_NODES
    }

    pub closed spec fn spec_n(&self) -> int {
        self.n as int
    }

    /// Remaining forbidden turns for the unordered move `{a, b}`.
    pub closed spec fn spec_get(&self, a: int, b: int) -> int {
        let hi = if a >= b {
            a
        } else {
            b
        };
        let lo = if a >= b {
            b
        } else {
            a
        };
        if 0 <= lo && hi < self.n {
            self.turns[hi * (self.n as int) + lo] as int
        } else {
            0
        }
    }

    /// An empty tabu list: no move is forbidden.
    pub fn new(n: usize) -> (r: Self)
        requires
            n <= MAX_NODES,
        ensures
            r.inv(),
            r.spec_n() == n,
            forall|a: int, b: int| #[trigger] r.spec_get(a, b) == 0,
    {
        proof {
            assert((n as int) * (n as int) <= MAX_NODES * MAX_NODES) by (nonlinear_arith)
                requires
                    0 <= (n as int) <= MAX_NODES,
            ;
        }
        let turns: Vec<u64> = vec![0; n * n];
        let r = TabuList { turns, n };
        proof {
            assert forall|a: int, b: int| #[trigger] r.spec_get(a, b) == 0 by {
                let hi = if a >= b {
                    a
                } else {
                    b
                };
                let lo = if a >= b {
                    b
                } else {
                    a
                };
                if 0 <= lo && hi < r.n {
                    assert(0 <= hi * (r.n as int) + lo < (r.n as int) * (r.n as int))
                        by (nonlinear_arith)
                        requires
                            0 <= lo <= hi < (r.n as int),
                    ;
                }
            }
        }
        r
    }
}

/// Tabu symmetry: at all times the entry for move (a, b) is exactly the
/// entry for move (b, a).
pub proof fn lemma_tabu_symmetry(tabu: &TabuList, a: int, b: int)
    ensures
        tabu.spec_get(a, b) == tabu.spec_get(b, a),
{
}

/// Looks a move up under its normalized key, so that
/// `tabu_get(t, a, b) == tabu_get(t, b, a)`.
pub fn tabu_get(tabu: &TabuList, a: Node, b: Node) -> (r: u64)
    requires
        tabu.inv(),
        (a as int) < tabu.spec_n(),
        (b as int) < tabu.spec_n(),
    ensures
        r as int == tabu.spec_get(a as int, b as int),
{
    let (hi, lo) = if b > a {
        (b, a)
    } else {
        (a, b)
    };
    proof {
        assert(0 <= (hi as int) * (tabu.n as int) + (lo as int) < (tabu.n as int) * (tabu.n as int))
            by (nonlinear_arith)
            requires
                0 <= (lo as int) <= (hi as int) < (tabu.n as int),
        ;
        assert((hi as int) * (tabu.n as int) + (lo as int) <= MAX_NODES * MAX_NODES)
            by (nonlinear_arith)
            requires
                0 <= (hi as int) * (tabu.n as int) + (lo as int) < (tabu.n as int) * (
                tabu.n as int),
                (tabu.n as int) <= MAX_NODES,
                0 <= (tabu.n as int),
        ;
    }
    tabu.turns[(hi as usize) * tabu.n + (lo as usize)]
}

/// Writes a move under its normalized key, so that setting (a, b) also
/// sets (b, a) and leaves every other move alone.
pub fn tabu_set(tabu: &mut TabuList, a: Node, b: Node, val: u64)
    requires
        old(tabu).inv(),
        (a as int) < old(tabu).spec_n(),
        (b as int) < old(tabu).spec_n(),
    ensures
        final(tabu).inv(),
        final(tabu).spec_n() == old(tabu).spec_n(),
        forall|x: int, y: int|
            #[trigger] final(tabu).spec_get(x, y) == (if (x == a as int && y == b as int) || (x
                == b as int && y == a as int) {
                val as int
            } else {
                old(tabu).spec_get(x, y)
            }),
{
    let (hi, lo) = if b > a {
        (b, a)
    } else {
        (a, b)
    };
    proof {
        assert(0 <= (hi as int) * (tabu.n as int) + (lo as int) < (tabu.n as int) * (tabu.n as int))
            by (nonlinear_arith)
            requires
                0 <= (lo as int) <= (hi as int) < (tabu.n as int),
        ;
        assert((hi as int) * (tabu.n as int) + (lo as int) <= MAX_NODES * MAX_NODES)
            by (nonlinear_arith)
            requires
                0 <= (hi as int) * (tabu.n as int) + (lo as int) < (tabu.n as int) * (
                tabu.n as int),
                (tabu.n as int) <= MAX_NODES,
                0 <= (tabu.n as int),
        ;
    }
    let idx = (hi as usize) * tabu.n + (lo as usize);
    tabu.turns.set(idx, val);
    proof {
        let ni = tabu.n as int;
        assert forall|x: int, y: int|
            #[trigger] tabu.spec_get(x, y) == (if (x == a as int && y == b as int) || (x
                == b as int && y == a as int) {
                val as int
            } else {
                old(tabu).spec_get(x, y)
            }) by {
            let xhi = if x >= y {
                x
            } else {
                y
            };
            let xlo = if x >= y {
                y
            } else {
                x
            };
            if 0 <= xlo && xhi < ni {
                assert(0 <= xhi * ni + xlo < ni * ni) by (nonlinear_arith)
                    requires
                        0 <= xlo <= xhi < ni,
                ;
                if !(xhi == hi as int && xlo == lo as int) {
                    assert(xhi * ni + xlo != (hi as int) * ni + (lo as int)) by (nonlinear_arith)
                        requires
                            0 <= xlo <= xhi < ni,
                            0 <= (lo as int) <= (hi as int) < ni,
                            !(xhi == hi as int && xlo == lo as int),
                    ;
                }
            }
        }
    }
}

/// Whether swapping positions `a` and `b` strictly beats the incumbent:
/// the aspiration criterion.
pub open spec fn spec_tsp_aspires<G: Graph>(
    g: &G,
    s: Seq<Node>,
    a: int,
    b: int,
    best_value: int,
) -> bool {
    spec_swap_value(g, s, a, b) < best_value
}

/// Whether the ordered pair (x, y) is scanned before (a, b).
pub open spec fn spec_pair_before(x: int, y: int, a: int, b: int) -> bool {
    x < a || (x == a && y < b)
}

/// Scans every ordered pair swap (skipping `a == b`) in row-major order.
/// A swap that strictly beats the incumbent returns at once (aspiration),
/// the earliest such pair first; otherwise the best non-tabu swap wins,
/// the earliest among ties; with every swap tabu the result is `None`.
pub fn next_neighbour<G: Graph>(
    g: &G,
    s: &Solution,
    tabu: &TabuList,
    s_best: &Solution,
) -> (r: Option<((Node, Node), Solution)>)
    requires
        s.wf(g),
        spec_complete(g),
        g.spec_node_count() >= 2,
        tabu.inv(),
        tabu.spec_n() == g.spec_node_count(),
    ensures
        (r matches Some(p) ==> p.1.wf(g) && (p.0.0 as int) < g.spec_node_count() && (p.0.1 as int)
            < g.spec_node_count() && p.0.0 != p.0.1 && p.1.nodes@ == s.nodes@.update(
            p.0.0 as int,
            s.nodes@[p.0.1 as int],
        ).update(p.0.1 as int, s.nodes@[p.0.0 as int])),
        (exists|a: int, b: int|
            0 <= a < g.spec_node_count() && 0 <= b < g.spec_node_count() && a != b
                && #[trigger] spec_tsp_aspires(g, s.nodes@, a, b, s_best.value as int)) ==> (
        r matches Some(p) && spec_tsp_aspires(
            g,
            s.nodes@,
            p.0.0 as int,
            p.0.1 as int,
            s_best.value as int,
        ) && (forall|x: int, y: int|
            0 <= x < g.spec_node_count() && 0 <= y < g.spec_node_count() && x != y
                && spec_pair_before(x, y, p.0.0 as int, p.0.1 as int) ==> !spec_tsp_aspires(
                g,
                s.nodes@,
                x,
                y,
                s_best.value as int,
            ))),
        (forall|a: int, b: int|
            0 <= a < g.spec_node_count() && 0 <= b < g.spec_node_count() && a != b
                ==> !(#[trigger] spec_tsp_aspires(g, s.nodes@, a, b, s_best.value as int))) && (
        exists|a: int, b: int|
            0 <= a < g.spec_node_count() && 0 <= b < g.spec_node_count() && a != b
                && #[trigger] tabu.spec_get(a, b) == 0) ==> (r matches Some(p) && tabu.spec_get(
            p.0.0 as int,
            p.0.1 as int,
        ) == 0 && (forall|x: int, y: int|
            0 <= x < g.spec_node_count() && 0 <= y < g.spec_node_count() && x != y
                && tabu.spec_get(x, y) == 0 ==> #[trigger] spec_swap_value(g, s.nodes@, x, y)
                >= spec_swap_value(g, s.nodes@, p.0.0 as int, p.0.1 as int)) && (forall|
            x: int,
            y: int,
        |
            0 <= x < g.spec_node_count() && 0 <= y < g.spec_node_count() && x != y
                && tabu.spec_get(x, y) == 0 && spec_pair_before(x, y, p.0.0 as int, p.0.1 as int)
                ==> #[trigger] spec_swap_value(g, s.nodes@, x, y) > spec_swap_value(
                g,
                s.nodes@,
                p.0.0 as int,
                p.0.1 as int,
            ))),
        (forall|a: int, b: int|
            0 <= a < g.spec_node_count() && 0 <= b < g.spec_node_count() && a != b
                ==> !(#[trigger] spec_tsp_aspires(g, s.nodes@, a, b, s_best.value as int))) && (
        forall|a: int, b: int|
            0 <= a < g.spec_node_count() && 0 <= b < g.spec_node_count() && a != b
                ==> #[trigger] tabu.spec_get(a, b) != 0) ==> r is None,
{
    let n = g.node_count();
    let mut cur: Option<((Node, Node), Solution)> = None;
    let mut a: usize = 0;
    while a < n
        invariant
            a <= n,
            n == g.spec_node_count(),
            n >= 2,
            s.wf(g),
            spec_complete(g),
            tabu.inv(),
            tabu.spec_n() == n,
            forall|x: int, y: int|
                0 <= x < a && 0 <= y < n && x != y ==> !(#[trigger] spec_tsp_aspires(
                    g,
                    s.nodes@,
                    x,
                    y,
                    s_best.value as int,
                )),
            (cur is None ==> forall|x: int, y: int|
                0 <= x < a && 0 <= y < n && x != y ==> #[trigger] tabu.spec_get(x, y) != 0),
            (cur matches Some(p) ==> spec_pair_before(p.0.0 as int, p.0.1 as int, a as int, 0)
                && (p.0.0 as int) < n && (p.0.1 as int) < n && p.0.0 != p.0.1 && tabu.spec_get(
                p.0.0 as int,
                p.0.1 as int,
            ) == 0 && p.1.wf(g) && p.1.nodes@ == s.nodes@.update(
                p.0.0 as int,
                s.nodes@[p.0.1 as int],
            ).update(p.0.1 as int, s.nodes@[p.0.0 as int]) && p.1.value as int == spec_swap_value(
                g,
                s.nodes@,
                p.0.0 as int,
                p.0.1 as int,
            ) && (forall|x: int, y: int|
                0 <= x < a && 0 <= y < n && x != y && tabu.spec_get(x, y) == 0
                    ==> #[trigger] spec_swap_value(g, s.nodes@, x, y) >= p.1.value as int) && (
            forall|x: int, y: int|
                0 <= x < a && 0 <= y < n && x != y && tabu.spec_get(x, y) == 0 && spec_pair_before(
                    x,
                    y,
                    p.0.0 as int,
                    p.0.1 as int,
                ) ==> #[trigger] spec_swap_value(g, s.nodes@, x, y) > p.1.value as int)),
        decreases n - a,
    {
        let mut b: usize = 0;
        while b < n
            invariant
                a < n,
                b <= n,
                n == g.spec_node_count(),
                n >= 2,
                s.wf(g),
                spec_complete(g),
                tabu.inv(),
                tabu.spec_n() == n,
                forall|x: int, y: int|
                    0 <= x < n && 0 <= y < n && x != y && spec_pair_before(x, y, a as int, b as int)
                        ==> !(#[trigger] spec_tsp_aspires(g, s.nodes@, x, y, s_best.value as int)),
                (cur is None ==> forall|x: int, y: int|
                    0 <= x < n && 0 <= y < n && x != y && spec_pair_before(
                        x,
                        y,
                        a as int,
                        b as int,
                    ) ==> #[trigger] tabu.spec_get(x, y) != 0),
                (cur matches Some(p) ==> spec_pair_before(p.0.0 as int, p.0.1 as int, a as int, b as int)
                    && (p.0.0 as int) < n && (p.0.1 as int) < n && p.0.0 != p.0.1 && tabu.spec_get(
                    p.0.0 as int,
                    p.0.1 as int,
                ) == 0 && p.1.wf(g) && p.1.nodes@ == s.nodes@.update(
                    p.0.0 as int,
                    s.nodes@[p.0.1 as int],
                ).update(p.0.1 as int, s.nodes@[p.0.0 as int]) && p.1.value as int
                    == spec_swap_value(g, s.nodes@, p.0.0 as int, p.0.1 as int) && (forall|
                    x: int,
                    y: int,
                |
                    0 <= x < n && 0 <= y < n && x != y && tabu.spec_get(x, y) == 0
                        && spec_pair_before(x, y, a as int, b as int) ==> #[trigger] spec_swap_value(
                        g,
                        s.nodes@,
                        x,
                        y,
                    ) >= p.1.value as int) && (forall|x: int, y: int|
                    0 <= x < n && 0 <= y < n && x != y && tabu.spec_get(x, y) == 0
                        && spec_pair_before(x, y, p.0.0 as int, p.0.1 as int)
                        ==> #[trigger] spec_swap_value(g, s.nodes@, x, y) > p.1.value as int)),
            decreases n - b,
        {
            if a != b {
                let dir = Direction::Minimize;
                let s_prime = s.swap(a, b, g);
                proof {
                    assert(s_prime.value as int == spec_swap_value(g, s.nodes@, a as int, b as int));
                }
                if dir.better(s_prime.value, s_best.value) {
                    proof {
                        assert(spec_tsp_aspires(
                            g,
                            s.nodes@,
                            a as int,
                            b as int,
                            s_best.value as int,
                        ));
                    }
                    return Some(((a as Node, b as Node), s_prime));
                }
                if tabu_get(tabu, a as Node, b as Node) == 0 {
                    let replace = match &cur {
                        None => true,
                        Some(p) => s_prime.value < p.1.value,
                    };
                    if replace {
                        cur = Some(((a as Node, b as Node), s_prime));
                    }
                }
            }
            b = b + 1;
        }
        a = a + 1;
    }
    cur
}

/// The driver's working state: the current tour, the incumbent best,
/// the tabu list and the idle-turn counter.
pub struct TabuState {
    pub s: Solution,
    pub s_best: Solution,
    pub tabu: TabuList,
    pub idle: usize,
}

impl TabuState {
    pub open spec fn wf<G: Graph>(&self, g: &G) -> bool {
        &&& self.s.wf(g)
        &&& self.s_best.wf(g)
        &&& self.tabu.inv()
        &&& self.tabu.spec_n() == g.spec_node_count()
    }
}

/// The decayed remaining-turns counter: one less, floored at zero.
pub open spec fn spec_aged(c: int) -> int {
    if c > 0 {
        c - 1
    } else {
        0
    }
}

/// Whether the normalized key of the pair (x, y) lies before the decay
/// scan point (aa, bb).
pub open spec fn spec_pair_aged_yet(x: int, y: int, aa: int, bb: int) -> bool {
    let hi = if x >= y {
        x
    } else {
        y
    };
    let lo = if x >= y {
        y
    } else {
        x
    };
    hi < aa || (hi == aa && lo < bb)
}

/// One tabu turn: pick the next neighbour (forcing the nearest-to-expiry
/// tabu move when everything is tabu), advance the incumbent when the
/// swap strictly improves it, age the tabu list, and remember the move
/// taken under its normalized key.  The contract pins the whole step:
/// the working tour becomes one swap of the old one — a free, aspiring
/// or forced move — every other tabu counter ages by one, the taken move
/// gets the full memory, and the incumbent and idle counter move exactly
/// on a strict improvement.
pub fn tabu_step<G: Graph>(g: &G, tabu_memory: u64, state: &mut TabuState)
    requires
        old(state).wf(g),
        spec_complete(g),
        g.spec_node_count() >= 2,
        old(state).idle < usize::MAX,
    ensures
        final(state).wf(g),
        final(state).s_best.value <= old(state).s_best.value,
        final(state).idle == 0 || final(state).idle == old(state).idle + 1,
        exists|a: int, b: int|
            0 <= a < g.spec_node_count() && 0 <= b < g.spec_node_count() && a != b && final(
                state).s.nodes@ == old(state).s.nodes@.update(a, old(state).s.nodes@[b]).update(
                b,
                old(state).s.nodes@[a],
            ) && (#[trigger] final(state).tabu.spec_get(a, b)) == tabu_memory && (forall|
                x: int,
                y: int,
            |
                0 <= x < g.spec_node_count() && 0 <= y < g.spec_node_count() && !((x == a && y == b)
                    || (x == b && y == a)) ==> (#[trigger] final(state).tabu.spec_get(x, y))
                    == spec_aged(old(state).tabu.spec_get(x, y))) && (old(state).tabu.spec_get(a, b)
                == 0 || spec_tsp_aspires(g, old(state).s.nodes@, a, b, old(state).s_best.value as int)
                || (forall|x: int, y: int|
                0 <= x < g.spec_node_count() && 0 <= y < g.spec_node_count() && x != y ==> (
                #[trigger] old(state).tabu.spec_get(x, y)) != 0)) && ((forall|x: int, y: int|
                0 <= x < g.spec_node_count() && 0 <= y < g.spec_node_count() && x != y ==> (
                #[trigger] old(state).tabu.spec_get(x, y)) != 0) && (forall|x: int, y: int|
                0 <= x < g.spec_node_count() && 0 <= y < g.spec_node_count() && x != y
                    ==> !(#[trigger] spec_tsp_aspires(
                    g,
                    old(state).s.nodes@,
                    x,
                    y,
                    old(state).s_best.value as int,
                ))) ==> (forall|x: int, y: int|
                0 <= x < g.spec_node_count() && 0 <= y < g.spec_node_count() && x != y ==> old(
                    state).tabu.spec_get(a, b) <= (#[trigger] old(state).tabu.spec_get(x, y)))),
        final(state).s.value < old(state).s_best.value ==> final(state).s_best.nodes@ == final(
            state).s.nodes@ && final(state).s_best.value == final(state).s.value && final(state).idle == 0,
        !(final(state).s.value < old(state).s_best.value) ==> final(state).s_best.nodes@ == old(
            state).s_best.nodes@ && final(state).s_best.value == old(state).s_best.value && final(
            state).idle == old(state).idle + 1,
        (forall|x: int, y: int|
            (#[trigger] old(state).tabu.spec_get(x, y)) <= tabu_memory) ==> (forall|x: int, y: int|
            (#[trigger] final(state).tabu.spec_get(x, y)) <= tabu_memory),
{
    let n = g.node_count();
    let picked = next_neighbour(g, &state.s, &state.tabu, &state.s_best);
    let ghost nodes0 = old(state).s.nodes@;
    let ghost best0 = old(state).s_best.value as int;
    let ((move_a, move_b), s_prime) = match picked {
        Some(p) => {
            proof {
                if exists|x: int, y: int|
                    0 <= x < g.spec_node_count() && 0 <= y < g.spec_node_count() && x != y
                        && #[trigger] spec_tsp_aspires(g, nodes0, x, y, best0) {
                } else {
                    assert forall|x: int, y: int|
                        0 <= x < g.spec_node_count() && 0 <= y < g.spec_node_count() && x != y
                            implies !(#[trigger] spec_tsp_aspires(g, nodes0, x, y, best0)) by {
                        if spec_tsp_aspires(g, nodes0, x, y, best0) {
                            assert(exists|x2: int, y2: int|
                                0 <= x2 < g.spec_node_count() && 0 <= y2 < g.spec_node_count() && x2
                                    != y2 && #[trigger] spec_tsp_aspires(g, nodes0, x2, y2, best0));
                        }
                    }
                    if exists|x: int, y: int|
                        0 <= x < g.spec_node_count() && 0 <= y < g.spec_node_count() && x != y
                            && #[trigger] state.tabu.spec_get(x, y) == 0 {
                    } else {
                        assert forall|x: int, y: int|
                            0 <= x < g.spec_node_count() && 0 <= y < g.spec_node_count() && x != y
                                implies (#[trigger] state.tabu.spec_get(x, y)) != 0 by {
                            if state.tabu.spec_get(x, y) == 0 {
                                assert(exists|x2: int, y2: int|
                                    0 <= x2 < g.spec_node_count() && 0 <= y2 < g.spec_node_count()
                                        && x2 != y2 && #[trigger] state.tabu.spec_get(x2, y2) == 0);
                            }
                        }
                        assert(false);
                    }
                }
                assert(old(state).tabu.spec_get(p.0.0 as int, p.0.1 as int) == 0
                    || spec_tsp_aspires(g, nodes0, p.0.0 as int, p.0.1 as int, best0) || (forall|
                    x: int,
                    y: int,
                |
                    0 <= x < g.spec_node_count() && 0 <= y < g.spec_node_count() && x != y ==> (
                    #[trigger] old(state).tabu.spec_get(x, y)) != 0));
                if (forall|x: int, y: int|
                    0 <= x < g.spec_node_count() && 0 <= y < g.spec_node_count() && x != y ==> (
                    #[trigger] old(state).tabu.spec_get(x, y)) != 0) && (forall|x: int, y: int|
                    0 <= x < g.spec_node_count() && 0 <= y < g.spec_node_count() && x != y
                        ==> !(#[trigger] spec_tsp_aspires(g, nodes0, x, y, best0))) {
                    assert(false);
                }
            }
            p
        },
        None => {
            // every move is tabu: force the one closest to expiry
            proof {
                if exists|x: int, y: int|
                    0 <= x < g.spec_node_count() && 0 <= y < g.spec_node_count() && x != y
                        && #[trigger] spec_tsp_aspires(g, nodes0, x, y, best0) {
                    assert(false);
                }
                assert forall|x: int, y: int|
                    0 <= x < g.spec_node_count() && 0 <= y < g.spec_node_count() && x != y
                        implies !(#[trigger] spec_tsp_aspires(g, nodes0, x, y, best0)) by {
                    if spec_tsp_aspires(g, nodes0, x, y, best0) {
                        assert(exists|x2: int, y2: int|
                            0 <= x2 < g.spec_node_count() && 0 <= y2 < g.spec_node_count() && x2
                                != y2 && #[trigger] spec_tsp_aspires(g, nodes0, x2, y2, best0));
                    }
                }
                if exists|x: int, y: int|
                    0 <= x < g.spec_node_count() && 0 <= y < g.spec_node_count() && x != y
                        && #[trigger] state.tabu.spec_get(x, y) == 0 {
                    assert(false);
                }
                assert forall|x: int, y: int|
                    0 <= x < g.spec_node_count() && 0 <= y < g.spec_node_count() && x != y
                        implies (#[trigger] state.tabu.spec_get(x, y)) != 0 by {
                    if state.tabu.spec_get(x, y) == 0 {
                        assert(exists|x2: int, y2: int|
                            0 <= x2 < g.spec_node_count() && 0 <= y2 < g.spec_node_count() && x2
                                != y2 && #[trigger] state.tabu.spec_get(x2, y2) == 0);
                    }
                }
            }
            let mut best_a: Node = 0;
            let mut best_b: Node = 1;
            let mut best_t: u64 = tabu_get(&state.tabu, 0, 1);
            let mut a: usize = 0;
            while a < n
                invariant
                    a <= n,
                    n == g.spec_node_count(),
                    n >= 2,
                    *state == *old(state),
                    state.tabu.inv(),
                    state.tabu.spec_n() == n,
                    (best_a as int) < n,
                    (best_b as int) < n,
                    best_a != best_b,
                    best_t as int == state.tabu.spec_get(best_a as int, best_b as int),
                    forall|x: int, y: int|
                        0 <= x < n && 0 <= y < n && x != y && x < a ==> state.tabu.spec_get(
                            best_a as int,
                            best_b as int,
                        ) <= (#[trigger] state.tabu.spec_get(x, y)),
                decreases n - a,
            {
                let mut b: usize = 0;
                while b < n
                    invariant
                        a < n,
                        b <= n,
                        n == g.spec_node_count(),
                        n >= 2,
                        *state == *old(state),
                        state.tabu.inv(),
                        state.tabu.spec_n() == n,
                        (best_a as int) < n,
                        (best_b as int) < n,
                        best_a != best_b,
                        best_t as int == state.tabu.spec_get(best_a as int, best_b as int),
                        forall|x: int, y: int|
                            0 <= x < n && 0 <= y < n && x != y && spec_pair_before(
                                x,
                                y,
                                a as int,
                                b as int,
                            ) ==> state.tabu.spec_get(best_a as int, best_b as int) <= (
                            #[trigger] state.tabu.spec_get(x, y)),
                    decreases n - b,
                {
                    if a != b {
                        let t = tabu_get(&state.tabu, a as Node, b as Node);
                        if t < best_t {
                            best_a = a as Node;
                            best_b = b as Node;
                            best_t = t;
                        }
                    }
                    b = b + 1;
                }
                a = a + 1;
            }
            let forced = state.s.swap(best_a as usize, best_b as usize, g);
            ((best_a, best_b), forced)
        },
    };
    let dir = Direction::Minimize;
    if dir.better(s_prime.value, state.s_best.value) {
        state.s_best = s_prime.clone();
        state.idle = 0;
    } else {
        state.idle = state.idle + 1;
    }
    let mut aa: usize = 0;
    while aa < n
        invariant
            aa <= n,
            n == g.spec_node_count(),
            n >= 2,
            g.wf(),
            (move_a as int) < n,
            (move_b as int) < n,
            state.s == old(state).s,
            state.s.wf(g),
            state.s_best.wf(g),
            state.tabu.inv(),
            state.tabu.spec_n() == n,
            state.s_best.value <= old(state).s_best.value,
            state.idle == 0 || state.idle == old(state).idle + 1,
            forall|x: int, y: int|
                0 <= x < n && 0 <= y < n ==> (#[trigger] state.tabu.spec_get(x, y)) == (
                if spec_pair_aged_yet(x, y, aa as int, 0) {
                    spec_aged(old(state).tabu.spec_get(x, y))
                } else {
                    old(state).tabu.spec_get(x, y)
                }),
            (s_prime.value < old(state).s_best.value) ==> state.s_best.nodes@ == s_prime.nodes@
                && state.s_best.value == s_prime.value && state.idle == 0,
            !(s_prime.value < old(state).s_best.value) ==> state.s_best.nodes@ == old(
                state).s_best.nodes@ && state.s_best.value == old(state).s_best.value && state.idle == old(
                state).idle + 1,
        decreases n - aa,
    {
        let mut bb: usize = 0;
        while bb <= aa
            invariant
                aa < n,
                bb <= aa + 1,
                n == g.spec_node_count(),
                n >= 2,
                g.wf(),
                (move_a as int) < n,
                (move_b as int) < n,
                state.s == old(state).s,
                state.s.wf(g),
                state.s_best.wf(g),
                state.tabu.inv(),
                state.tabu.spec_n() == n,
                state.s_best.value <= old(state).s_best.value,
                state.idle == 0 || state.idle == old(state).idle + 1,
                forall|x: int, y: int|
                    0 <= x < n && 0 <= y < n ==> (#[trigger] state.tabu.spec_get(x, y)) == (
                    if spec_pair_aged_yet(x, y, aa as int, bb as int) {
                        spec_aged(old(state).tabu.spec_get(x, y))
                    } else {
                        old(state).tabu.spec_get(x, y)
                    }),
                (s_prime.value < old(state).s_best.value) ==> state.s_best.nodes@ == s_prime.nodes@
                    && state.s_best.value == s_prime.value && state.idle == 0,
                !(s_prime.value < old(state).s_best.value) ==> state.s_best.nodes@ == old(
                    state).s_best.nodes@ && state.s_best.value == old(state).s_best.value && state.idle
                    == old(state).idle + 1,
            decreases aa + 1 - bb,
        {
            let t = tabu_get(&state.tabu, aa as Node, bb as Node);
            if t > 0 {
                tabu_set(&mut state.tabu, aa as Node, bb as Node, t - 1);
            }
            bb = bb + 1;
        }
        aa = aa + 1;
    }
    tabu_set(&mut state.tabu, move_a, move_b, tabu_memory);
    state.s = s_prime;
    proof {
        let ma = move_a as int;
        let mb = move_b as int;
        assert(state.tabu.spec_get(ma, mb) == tabu_memory);
        assert(state.s.nodes@ == old(state).s.nodes@.update(ma, old(state).s.nodes@[mb]).update(
            mb,
            old(state).s.nodes@[ma],
        ));
        assert forall|x: int, y: int|
            0 <= x < g.spec_node_count() && 0 <= y < g.spec_node_count() && !((x == ma && y == mb)
                || (x == mb && y == ma)) implies (#[trigger] state.tabu.spec_get(x, y))
            == spec_aged(old(state).tabu.spec_get(x, y)) by {
            assert(spec_pair_aged_yet(x, y, n as int, 0));
        }
    }
}

/// The whole tabu run from the sequential tour.  The result is a
/// well-formed tour no longer than the sequential starting tour.
pub fn run<G: Graph>(g: &G, params: &Params) -> (r: Solution)
    requires
        g.wf(),
        spec_complete(g),
        g.spec_node_count() >= 2,
        params.i_max != 0 || params.idle_max != 0,
        params.tabu_memory >= 1,
    ensures
        r.wf(g),
        r.value as int <= spec_tour_value(
            g,
            Seq::new(g.spec_node_count() as nat, |k: int| k as Node),
        ),
{
    let s = Solution::sequential(g);
    proof {
        assert(s.nodes@ =~= Seq::new(g.spec_node_count() as nat, |k: int| k as Node));
    }
    let s_best = s.clone();
    let n = g.node_count();
    proof {
        g.lemma_wf();
        lemma_tour_value_bounds(g, s_best.nodes@);
    }
    let tabu = TabuList::new(n);
    let mut state = TabuState { s, s_best, tabu, idle: 0 };
    let mut i: usize = 0;
    loop
        invariant_except_break
            params.i_max != 0 ==> i <= params.i_max,
            params.idle_max != 0 ==> state.idle < params.idle_max,
            g.wf(),
            spec_complete(g),
            g.spec_node_count() >= 2,
            params.i_max != 0 || params.idle_max != 0,
            params.tabu_memory >= 1,
            state.wf(g),
            state.s_best.value >= 0,
            state.s_best.value as int <= spec_tour_value(
                g,
                Seq::new(g.spec_node_count() as nat, |k: int| k as Node),
            ),
        ensures
            state.wf(g),
            state.s_best.value as int <= spec_tour_value(
                g,
                Seq::new(g.spec_node_count() as nat, |k: int| k as Node),
            ),
        decreases
            (if params.i_max != 0 { params.i_max - i } else { 0 }),
            state.s_best.value,
            (if params.idle_max != 0 { params.idle_max - state.idle } else { 0 }),
    {
        if state.idle == usize::MAX {
            break ;
        }
        tabu_step(g, params.tabu_memory as u64, &mut state);
        proof {
            lemma_tour_value_bounds(g, state.s_best.nodes@);
        }
        if params.idle_max != 0 && state.idle >= params.idle_max {
            break ;
        }
        if params.i_max != 0 {
            if i >= params.i_max {
                break ;
            }
            i = i + 1;
        }
    }
    state.s_best
}

} // verus!
