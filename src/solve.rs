//! A decision procedure for conjunctions of difference-logic constraints.
use vstd::prelude::*;
use vstd::set_lib::{lemma_int_range, lemma_len_subset, set_int_range};

use crate::error::EvmError;
use crate::sym_stack::Expr;

verus! {

/// The verdict of the difference-logic solver.
#[derive(Clone, Copy, PartialEq, Eq, Debug, Structural)]
pub enum DLResult {
    Sat,
    Unsat,
}

/// The assignment `x` meets `e`: `x(a) - x(b) <= k`.
pub open spec fn holds(x: spec_fn(int) -> int, e: Expr) -> bool {
    x(e.a.0 as int) - x(e.b.0 as int) <= e.k.0
}

/// The assignment `x` meets every constraint of `es`.
pub open spec fn satisfied_by(es: Seq<Expr>, x: spec_fn(int) -> int) -> bool {
    forall|i: int| 0 <= i < es.len() ==> #[trigger] holds(x, es[i])
}

/// Some integer assignment meets every constraint of `es`.
pub open spec fn satisfiable(es: Seq<Expr>) -> bool {
    exists|x: spec_fn(int) -> int| #[trigger] satisfied_by(es, x)
}

/// Every variable id of `es` is below `n`.
pub open spec fn ids_below(es: Seq<Expr>, n: int) -> bool {
    forall|i: int| 0 <= i < es.len() ==> (#[trigger] es[i]).a.0 < n && es[i].b.0 < n
}

// A walk is a sequence of indices of constraints, read as edges `a -> b`
// of weight `k`, each starting where the previous one ends.
spec fn src(es: Seq<Expr>, w: Seq<int>, i: int) -> int {
    es[w[i]].a.0 as int
}

spec fn dst(es: Seq<Expr>, w: Seq<int>, i: int) -> int {
    es[w[i]].b.0 as int
}

spec fn is_walk(es: Seq<Expr>, w: Seq<int>) -> bool {
    &&& forall|i: int| 0 <= i < w.len() ==> 0 <= #[trigger] w[i] < es.len()
    &&& forall|i: int| 0 < i < w.len() ==> #[trigger] src(es, w, i) == dst(es, w, i - 1)
}

spec fn weight(es: Seq<Expr>, w: Seq<int>) -> int
    decreases w.len(),
{
    if w.len() == 0 {
        0
    } else {
        weight(es, w.drop_last()) + es[w.last()].k.0
    }
}

/// The empty walk ends anywhere; any other ends where its last edge does.
spec fn ends_at(es: Seq<Expr>, w: Seq<int>, v: int) -> bool {
    w.len() == 0 || dst(es, w, w.len() - 1) == v
}

/// The `i`-th node that `w` visits, `0 <= i <= w.len()`.
spec fn node(es: Seq<Expr>, w: Seq<int>, i: int) -> int {
    if i == 0 {
        src(es, w, 0)
    } else {
        dst(es, w, i - 1)
    }
}

proof fn lemma_weight_concat(es: Seq<Expr>, w1: Seq<int>, w2: Seq<int>)
    ensures
        weight(es, w1 + w2) == weight(es, w1) + weight(es, w2),
    decreases w2.len(),
{
    if w2.len() == 0 {
        assert(w1 + w2 =~= w1);
    } else {
        assert((w1 + w2).drop_last() =~= w1 + w2.drop_last());
        lemma_weight_concat(es, w1, w2.drop_last());
    }
}

proof fn lemma_subwalk(es: Seq<Expr>, w: Seq<int>, i: int, j: int)
    requires
        is_walk(es, w),
        0 <= i <= j <= w.len(),
    ensures
        is_walk(es, w.subrange(i, j)),
{
    let s = w.subrange(i, j);
    assert forall|t: int| 0 < t < s.len() implies #[trigger] src(es, s, t) == dst(es, s, t - 1) by {
        assert(src(es, w, i + t) == dst(es, w, i + t - 1));
    }
}

/// Under a solution `x`, a walk weighs at least `x(start) - x(end)`.
proof fn lemma_walk_potential(es: Seq<Expr>, w: Seq<int>, x: spec_fn(int) -> int)
    requires
        is_walk(es, w),
        w.len() > 0,
        satisfied_by(es, x),
    ensures
        weight(es, w) >= x(src(es, w, 0)) - x(dst(es, w, w.len() - 1)),
    decreases w.len(),
{
    let e = es[w.last()];
    assert(holds(x, e));
    let p = w.drop_last();
    assert(weight(es, w) == weight(es, p) + e.k.0);
    if w.len() > 1 {
        lemma_subwalk(es, w, 0, w.len() - 1);
        assert(p =~= w.subrange(0, w.len() - 1));
        lemma_walk_potential(es, p, x);
        assert(src(es, w, w.len() - 1) == dst(es, w, w.len() - 2));
        assert(src(es, p, 0) == src(es, w, 0));
        assert(dst(es, p, p.len() - 1) == dst(es, w, w.len() - 2));
    } else {
        assert(weight(es, p) == 0);
    }
}

/// Each edge weighs at least `i64::MIN`.
proof fn lemma_weight_floor(es: Seq<Expr>, w: Seq<int>)
    requires
        is_walk(es, w),
    ensures
        weight(es, w) >= w.len() * (i64::MIN as int),
    decreases w.len(),
{
    if w.len() > 0 {
        lemma_subwalk(es, w, 0, w.len() - 1);
        assert(w.drop_last() =~= w.subrange(0, w.len() - 1));
        lemma_weight_floor(es, w.drop_last());
        assert(w.len() * (i64::MIN as int) == (w.len() - 1) * (i64::MIN as int) + (i64::MIN as int))
            by (nonlinear_arith);
    }
}

/// A sequence of more than `n` values below `n` holds a value twice.
proof fn lemma_repeat(s: Seq<int>, n: int) -> (ij: (int, int))
    requires
        0 <= n < s.len(),
        forall|i: int| 0 <= i < s.len() ==> 0 <= #[trigger] s[i] < n,
    ensures
        0 <= ij.0 < ij.1 < s.len(),
        s[ij.0] == s[ij.1],
{
    if s.no_duplicates() {
        s.unique_seq_to_set();
        lemma_int_range(0, n);
        assert(s.to_set().subset_of(set_int_range(0, n)));
        lemma_len_subset(s.to_set(), set_int_range(0, n));
        (0, 1)
    } else {
        let (i, j) = choose|i: int, j: int|
            0 <= i < s.len() && 0 <= j < s.len() && i != j && s[i] == s[j];
        if i < j {
            (i, j)
        } else {
            (j, i)
        }
    }
}

/// When the constraints are satisfiable, a walk of `n` or more edges over
/// nodes below `n` can be cut to a shorter walk, ending at the same node,
/// that weighs no more: the part cut out is a cycle, which weighs at least 0.
proof fn lemma_cut_cycle(es: Seq<Expr>, n: int, w: Seq<int>, v: int, x: spec_fn(int) -> int) -> (r:
    Seq<int>)
    requires
        satisfied_by(es, x),
        ids_below(es, n),
        is_walk(es, w),
        ends_at(es, w, v),
        0 < n <= w.len(),
    ensures
        is_walk(es, r),
        ends_at(es, r, v),
        r.len() < w.len(),
        weight(es, r) <= weight(es, w),
{
    let m = w.len() as int;
    let nodes = Seq::new((m + 1) as nat, |i: int| node(es, w, i));
    assert forall|i: int| 0 <= i < nodes.len() implies 0 <= #[trigger] nodes[i] < n by {
        if i == 0 {
            assert(0 <= w[0] < es.len());
            assert(es[w[0]].a.0 < n);
        } else {
            assert(0 <= w[i - 1] < es.len());
            assert(es[w[i - 1]].b.0 < n);
        }
    }
    let (i, j) = lemma_repeat(nodes, n);
    // every node but the first is both the end of one edge and the start of the next
    assert forall|t: int| 0 <= t < m implies node(es, w, t) == #[trigger] src(es, w, t) by {
        if t > 0 {
            assert(src(es, w, t) == dst(es, w, t - 1));
        }
    }
    let pre = w.subrange(0, i);
    let cyc = w.subrange(i, j);
    let post = w.subrange(j, m);
    assert(w =~= pre + cyc + post);
    lemma_weight_concat(es, pre + cyc, post);
    lemma_weight_concat(es, pre, cyc);
    lemma_subwalk(es, w, i, j);
    lemma_walk_potential(es, cyc, x);
    assert(src(es, cyc, 0) == src(es, w, i));
    assert(src(es, cyc, 0) == nodes[i]);
    assert(dst(es, cyc, cyc.len() - 1) == nodes[j]);
    let r = pre + post;
    lemma_weight_concat(es, pre, post);
    lemma_subwalk(es, w, 0, i);
    lemma_subwalk(es, w, j, m);
    assert forall|t: int| 0 < t < r.len() implies #[trigger] src(es, r, t) == dst(es, r, t - 1) by {
        if t < i {
            assert(src(es, pre, t) == dst(es, pre, t - 1));
        } else if t > i {
            assert(src(es, post, t - i) == dst(es, post, t - i - 1));
        } else {
            assert(src(es, r, t) == src(es, w, j));
            assert(dst(es, r, t - 1) == dst(es, w, i - 1));
        }
    }
    if j == m && i > 0 {
        assert(dst(es, r, r.len() - 1) == dst(es, w, i - 1));
    }
    r
}

/// When the constraints are satisfiable, every walk ending at `v` can be
/// replaced by one of fewer than `n` edges, also ending at `v`, that weighs
/// no more.
proof fn lemma_short_walk(es: Seq<Expr>, n: int, w: Seq<int>, v: int, x: spec_fn(int) -> int) -> (r:
    Seq<int>)
    requires
        satisfied_by(es, x),
        ids_below(es, n),
        is_walk(es, w),
        ends_at(es, w, v),
        0 < n,
    ensures
        is_walk(es, r),
        ends_at(es, r, v),
        r.len() < n,
        weight(es, r) <= weight(es, w),
    decreases w.len(),
{
    if w.len() < n {
        w
    } else {
        let c = lemma_cut_cycle(es, n, w, v, x);
        lemma_short_walk(es, n, c, v, x)
    }
}

/// The distance to the node where `w` ends is at most the weight of `w`.
spec fn bounded(es: Seq<Expr>, d: Seq<i128>, w: Seq<int>) -> bool {
    d[dst(es, w, w.len() - 1)] <= weight(es, w)
}

/// No walk of `1..=p` edges weighs less than the distance to its end.
spec fn bounded_upto(es: Seq<Expr>, d: Seq<i128>, p: int) -> bool {
    forall|w: Seq<int>| is_walk(es, w) && 1 <= w.len() <= p ==> #[trigger] bounded(es, d, w)
}

/// Each distance is the weight of a walk to its node, between `floor` and 0.
spec fn witnessed(es: Seq<Expr>, d: Seq<i128>, wit: Seq<Seq<int>>, n: int, floor: int) -> bool {
    &&& d.len() == n
    &&& wit.len() == n
    &&& forall|v: int|
        0 <= v < n ==> {
            &&& is_walk(es, #[trigger] wit[v])
            &&& ends_at(es, wit[v], v)
            &&& d[v] == weight(es, wit[v])
            &&& floor <= d[v] <= 0
        }
}

/// The walk to `u` extended by constraint `j`, which starts at `u`.
proof fn lemma_extend(es: Seq<Expr>, wu: Seq<int>, u: int, j: int)
    requires
        is_walk(es, wu),
        ends_at(es, wu, u),
        0 <= j < es.len(),
        es[j].a.0 == u,
    ensures
        is_walk(es, wu.push(j)),
        ends_at(es, wu.push(j), es[j].b.0 as int),
        weight(es, wu.push(j)) == weight(es, wu) + es[j].k.0,
{
    let w = wu.push(j);
    assert(w.drop_last() =~= wu);
    assert forall|t: int| 0 < t < w.len() implies #[trigger] src(es, w, t) == dst(es, w, t - 1) by {
        if t < wu.len() {
            assert(src(es, wu, t) == dst(es, wu, t - 1));
        }
    }
}

/// When the constraints are satisfiable, no walk weighs less than
/// `(n - 1) * i64::MIN`.
proof fn lemma_floor(es: Seq<Expr>, n: int, w: Seq<int>, v: int)
    requires
        satisfiable(es),
        ids_below(es, n),
        is_walk(es, w),
        ends_at(es, w, v),
        0 < n,
    ensures
        weight(es, w) >= (n - 1) * (i64::MIN as int),
{
    let x = choose|x: spec_fn(int) -> int| #[trigger] satisfied_by(es, x);
    let r = lemma_short_walk(es, n, w, v, x);
    lemma_weight_floor(es, r);
    let l = r.len() as int;
    assert(l * (i64::MIN as int) >= (n - 1) * (i64::MIN as int)) by (nonlinear_arith)
        requires
            l <= n - 1,
    ;
}

/// Decide whether a non-empty conjunction of difference-logic constraints has
/// an integer solution, by Bellman-Ford negative-cycle detection: each
/// constraint `a - b <= k` is an edge `a -> b` of weight `k`, every distance
/// starts at 0, `n - 1` relaxation passes run over all edges, where `n` is one
/// more than the largest variable id, and an edge still relaxable after them
/// reveals a negative cycle. A distance that falls below `(n - 1) * i64::MIN`
/// reveals one early, which keeps the arithmetic in range.
pub fn solve(exprs: &[Expr]) -> (r: Result<DLResult, EvmError>)
    requires
        forall|i: int|
            0 <= i < exprs@.len() ==> (#[trigger] exprs@[i]).a.0 < usize::MAX && exprs@[i].b.0
                < usize::MAX,
    ensures
        exprs@.len() == 0 ==> r == Err::<DLResult, EvmError>(EvmError::SolverPrecondition),
        exprs@.len() > 0 ==> r == Ok::<DLResult, EvmError>(
            if satisfiable(exprs@) {
                DLResult::Sat
            } else {
                DLResult::Unsat
            },
        ),
{
    let n_exprs = exprs.len();
    if n_exprs == 0 {
        return Err(EvmError::SolverPrecondition);
    }
    let ghost es = exprs@;

    // Figure out how many nodes we have
    let mut max_var: u64 = 0;
    let mut i: usize = 0;
    while i < n_exprs
        invariant
            i <= n_exprs,
            n_exprs == es.len(),
            es == exprs@,
            forall|j: int| 0 <= j < i ==> (#[trigger] es[j]).a.0 <= max_var && es[j].b.0 <= max_var,
            max_var < usize::MAX,
            forall|i: int|
                0 <= i < es.len() ==> (#[trigger] es[i]).a.0 < usize::MAX && es[i].b.0 < usize::MAX,
        decreases n_exprs - i,
    {
        let e = exprs[i];
        if e.a.0 > max_var {
            max_var = e.a.0;
        }
        if e.b.0 > max_var {
            max_var = e.b.0;
        }
        i += 1;
    }
    let n_nodes: usize = max_var as usize + 1;
    let ghost n = n_nodes as int;
    assert(ids_below(es, n));
    assert((max_var as int) * (i64::MIN as int) >= (u64::MAX as int) * (i64::MIN as int))
        by (nonlinear_arith)
        requires
            max_var <= u64::MAX,
    ;
    let floor: i128 = (max_var as i128) * (i64::MIN as i128);
    let ghost fl = floor as int;

    let mut dist: Vec<i128> = Vec::new();
    let mut v: usize = 0;
    while v < n_nodes
        invariant
            v <= n_nodes,
            dist@.len() == v,
            forall|x: int| 0 <= x < v ==> dist@[x] == 0,
        decreases n_nodes - v,
    {
        dist.push(0);
        v += 1;
    }
    let ghost mut wit: Seq<Seq<int>> = Seq::new(n_nodes as nat, |v: int| Seq::<int>::empty());
    assert(fl <= 0) by (nonlinear_arith)
        requires
            fl == (max_var as int) * (i64::MIN as int),
            max_var >= 0,
    ;
    assert(witnessed(es, dist@, wit, n, fl));

    // 1. Relaxation passes
    let mut pass: usize = 1;
    while pass < n_nodes
        invariant
            1 <= pass <= n_nodes,
            n == n_nodes,
            n_exprs == es.len(),
            es == exprs@,
            ids_below(es, n),
            fl == floor,
            fl == (n - 1) * (i64::MIN as int),
            fl >= (u64::MAX as int) * (i64::MIN as int),
            witnessed(es, dist@, wit, n, fl),
            bounded_upto(es, dist@, pass - 1),
        decreases n_nodes - pass,
    {
        let mut j: usize = 0;
        while j < n_exprs
            invariant
                1 <= pass < n_nodes,
                j <= n_exprs,
                n == n_nodes,
                n_exprs == es.len(),
                es == exprs@,
                ids_below(es, n),
                fl == floor,
                fl == (n - 1) * (i64::MIN as int),
                fl >= (u64::MAX as int) * (i64::MIN as int),
                witnessed(es, dist@, wit, n, fl),
                bounded_upto(es, dist@, pass - 1),
                forall|w: Seq<int>|
                    is_walk(es, w) && 1 <= w.len() <= pass && w.last() < j ==> #[trigger] bounded(
                        es,
                        dist@,
                        w,
                    ),
            decreases n_exprs - j,
        {
            let e = exprs[j];
            let u = e.a.0 as usize;
            let t = e.b.0 as usize;
            assert(ids_below(es, n) ==> es[j as int].a.0 < n && es[j as int].b.0 < n);
            assert(is_walk(es, wit[u as int]));
            assert(is_walk(es, wit[t as int]));
            let cand: i128 = dist[u] + e.k.0 as i128;
            proof {
                lemma_extend(es, wit[u as int], u as int, j as int);
            }
            if cand < floor {
                proof {
                    if satisfiable(es) {
                        lemma_floor(es, n, wit[u as int].push(j as int), t as int);
                    }
                }
                return Ok(DLResult::Unsat);
            }
            if cand < dist[t] {
                let ghost d0 = dist@;
                let ghost old_bound = bounded_upto(es, d0, pass - 1);
                dist.set(t, cand);
                proof {
                    let wv = wit[u as int].push(j as int);
                    let w0 = wit;
                    wit = wit.update(t as int, wv);
                    assert forall|v: int| 0 <= v < n implies {
                        &&& is_walk(es, #[trigger] wit[v])
                        &&& ends_at(es, wit[v], v)
                        &&& dist@[v] == weight(es, wit[v])
                        &&& fl <= dist@[v] <= 0
                    } by {
                        assert(is_walk(es, w0[v]));
                    }
                    assert(witnessed(es, dist@, wit, n, fl));
                    assert forall|w: Seq<int>|
                        is_walk(es, w) && 1 <= w.len() <= pass && (w.len() <= pass - 1
                            || w.last() < j + 1) implies #[trigger] bounded(es, dist@, w) by {
                        let z = dst(es, w, w.len() - 1);
                        assert(0 <= w[w.len() - 1] < es.len());
                        assert(ids_below(es, n) ==> es[w[w.len() - 1]].b.0 < n);
                        if w.len() <= pass - 1 || w.last() < j {
                            assert(bounded(es, d0, w));
                        } else {
                            let pre = w.drop_last();
                            assert(weight(es, w) == weight(es, pre) + e.k.0);
                            if pre.len() > 0 {
                                lemma_subwalk(es, w, 0, w.len() - 1);
                                assert(pre =~= w.subrange(0, w.len() - 1));
                                assert(src(es, w, w.len() - 1) == dst(es, w, w.len() - 2));
                                assert(bounded(es, d0, pre));
                            }
                        }
                    }
                }
            } else {
                proof {
                    assert forall|w: Seq<int>|
                        is_walk(es, w) && 1 <= w.len() <= pass && w.last() < j + 1 implies #[trigger] bounded(
                        es,
                        dist@,
                        w,
                    ) by {
                        if w.last() < j {
                        } else {
                            let pre = w.drop_last();
                            assert(weight(es, w) == weight(es, pre) + e.k.0);
                            if pre.len() > 0 {
                                lemma_subwalk(es, w, 0, w.len() - 1);
                                assert(pre =~= w.subrange(0, w.len() - 1));
                                assert(src(es, w, w.len() - 1) == dst(es, w, w.len() - 2));
                                assert(bounded(es, dist@, pre));
                            }
                        }
                    }
                }
            }
            j += 1;
        }
        proof {
            assert forall|w: Seq<int>| is_walk(es, w) && 1 <= w.len() <= pass implies #[trigger] bounded(
                es,
                dist@,
                w,
            ) by {
                assert(0 <= w[w.len() - 1] < es.len());
            }
        }
        pass += 1;
    }

    // 2. Negative cycle detection
    let mut j: usize = 0;
    while j < n_exprs
        invariant
            j <= n_exprs,
            n == n_nodes,
            n_exprs == es.len(),
            es == exprs@,
            ids_below(es, n),
            fl == floor,
            fl >= (u64::MAX as int) * (i64::MIN as int),
            witnessed(es, dist@, wit, n, fl),
            bounded_upto(es, dist@, n - 1),
            forall|i: int|
                0 <= i < j ==> dist@[(#[trigger] es[i]).b.0 as int] <= dist@[es[i].a.0 as int]
                    + es[i].k.0,
        decreases n_exprs - j,
    {
        let e = exprs[j];
        let u = e.a.0 as usize;
        let t = e.b.0 as usize;
        assert(ids_below(es, n) ==> es[j as int].a.0 < n && es[j as int].b.0 < n);
        assert(is_walk(es, wit[u as int]));
        assert(is_walk(es, wit[t as int]));
        if dist[t] > dist[u] + e.k.0 as i128 {
            proof {
                if satisfiable(es) {
                    let x = choose|x: spec_fn(int) -> int| #[trigger] satisfied_by(es, x);
                    lemma_extend(es, wit[u as int], u as int, j as int);
                    let r = lemma_short_walk(es, n, wit[u as int].push(j as int), t as int, x);
                    if r.len() > 0 {
                        assert(bounded(es, dist@, r));
                    }
                }
            }
            return Ok(DLResult::Unsat);
        }
        j += 1;
    }
    let ghost d = dist@;
    let ghost x = |v: int|
        if 0 <= v < n {
            -(d[v] as int)
        } else {
            0
        };
    assert forall|i: int| 0 <= i < es.len() implies #[trigger] holds(x, es[i]) by {
        assert(ids_below(es, n) ==> es[i].a.0 < n && es[i].b.0 < n);
    }
    assert(satisfied_by(es, x));
    Ok(DLResult::Sat)
}

} // verus!
