use vstd::prelude::*;

use crate::lazy::{arg_bounds, arg_dims, node_ok, nodes_wf, LazyBuffer, LazyGraph, LazyNode, OpArg};
use crate::ops::{LazyOp, MovementOps};
use crate::shape::{ceil_div, expand_ok, is_permutation, pad_ok, shrink_ok, stride_ok, fits, lemma_numel_prefix_grows, lemma_numel_zero, numel};
use vstd::arithmetic::div_mod::lemma_fundamental_div_mod_converse;
use vstd::set_lib::{lemma_int_range, lemma_subset_equality, set_int_range};

verus! {

/// `idx` addresses an element of a tensor of shape `shape`.
pub open spec fn in_bounds(idx: Seq<int>, shape: Seq<usize>) -> bool {
    &&& idx.len() == shape.len()
    &&& forall|i: int| 0 <= i < idx.len() ==> 0 <= #[trigger] idx[i] < shape[i]
}

/// Row-major position of `idx` in a tensor of shape `shape`.
pub open spec fn flat(idx: Seq<int>, shape: Seq<usize>) -> int
    decreases idx.len(),
{
    if idx.len() == 0 || shape.len() == 0 {
        0
    } else {
        flat(idx.drop_last(), shape.drop_last()) * shape.last() + idx.last()
    }
}

/// The index at row-major position `f` of a tensor of shape `shape`.
pub open spec fn unflat(f: int, shape: Seq<usize>) -> Seq<int>
    decreases shape.len(),
{
    if shape.len() == 0 {
        Seq::empty()
    } else if shape.last() == 0 {
        unflat(0, shape.drop_last()).push(0)
    } else {
        unflat(f / shape.last() as int, shape.drop_last()).push(f % shape.last() as int)
    }
}

/// Where element `idx` of node `id` comes from: the buffer that a chain of
/// movement ops views and the index read there, or `None` for an element a
/// pad op added.
pub open spec fn resolve(nodes: Seq<LazyNode>, id: int, idx: Seq<int>) -> Option<(int, Seq<int>)>
    decreases id,
{
    if 0 <= id < nodes.len() && nodes[id].srcs@.len() == 1 && 0 <= nodes[id].srcs@[0] < id {
        let n = nodes[id];
        let src = n.srcs@[0] as int;
        let old = nodes[src].shape@;
        match n.op {
            LazyOp::Movement(m) => match m {
                MovementOps::RESHAPE => resolve(nodes, src, unflat(flat(idx, n.shape@), old)),
                MovementOps::EXPAND => resolve(
                    nodes,
                    src,
                    Seq::new(idx.len(), |i: int| if old[i] == 1 { 0 } else { idx[i] }),
                ),
                MovementOps::SHRINK => resolve(
                    nodes,
                    src,
                    Seq::new(idx.len(), |i: int| idx[i] + arg_bounds(n.arg)[i].0),
                ),
                MovementOps::PAD => {
                    let b = arg_bounds(n.arg);
                    if exists|i: int|
                        0 <= i < idx.len() && (idx[i] < b[i].0 || idx[i] >= b[i].0 + old[i]) {
                        None
                    } else {
                        resolve(nodes, src, Seq::new(idx.len(), |i: int| idx[i] - b[i].0))
                    }
                },
                MovementOps::PERMUTE => {
                    let a = arg_dims(n.arg);
                    resolve(
                        nodes,
                        src,
                        Seq::new(idx.len(), |j: int| idx[choose|i: int| 0 <= i < a.len() && a[i] == j]),
                    )
                },
                MovementOps::STRIDE => resolve(
                    nodes,
                    src,
                    Seq::new(idx.len(), |i: int| idx[i] * arg_dims(n.arg)[i]),
                ),
            },
            _ => Some((id, idx)),
        }
    } else {
        Some((id, idx))
    }
}

/// Buffers `a` and `b` hold the same elements: they have one shape, and
/// each element of one comes from where the same element of the other does.
pub open spec fn logically_equal(nodes: Seq<LazyNode>, a: int, b: int) -> bool {
    &&& nodes[a].shape@ == nodes[b].shape@
    &&& forall|idx: Seq<int>|
        in_bounds(idx, nodes[a].shape@) ==> #[trigger] resolve(nodes, a, idx) == resolve(nodes, b, idx)
}

/// Padding a buffer and then shrinking the result back to the original
/// region gives a buffer logically equal to the first.
pub proof fn lemma_pad_then_shrink(nodes: Seq<LazyNode>, b: int, c: int, d: int)
    requires
        nodes_wf(nodes),
        nodes.len() <= usize::MAX,
        0 <= b < c < d < nodes.len(),
        nodes[c].op == LazyOp::Movement(MovementOps::PAD),
        nodes[c].srcs@ == seq![b as usize],
        nodes[d].op == LazyOp::Movement(MovementOps::SHRINK),
        nodes[d].srcs@ == seq![c as usize],
        arg_bounds(nodes[d].arg) == Seq::new(
            nodes[b].shape@.len(),
            |i: int|
                (
                    arg_bounds(nodes[c].arg)[i].0,
                    (arg_bounds(nodes[c].arg)[i].0 + nodes[b].shape@[i]) as usize,
                ),
        ),
    ensures
        logically_equal(nodes, d, b),
{
    assert(crate::lazy::node_ok(nodes, c));
    assert(crate::lazy::node_ok(nodes, d));
    let sb = nodes[b].shape@;
    assert(nodes[c].srcs@[0] as int == b);
    assert(nodes[d].srcs@[0] as int == c);
    let p = arg_bounds(nodes[c].arg);
    assert(nodes[d].shape@ =~= sb);
    assert forall|idx: Seq<int>| in_bounds(idx, nodes[d].shape@) implies #[trigger] resolve(
        nodes,
        d,
        idx,
    ) == resolve(nodes, b, idx) by {
        let shifted = Seq::new(idx.len(), |i: int| idx[i] + arg_bounds(nodes[d].arg)[i].0);
        assert(resolve(nodes, d, idx) == resolve(nodes, c, shifted));
        assert(!exists|i: int|
            0 <= i < shifted.len() && (shifted[i] < p[i].0 || shifted[i] >= p[i].0 + sb[i]));
        let back = Seq::new(shifted.len(), |i: int| shifted[i] - p[i].0);
        assert(back =~= idx);
        assert(resolve(nodes, c, shifted) == resolve(nodes, b, back));
    }
}

/// `idx` lies inside the region `[lo, hi)` of every axis.
pub open spec fn inside(idx: Seq<int>, bounds: Seq<(usize, usize)>) -> bool {
    forall|i: int| 0 <= i < idx.len() ==> bounds[i].0 <= #[trigger] idx[i] < bounds[i].1
}

/// Shrinking a buffer to a region and padding the result back to the
/// original size gives a buffer of the original shape that reads the
/// original inside the region and a padded zero outside it. Where the region
/// is the whole buffer, the two are logically equal.
pub proof fn lemma_shrink_then_pad(nodes: Seq<LazyNode>, b: int, c: int, d: int)
    requires
        nodes_wf(nodes),
        nodes.len() <= usize::MAX,
        0 <= b < c < d < nodes.len(),
        nodes[c].op == LazyOp::Movement(MovementOps::SHRINK),
        nodes[c].srcs@ == seq![b as usize],
        nodes[d].op == LazyOp::Movement(MovementOps::PAD),
        nodes[d].srcs@ == seq![c as usize],
        arg_bounds(nodes[d].arg) == Seq::new(
            nodes[b].shape@.len(),
            |i: int|
                (
                    arg_bounds(nodes[c].arg)[i].0,
                    (nodes[b].shape@[i] - arg_bounds(nodes[c].arg)[i].1) as usize,
                ),
        ),
    ensures
        nodes[d].shape@ == nodes[b].shape@,
        forall|idx: Seq<int>|
            in_bounds(idx, nodes[b].shape@) ==> #[trigger] resolve(nodes, d, idx) == if inside(
                idx,
                arg_bounds(nodes[c].arg),
            ) {
                resolve(nodes, b, idx)
            } else {
                None
            },
        (forall|i: int|
            0 <= i < nodes[b].shape@.len() ==> #[trigger] arg_bounds(nodes[c].arg)[i] == (
                0usize,
                nodes[b].shape@[i],
            )) ==> logically_equal(nodes, d, b),
{
    assert(node_ok(nodes, c));
    assert(node_ok(nodes, d));
    assert(nodes[c].srcs@[0] as int == b);
    assert(nodes[d].srcs@[0] as int == c);
    let sb = nodes[b].shape@;
    let r = arg_bounds(nodes[c].arg);
    let p = arg_bounds(nodes[d].arg);
    let sc = nodes[c].shape@;
    assert(nodes[d].shape@ =~= sb);
    assert forall|idx: Seq<int>| in_bounds(idx, sb) implies #[trigger] resolve(nodes, d, idx) == if inside(
        idx,
        r,
    ) {
        resolve(nodes, b, idx)
    } else {
        None
    } by {
        let out_of = exists|i: int| 0 <= i < idx.len() && (idx[i] < p[i].0 || idx[i] >= p[i].0 + sc[i]);
        if inside(idx, r) {
            assert(!out_of) by {
                if out_of {
                    let i = choose|i: int| 0 <= i < idx.len() && (idx[i] < p[i].0 || idx[i] >= p[i].0 + sc[i]);
                    assert(r[i].0 <= idx[i] < r[i].1);
                }
            }
            let back = Seq::new(idx.len(), |i: int| idx[i] - p[i].0);
            assert(resolve(nodes, d, idx) == resolve(nodes, c, back));
            let fwd = Seq::new(back.len(), |i: int| back[i] + r[i].0);
            assert(resolve(nodes, c, back) == resolve(nodes, b, fwd));
            assert(fwd =~= idx);
        } else {
            let i = choose|i: int| !(0 <= i < idx.len() ==> r[i].0 <= #[trigger] idx[i] < r[i].1);
            assert(idx[i] < p[i].0 || idx[i] >= p[i].0 + sc[i]);
            assert(out_of);
        }
    }
    if forall|i: int| 0 <= i < sb.len() ==> #[trigger] r[i] == (0usize, sb[i]) {
        assert forall|idx: Seq<int>| in_bounds(idx, nodes[d].shape@) implies #[trigger] resolve(
            nodes,
            d,
            idx,
        ) == resolve(nodes, b, idx) by {
            assert(inside(idx, r)) by {
                assert forall|i: int| 0 <= i < idx.len() implies r[i].0 <= #[trigger] idx[i] < r[i].1 by {
                    assert(r[i] == (0usize, sb[i]));
                }
            }
        }
    }
}

/// Permuting a buffer by the identity permutation gives a buffer logically
/// equal to it.
pub proof fn lemma_identity_permute(nodes: Seq<LazyNode>, b: int, c: int)
    requires
        nodes_wf(nodes),
        nodes.len() <= usize::MAX,
        0 <= b < c < nodes.len(),
        nodes[c].op == LazyOp::Movement(MovementOps::PERMUTE),
        nodes[c].srcs@ == seq![b as usize],
        forall|i: int| 0 <= i < arg_dims(nodes[c].arg).len() ==> #[trigger] arg_dims(nodes[c].arg)[i] == i,
    ensures
        logically_equal(nodes, c, b),
{
    assert(crate::lazy::node_ok(nodes, c));
    let a = arg_dims(nodes[c].arg);
    assert(nodes[c].srcs@[0] as int == b);
    assert(nodes[c].shape@ =~= nodes[b].shape@);
    assert forall|idx: Seq<int>| in_bounds(idx, nodes[c].shape@) implies #[trigger] resolve(
        nodes,
        c,
        idx,
    ) == resolve(nodes, b, idx) by {
        let moved = Seq::new(idx.len(), |j: int| idx[choose|i: int| 0 <= i < a.len() && a[i] == j]);
        assert forall|j: int| 0 <= j < idx.len() implies moved[j] == idx[j] by {
            assert(a[j] == j);
            let i = choose|i: int| 0 <= i < a.len() && a[i] == j;
            assert(a[i] == i);
        }
        assert(moved =~= idx);
    }
}

/// An index inside a shape has a row-major position inside its element count.
proof fn lemma_flat_bounds(idx: Seq<int>, s: Seq<usize>)
    requires
        in_bounds(idx, s),
    ensures
        0 <= flat(idx, s) < numel(s),
    decreases idx.len(),
{
    if idx.len() > 0 {
        let ii = idx.drop_last();
        let si = s.drop_last();
        assert(in_bounds(ii, si)) by {
            assert forall|i: int| 0 <= i < ii.len() implies 0 <= #[trigger] ii[i] < si[i] by {
                assert(ii[i] == idx[i]);
            }
        }
        lemma_flat_bounds(ii, si);
        let f = flat(ii, si);
        let n = numel(si) as int;
        let l = s.last() as int;
        let x = idx.last();
        assert(0 <= x < l);
        assert(0 <= f * l + x < n * l) by (nonlinear_arith)
            requires
                0 <= f < n,
                0 <= x < l,
        ;
    }
}

/// Permuting a buffer and then permuting the result by the inverse
/// permutation gives a buffer logically equal to the first.
pub proof fn lemma_permute_inverse(nodes: Seq<LazyNode>, b: int, c: int, d: int)
    requires
        nodes_wf(nodes),
        nodes.len() <= usize::MAX,
        0 <= b < c < d < nodes.len(),
        nodes[c].op == LazyOp::Movement(MovementOps::PERMUTE),
        nodes[c].srcs@ == seq![b as usize],
        nodes[d].op == LazyOp::Movement(MovementOps::PERMUTE),
        nodes[d].srcs@ == seq![c as usize],
        forall|m: int|
            0 <= m < arg_dims(nodes[c].arg).len() ==> arg_dims(nodes[d].arg)[#[trigger] arg_dims(
                nodes[c].arg,
            )[m] as int] == m,
    ensures
        logically_equal(nodes, d, b),
{
    assert(node_ok(nodes, c));
    assert(node_ok(nodes, d));
    assert(nodes[c].srcs@[0] as int == b);
    assert(nodes[d].srcs@[0] as int == c);
    let q = arg_dims(nodes[c].arg);
    let qi = arg_dims(nodes[d].arg);
    let n = q.len();
    lemma_permutation_onto(q, n);
    assert(nodes[d].shape@ =~= nodes[b].shape@) by {
        assert forall|k: int| 0 <= k < n implies nodes[d].shape@[k] == nodes[b].shape@[k] by {
            assert(reaches(q, k));
            let i = choose|i: int| 0 <= i < q.len() && q[i] == k;
            assert(qi[q[i] as int] == i);
        }
    }
    assert forall|idx: Seq<int>| in_bounds(idx, nodes[d].shape@) implies #[trigger] resolve(
        nodes,
        d,
        idx,
    ) == resolve(nodes, b, idx) by {
        let t = Seq::new(idx.len(), |j: int| idx[choose|i: int| 0 <= i < qi.len() && qi[i] == j]);
        let u = Seq::new(t.len(), |k: int| t[choose|i: int| 0 <= i < q.len() && q[i] == k]);
        assert(resolve(nodes, d, idx) == resolve(nodes, c, t));
        assert(resolve(nodes, c, t) == resolve(nodes, b, u));
        assert forall|k: int| 0 <= k < idx.len() implies u[k] == idx[k] by {
            assert(reaches(q, k));
            let i1 = choose|i: int| 0 <= i < q.len() && q[i] == k;
            assert(qi[k] == i1);
            let i2 = choose|i: int| 0 <= i < qi.len() && qi[i] == i1;
            if i2 != k {
                assert(qi[i2] != qi[k]);
            }
        }
        assert(u =~= idx);
    }
}

/// Reading the position of an index back gives the index.
proof fn lemma_unflat_flat(idx: Seq<int>, s: Seq<usize>)
    requires
        in_bounds(idx, s),
    ensures
        unflat(flat(idx, s), s) == idx,
    decreases idx.len(),
{
    if idx.len() > 0 {
        let ii = idx.drop_last();
        let si = s.drop_last();
        assert(in_bounds(ii, si)) by {
            assert forall|i: int| 0 <= i < ii.len() implies 0 <= #[trigger] ii[i] < si[i] by {
                assert(ii[i] == idx[i]);
            }
        }
        lemma_unflat_flat(ii, si);
        let f = flat(ii, si);
        let l = s.last() as int;
        assert(0 <= idx.last() < l);
        lemma_fundamental_div_mod_converse(f * l + idx.last(), l, f, idx.last());
        assert(unflat(flat(idx, s), s) =~= ii.push(idx.last()));
        assert(ii.push(idx.last()) =~= idx);
    } else {
        assert(idx =~= Seq::<int>::empty());
    }
}

/// The index at a position inside the element count lies inside the shape,
/// and its position is that position.
proof fn lemma_flat_unflat(f: int, s: Seq<usize>)
    requires
        0 <= f < numel(s),
    ensures
        in_bounds(unflat(f, s), s),
        flat(unflat(f, s), s) == f,
    decreases s.len(),
{
    if s.len() == 0 {
        assert(f == 0);
    } else {
        let si = s.drop_last();
        let l = s.last() as int;
        let n = numel(si) as int;
        assert(l > 0) by {
            if l == 0 {
                assert(numel(s) == n * 0);
            }
        }
        let q = f / l;
        let r = f % l;
        assert(f == q * l + r && 0 <= r < l) by (nonlinear_arith)
            requires
                l > 0,
                q == f / l,
                r == f % l,
        ;
        assert(0 <= q < n) by (nonlinear_arith)
            requires
                l > 0,
                0 <= f,
                f < n * l,
                f == q * l + r,
                0 <= r < l,
        ;
        lemma_flat_unflat(q, si);
        let u = unflat(f, s);
        assert(u == unflat(q, si).push(r));
        assert(u.drop_last() =~= unflat(q, si));
        assert forall|i: int| 0 <= i < u.len() implies 0 <= #[trigger] u[i] < s[i] by {
            if i < u.len() - 1 {
                assert(u[i] == unflat(q, si)[i]);
            }
        }
    }
}

/// Reshaping a buffer and then reshaping the result back to the original
/// shape gives a buffer logically equal to the first.
pub proof fn lemma_reshape_round_trip(nodes: Seq<LazyNode>, b: int, c: int, d: int)
    requires
        nodes_wf(nodes),
        nodes.len() <= usize::MAX,
        0 <= b < c < d < nodes.len(),
        nodes[c].op == LazyOp::Movement(MovementOps::RESHAPE),
        nodes[c].srcs@ == seq![b as usize],
        nodes[d].op == LazyOp::Movement(MovementOps::RESHAPE),
        nodes[d].srcs@ == seq![c as usize],
        nodes[d].shape@ == nodes[b].shape@,
    ensures
        logically_equal(nodes, d, b),
{
    assert(crate::lazy::node_ok(nodes, c));
    assert(crate::lazy::node_ok(nodes, d));
    assert(nodes[c].srcs@[0] as int == b);
    assert(nodes[d].srcs@[0] as int == c);
    let sb = nodes[b].shape@;
    let sc = nodes[c].shape@;
    assert forall|idx: Seq<int>| in_bounds(idx, nodes[d].shape@) implies #[trigger] resolve(
        nodes,
        d,
        idx,
    ) == resolve(nodes, b, idx) by {
        let f = flat(idx, sb);
        lemma_flat_bounds(idx, sb);
        lemma_unflat_flat(idx, sb);
        lemma_flat_unflat(f, sc);
        let u = unflat(f, sc);
        assert(resolve(nodes, d, idx) == resolve(nodes, c, u));
        assert(resolve(nodes, c, u) == resolve(nodes, b, unflat(flat(u, sc), sb)));
    }
}

pub open spec fn ints(v: Seq<usize>) -> Seq<int> {
    v.map_values(|x: usize| x as int)
}

/// Row-major position of an index inside a shape.
fn flat_index(idx: &Vec<usize>, s: &Vec<usize>) -> (r: usize)
    requires
        in_bounds(ints(idx@), s@),
        fits(s@),
    ensures
        r as int == flat(ints(idx@), s@),
{
    let n = idx.len();
    proof {
        assert forall|k: int| 0 <= k < s@.len() implies s@[k] != 0 by {
            assert(ints(idx@)[k] < s@[k]);
        }
    }
    let mut acc: usize = 0;
    let mut i: usize = 0;
    while i < n
        invariant
            n == idx@.len(),
            n == s@.len(),
            in_bounds(ints(idx@), s@),
            fits(s@),
            forall|k: int| 0 <= k < s@.len() ==> s@[k] != 0,
            i <= n,
            acc as int == flat(ints(idx@.subrange(0, i as int)), s@.subrange(0, i as int)),
        decreases n - i,
    {
        let ghost pi = ints(idx@.subrange(0, i + 1));
        let ghost ps = s@.subrange(0, i + 1);
        proof {
            assert(pi.drop_last() =~= ints(idx@.subrange(0, i as int)));
            assert(ps.drop_last() =~= s@.subrange(0, i as int));
            assert(in_bounds(pi, ps)) by {
                assert forall|k: int| 0 <= k < pi.len() implies 0 <= #[trigger] pi[k] < ps[k] by {
                    assert(pi[k] == ints(idx@)[k]);
                }
            }
            lemma_flat_bounds(pi, ps);
            lemma_numel_prefix_grows(s@, i + 1);
            assert(pi.last() == idx@[i as int] as int);
            assert(flat(pi, ps) == acc * s@[i as int] + idx@[i as int]);
            assert(acc * s@[i as int] <= flat(pi, ps));
        }
        acc = acc * s[i] + idx[i];
        i = i + 1;
    }
    proof {
        assert(idx@.subrange(0, n as int) =~= idx@);
        assert(s@.subrange(0, n as int) =~= s@);
    }
    acc
}

/// The index at a row-major position inside a shape.
fn unflat_index(f: usize, s: &Vec<usize>) -> (r: Vec<usize>)
    requires
        (f as int) < numel(s@),
    ensures
        ints(r@) == unflat(f as int, s@),
{
    let n = s.len();
    proof {
        assert forall|k: int| 0 <= k < s@.len() implies s@[k] != 0 by {
            if s@[k] == 0 {
                lemma_numel_zero(s@, k);
            }
        }
        assert(s@.subrange(0, n as int) =~= s@);
    }
    let mut r: Vec<usize> = vec![0; n];
    let mut cur: usize = f;
    let mut i: usize = n;
    while i > 0
        invariant
            n == s@.len(),
            r@.len() == n,
            i <= n,
            forall|k: int| 0 <= k < s@.len() ==> s@[k] != 0,
            (cur as int) < numel(s@.subrange(0, i as int)),
            unflat(f as int, s@) == unflat(cur as int, s@.subrange(0, i as int)) + ints(r@.subrange(i as int, n as int)),
        decreases i,
    {
        i = i - 1;
        let d = s[i];
        let ghost ps = s@.subrange(0, i + 1);
        let ghost old_r = r@;
        let ghost old_cur = cur;
        proof {
            assert(ps.drop_last() =~= s@.subrange(0, i as int));
            assert(ps.last() == d);
            let q = cur as int / d as int;
            let nm = numel(s@.subrange(0, i as int)) as int;
            assert(numel(ps) == nm * d);
            assert(q < nm) by (nonlinear_arith)
                requires
                    d > 0,
                    q == cur as int / d as int,
                    (cur as int) < nm * d,
                    cur >= 0,
            ;
        }
        r.set(i, cur % d);
        cur = cur / d;
        proof {
            assert(unflat(old_cur as int, ps) == unflat(cur as int, s@.subrange(0, i as int)).push((old_cur % d) as int));
            assert(ints(r@.subrange(i as int, n as int)) =~= seq![(old_cur % d) as int] + ints(old_r.subrange(i + 1, n as int)));
            assert(unflat(cur as int, s@.subrange(0, i as int)).push((old_cur % d) as int) + ints(old_r.subrange(i + 1, n as int))
                =~= unflat(cur as int, s@.subrange(0, i as int)) + ints(r@.subrange(i as int, n as int)));
        }
    }
    proof {
        assert(s@.subrange(0, 0) =~= Seq::<usize>::empty());
        assert(r@.subrange(0, n as int) =~= r@);
        assert(unflat(cur as int, Seq::<usize>::empty()) =~= Seq::<int>::empty());
        assert(Seq::<int>::empty() + ints(r@) =~= ints(r@));
    }
    r
}

/// Some position of `a` holds `j`.
pub open spec fn reaches(a: Seq<usize>, j: int) -> bool {
    exists|i: int| 0 <= i < a.len() && a[i] == j
}

/// A permutation of the axes reaches every axis.
proof fn lemma_permutation_onto(a: Seq<usize>, n: nat)
    requires
        is_permutation(a, n),
    ensures
        forall|j: int| 0 <= j < n ==> #[trigger] reaches(a, j),
{
    let ai = ints(a);
    assert(ai.no_duplicates()) by {
        assert forall|i: int, j: int| 0 <= i < ai.len() && 0 <= j < ai.len() && i != j implies ai[i]
            != ai[j] by {
            assert(a[i] != a[j]);
        }
    }
    ai.unique_seq_to_set();
    lemma_int_range(0, n as int);
    let r = set_int_range(0, n as int);
    assert(ai.to_set().subset_of(r)) by {
        assert forall|x: int| ai.to_set().contains(x) implies r.contains(x) by {
            let i = choose|i: int| 0 <= i < ai.len() && ai[i] == x;
            assert(a[i] < n);
        }
    }
    lemma_subset_equality(ai.to_set(), r);
    assert forall|j: int| 0 <= j < n implies #[trigger] reaches(a, j) by {
        assert(r.contains(j));
        assert(ai.to_set().contains(j));
        let i = choose|i: int| 0 <= i < ai.len() && ai[i] == j;
        assert(a[i] == j);
    }
}

fn expand_index(ix: &Vec<usize>, old: &Vec<usize>, new: &Vec<usize>) -> (r: Vec<usize>)
    requires
        in_bounds(ints(ix@), new@),
        expand_ok(old@, new@),
    ensures
        ints(r@) == Seq::new(ix@.len(), |i: int| if old@[i] == 1 { 0 } else { ints(ix@)[i] }),
        in_bounds(ints(r@), old@),
{
    let mut r: Vec<usize> = Vec::new();
    let mut i: usize = 0;
    while i < ix.len()
        invariant
            in_bounds(ints(ix@), new@),
            expand_ok(old@, new@),
            i <= ix@.len(),
            r@.len() == i,
            forall|k: int| 0 <= k < i ==> #[trigger] r@[k] as int == (if old@[k] == 1 { 0 } else { ix@[k] as int }) && r@[k] < old@[k],
        decreases ix.len() - i,
    {
        assert(ints(ix@)[i as int] < new@[i as int]);
        let v = if old[i] == 1 { 0 } else { ix[i] };
        r.push(v);
        i = i + 1;
    }
    proof {
        assert(ints(r@) =~= Seq::new(ix@.len(), |i: int| if old@[i] == 1 { 0 } else { ints(ix@)[i] }));
    }
    r
}

fn shrink_index(ix: &Vec<usize>, old: &Vec<usize>, b: &Vec<(usize, usize)>) -> (r: Vec<usize>)
    requires
        in_bounds(ints(ix@), crate::shape::shrink_shape(b@)),
        shrink_ok(old@, b@),
    ensures
        ints(r@) == Seq::new(ix@.len(), |i: int| ints(ix@)[i] + b@[i].0),
        in_bounds(ints(r@), old@),
{
    let mut r: Vec<usize> = Vec::new();
    let mut i: usize = 0;
    while i < ix.len()
        invariant
            in_bounds(ints(ix@), crate::shape::shrink_shape(b@)),
            shrink_ok(old@, b@),
            i <= ix@.len(),
            r@.len() == i,
            forall|k: int| 0 <= k < i ==> #[trigger] r@[k] as int == ix@[k] + b@[k].0 && r@[k] < old@[k],
        decreases ix.len() - i,
    {
        assert(ints(ix@)[i as int] < crate::shape::shrink_shape(b@)[i as int]);
        assert(b@[i as int].0 <= b@[i as int].1 <= old@[i as int]);
        r.push(ix[i] + b[i].0);
        i = i + 1;
    }
    proof {
        assert(ints(r@) =~= Seq::new(ix@.len(), |i: int| ints(ix@)[i] + b@[i].0));
    }
    r
}

fn pad_index(ix: &Vec<usize>, old: &Vec<usize>, b: &Vec<(usize, usize)>) -> (r: Option<Vec<usize>>)
    requires
        in_bounds(ints(ix@), crate::shape::pad_shape(old@, b@)),
        pad_ok(old@, b@),
    ensures
        r is None <==> exists|i: int|
            0 <= i < ix@.len() && (ints(ix@)[i] < b@[i].0 || ints(ix@)[i] >= b@[i].0 + old@[i]),
        r matches Some(v) ==> ints(v@) == Seq::new(ix@.len(), |i: int| ints(ix@)[i] - b@[i].0)
            && in_bounds(ints(v@), old@),
{
    let mut r: Vec<usize> = Vec::new();
    let mut i: usize = 0;
    while i < ix.len()
        invariant
            in_bounds(ints(ix@), crate::shape::pad_shape(old@, b@)),
            pad_ok(old@, b@),
            i <= ix@.len(),
            forall|k: int| 0 <= k < i ==> !(ints(ix@)[k] < b@[k].0 || ints(ix@)[k] >= b@[k].0 + old@[k]),
            r@.len() == i,
            forall|k: int| 0 <= k < i ==> #[trigger] r@[k] as int == ix@[k] - b@[k].0 && r@[k] < old@[k],
        decreases ix.len() - i,
    {
        let (lo, hi) = b[i];
        assert(old@[i as int] + b@[i as int].0 + b@[i as int].1 <= usize::MAX);
        if ix[i] < lo || ix[i] >= lo + old[i] {
            proof {
                assert(ints(ix@)[i as int] == ix@[i as int]);
            }
            return None;
        }
        r.push(ix[i] - lo);
        i = i + 1;
    }
    proof {
        assert(ints(r@) =~= Seq::new(ix@.len(), |i: int| ints(ix@)[i] - b@[i].0));
    }
    Some(r)
}

fn permute_index(ix: &Vec<usize>, old: &Vec<usize>, a: &Vec<usize>) -> (r: Vec<usize>)
    requires
        in_bounds(ints(ix@), crate::shape::permute_shape(old@, a@)),
        is_permutation(a@, old@.len()),
    ensures
        ints(r@) == Seq::new(
            ix@.len(),
            |j: int| ints(ix@)[choose|i: int| 0 <= i < a@.len() && a@[i] == j],
        ),
        in_bounds(ints(r@), old@),
{
    let n = a.len();
    let mut r: Vec<usize> = vec![0; n];
    let mut i: usize = 0;
    while i < n
        invariant
            n == a@.len(),
            n == old@.len(),
            r@.len() == n,
            in_bounds(ints(ix@), crate::shape::permute_shape(old@, a@)),
            is_permutation(a@, old@.len()),
            i <= n,
            forall|k: int| 0 <= k < i ==> #[trigger] r@[a@[k] as int] == ix@[k],
        decreases n - i,
    {
        let ghost before = r@;
        r.set(a[i], ix[i]);
        proof {
            assert forall|k: int| 0 <= k < i + 1 implies #[trigger] r@[a@[k] as int] == ix@[k] by {
                if k < i {
                    assert(a@[k] != a@[i as int]);
                    assert(before[a@[k] as int] == ix@[k]);
                }
            }
        }
        i = i + 1;
    }
    proof {
        lemma_permutation_onto(a@, n as nat);
        let want = Seq::new(ix@.len(), |j: int| ints(ix@)[choose|i: int| 0 <= i < a@.len() && a@[i] == j]);
        assert forall|j: int| 0 <= j < n implies ints(r@)[j] == want[j] && 0 <= ints(r@)[j] < old@[j] by {
            assert(reaches(a@, j));
            let i = choose|i: int| 0 <= i < a@.len() && a@[i] == j;
            assert(r@[a@[i] as int] == ix@[i]);
            assert(ints(ix@)[i] < crate::shape::permute_shape(old@, a@)[i]);
        }
        assert(ints(r@) =~= want);
    }
    r
}

fn stride_index(ix: &Vec<usize>, old: &Vec<usize>, st: &Vec<usize>) -> (r: Vec<usize>)
    requires
        in_bounds(ints(ix@), crate::shape::stride_shape(old@, st@)),
        stride_ok(old@, st@),
    ensures
        ints(r@) == Seq::new(ix@.len(), |i: int| ints(ix@)[i] * st@[i]),
        in_bounds(ints(r@), old@),
{
    let mut r: Vec<usize> = Vec::new();
    let mut i: usize = 0;
    while i < ix.len()
        invariant
            in_bounds(ints(ix@), crate::shape::stride_shape(old@, st@)),
            stride_ok(old@, st@),
            i <= ix@.len(),
            r@.len() == i,
            forall|k: int| 0 <= k < i ==> #[trigger] r@[k] as int == ix@[k] * st@[k] && r@[k] < old@[k],
        decreases ix.len() - i,
    {
        let x = ix[i];
        let step = st[i];
        let d = old[i];
        proof {
            assert(ints(ix@)[i as int] < crate::shape::stride_shape(old@, st@)[i as int]);
            assert(step >= 1);
            let c = ceil_div(d as nat, step as nat);
            assert((x as int) < c);
            assert(x * step < d) by (nonlinear_arith)
                requires
                    step >= 1,
                    c == d / step + if d % step == 0 { 0int } else { 1int },
                    x < c,
                    d >= 0,
            ;
        }
        r.push(x * step);
        i = i + 1;
    }
    proof {
        assert(ints(r@) =~= Seq::new(ix@.len(), |i: int| ints(ix@)[i] * st@[i]));
    }
    r
}

impl LazyBuffer {
    /// Where element `idx` of this buffer is read from: the buffer that its
    /// chain of movement ops views and the index there, or `None` for an
    /// element that a pad op added (a zero).
    pub fn source_of(&self, g: &LazyGraph, idx: Vec<usize>) -> (r: Option<(LazyBuffer, Vec<usize>)>)
        requires
            self.valid(*g),
            in_bounds(ints(idx@), self.node(*g).shape@),
        ensures
            match r {
                Some((b, v)) => resolve(g.nodes_view(), self.id as int, ints(idx@)) == Some(
                    (b.id as int, ints(v@)),
                ),
                None => resolve(g.nodes_view(), self.id as int, ints(idx@)) is None,
            },
    {
        let mut cur: usize = self.id;
        let mut ix: Vec<usize> = idx;
        loop
            invariant
                self.valid(*g),
                cur < g.nodes_view().len(),
                in_bounds(ints(ix@), g.nodes_view()[cur as int].shape@),
                resolve(g.nodes_view(), self.id as int, ints(idx@)) == resolve(g.nodes_view(), cur as int, ints(ix@)),
            decreases cur,
        {
            let n = &g.nodes[cur];
            if !(n.op.is_movement() && n.srcs.len() == 1 && n.srcs[0] < cur) {
                return Some((LazyBuffer { id: cur }, ix));
            }
            proof {
                assert(node_ok(g.nodes_view(), cur as int));
            }
            let src = n.srcs[0];
            let old = &g.nodes[src].shape;
            let ghost ci = cur as int;
            let ghost si = src as int;
            let next: Vec<usize> = match (n.op, &n.arg) {
                (LazyOp::Movement(MovementOps::RESHAPE), OpArg::Dims(_)) => {
                    let f = flat_index(&ix, &n.shape);
                    proof {
                        lemma_flat_bounds(ints(ix@), n.shape@);
                        lemma_flat_unflat(f as int, old@);
                    }
                    unflat_index(f, old)
                },
                (LazyOp::Movement(MovementOps::EXPAND), OpArg::Dims(_)) => expand_index(&ix, old, &n.shape),
                (LazyOp::Movement(MovementOps::SHRINK), OpArg::Bounds(b)) => shrink_index(&ix, old, b),
                (LazyOp::Movement(MovementOps::PAD), OpArg::Bounds(b)) => match pad_index(&ix, old, b) {
                    Some(v) => v,
                    None => return None,
                },
                (LazyOp::Movement(MovementOps::PERMUTE), OpArg::Dims(a)) => permute_index(&ix, old, a),
                (LazyOp::Movement(MovementOps::STRIDE), OpArg::Dims(st)) => stride_index(&ix, old, st),
                _ => {
                    // A consistent node pairs each movement op with its kind of argument.
                    proof {
                        assert(false);
                    }
                    return Some((LazyBuffer { id: cur }, ix));
                },
            };
            cur = src;
            ix = next;
        }
    }
}

} // verus!
