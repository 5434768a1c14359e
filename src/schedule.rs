use vstd::prelude::*;

use crate::lazy::{node_ok, nodes_wf, LazyBuffer, LazyGraph, LazyNode};
use crate::lazy::appended;
use crate::ops::{LazyOp, LoadOps};

verus! {

/// One step of a realization plan: compute buffer `out` by `op` from the
/// buffers `inputs`.
pub struct ScheduleItem {
    pub out: usize,
    pub op: LazyOp,
    pub inputs: Vec<usize>,
}

/// The work list after a depth-first visit of node `x`, starting from the
/// list `out`: nothing where `x` is realized or already listed; otherwise
/// its sources in order, then `x` itself.
pub open spec fn visit(nodes: Seq<LazyNode>, x: int, out: Seq<usize>) -> Seq<usize>
    decreases x, nodes[x].srcs@.len() + 1,
{
    if !(0 <= x < nodes.len()) || nodes[x].realized || holds(out, x) {
        out
    } else {
        visit_srcs(nodes, x, nodes[x].srcs@.len() as int, out).push(x as usize)
    }
}

/// The work list after visiting the first `k` sources of node `x`, in order.
pub open spec fn visit_srcs(nodes: Seq<LazyNode>, x: int, k: int, out: Seq<usize>) -> Seq<usize>
    decreases x, k,
{
    if k <= 0 || k > nodes[x].srcs@.len() {
        out
    } else {
        let o = visit_srcs(nodes, x, k - 1, out);
        let y = nodes[x].srcs@[k - 1] as int;
        if 0 <= y < x {
            visit(nodes, y, o)
        } else {
            o
        }
    }
}

/// `x` occurs in `s`.
pub open spec fn holds(s: Seq<usize>, x: int) -> bool {
    exists|i: int| 0 <= i < s.len() && s[i] as int == x
}

/// The nodes a realization of `target` computes, in the order it computes
/// them: the depth-first post-order from `target`, through unrealized nodes.
pub open spec fn plan(nodes: Seq<LazyNode>, target: int) -> Seq<usize> {
    visit(nodes, target, Seq::empty())
}

pub open spec fn outs(items: Seq<ScheduleItem>) -> Seq<usize> {
    items.map_values(|it: ScheduleItem| it.out)
}

/// `p` is a walk that starts anywhere and goes from each unrealized node to
/// one of its sources.
pub open spec fn is_walk(nodes: Seq<LazyNode>, p: Seq<int>) -> bool {
    &&& p.len() >= 1
    &&& forall|k: int|
        0 <= k < p.len() - 1 ==> 0 <= #[trigger] p[k] < nodes.len() && !nodes[p[k]].realized && holds(
            nodes[p[k]].srcs@,
            p[k + 1],
        )
}

/// Node `x` can be reached from `target` by going from unrealized nodes to
/// their sources.
pub open spec fn reachable(nodes: Seq<LazyNode>, target: int, x: int) -> bool {
    exists|p: Seq<int>| is_walk(nodes, p) && p[0] == target && #[trigger] p.last() == x
}

/// A work list names unrealized nodes of the graph, each once, and each
/// after every unrealized source of it.
pub open spec fn ordered(nodes: Seq<LazyNode>, out: Seq<usize>) -> bool {
    &&& forall|i: int| 0 <= i < out.len() ==> #[trigger] out[i] < nodes.len() && !nodes[out[i] as int].realized
    &&& forall|i: int, j: int| 0 <= i < j < out.len() ==> out[i] != out[j]
    &&& forall|i: int, k: int|
        0 <= i < out.len() && 0 <= k < nodes[out[i] as int].srcs@.len() && !nodes[nodes[out[
            i] as int].srcs@[k] as int].realized ==> exists|j: int|
            0 <= j < i && out[j] == #[trigger] nodes[out[i] as int].srcs@[k]
}

pub open spec fn extends(a: Seq<usize>, b: Seq<usize>) -> bool {
    a.len() <= b.len() && forall|i: int| 0 <= i < a.len() ==> #[trigger] b[i] == a[i]
}

/// What a visit adds: nodes no later than `bound`, each reachable from `from`.
pub open spec fn added_from(
    nodes: Seq<LazyNode>,
    a: Seq<usize>,
    b: Seq<usize>,
    from: int,
    bound: int,
) -> bool {
    forall|i: int| a.len() <= i < b.len() ==> #[trigger] b[i] <= bound && reachable(nodes, from, b[i] as int)
}

proof fn lemma_holds_extends(a: Seq<usize>, b: Seq<usize>, x: int)
    requires
        extends(a, b),
        holds(a, x),
    ensures
        holds(b, x),
{
    let i = choose|i: int| 0 <= i < a.len() && a[i] as int == x;
    assert(b[i] == a[i]);
}

proof fn lemma_walk_prepend(nodes: Seq<LazyNode>, x: int, y: int, z: int)
    requires
        0 <= x < nodes.len(),
        !nodes[x].realized,
        holds(nodes[x].srcs@, y),
        reachable(nodes, y, z),
    ensures
        reachable(nodes, x, z),
{
    let p = choose|p: Seq<int>| is_walk(nodes, p) && p[0] == y && #[trigger] p.last() == z;
    let q = seq![x] + p;
    assert forall|k: int| 0 <= k < q.len() - 1 implies 0 <= #[trigger] q[k] < nodes.len()
        && !nodes[q[k]].realized && holds(nodes[q[k]].srcs@, q[k + 1]) by {
        if k > 0 {
            assert(q[k] == p[k - 1] && q[k + 1] == p[k]);
        }
    }
    assert(is_walk(nodes, q));
    assert(q.last() == z);
}

proof fn lemma_visit(nodes: Seq<LazyNode>, x: int, out: Seq<usize>)
    requires
        nodes.len() <= usize::MAX,
        nodes_wf(nodes),
        0 <= x,
        ordered(nodes, out),
    ensures
        ordered(nodes, visit(nodes, x, out)),
        extends(out, visit(nodes, x, out)),
        added_from(nodes, out, visit(nodes, x, out), x, x),
        0 <= x < nodes.len() && !nodes[x].realized ==> holds(visit(nodes, x, out), x),
    decreases x, nodes[x].srcs@.len() + 1,
{
    if !(0 <= x < nodes.len()) || nodes[x].realized || holds(out, x) {
    } else {
        let n = nodes[x].srcs@.len() as int;
        lemma_visit_srcs(nodes, x, n, out);
        let o = visit_srcs(nodes, x, n, out);
        let r = o.push(x as usize);
        assert(r == visit(nodes, x, out));
        assert(!holds(o, x)) by {
            if holds(o, x) {
                let i = choose|i: int| 0 <= i < o.len() && o[i] as int == x;
                if i < out.len() {
                    assert(o[i] == out[i]);
                } else {
                    assert(o[i] < x);
                }
            }
        }
        assert(node_ok(nodes, x));
        assert forall|i: int, k: int|
            0 <= i < r.len() && 0 <= k < nodes[r[i] as int].srcs@.len() && !nodes[nodes[r[
                i] as int].srcs@[k] as int].realized implies exists|j: int|
            0 <= j < i && r[j] == #[trigger] nodes[r[i] as int].srcs@[k] by {
            if i < o.len() {
                assert(r[i] == o[i]);
                let j = choose|j: int| 0 <= j < i && o[j] == #[trigger] nodes[o[i] as int].srcs@[k];
                assert(r[j] == o[j]);
            } else {
                assert(r[i] == x as usize);
                let s = nodes[x].srcs@[k];
                assert(nodes[x].srcs@[k] as int == s as int);
                assert(holds(nodes[x].srcs@, s as int));
                assert(holds(o, s as int));
                let j = choose|j: int| 0 <= j < o.len() && o[j] as int == s as int;
                assert(r[j] == o[j]);
            }
        }
        assert forall|i: int, j: int| 0 <= i < j < r.len() implies r[i] != r[j] by {
            if j < o.len() {
                assert(r[i] == o[i] && r[j] == o[j]);
            } else {
                assert(r[j] == x as usize);
                assert(r[i] == o[i]);
                if o[i] as int == x {
                    assert(holds(o, x));
                }
            }
        }
        assert(ordered(nodes, r));
        assert forall|i: int| out.len() <= i < r.len() implies #[trigger] r[i] <= x && reachable(
            nodes,
            x,
            r[i] as int,
        ) by {
            if i == o.len() {
                let p = seq![x];
                assert(is_walk(nodes, p));
                assert(p.last() == x);
            } else {
                assert(r[i] == o[i]);
            }
        }
        assert(holds(r, x)) by {
            assert(r[o.len() as int] as int == x);
        }
    }
}

proof fn lemma_visit_srcs(nodes: Seq<LazyNode>, x: int, k: int, out: Seq<usize>)
    requires
        nodes.len() <= usize::MAX,
        nodes_wf(nodes),
        0 <= x < nodes.len(),
        !nodes[x].realized,
        0 <= k <= nodes[x].srcs@.len(),
        ordered(nodes, out),
    ensures
        ordered(nodes, visit_srcs(nodes, x, k, out)),
        extends(out, visit_srcs(nodes, x, k, out)),
        added_from(nodes, out, visit_srcs(nodes, x, k, out), x, x - 1),
        forall|j: int|
            0 <= j < k && !nodes[nodes[x].srcs@[j] as int].realized ==> holds(
                visit_srcs(nodes, x, k, out),
                #[trigger] nodes[x].srcs@[j] as int,
            ),
    decreases x, k,
{
    if k > 0 {
        lemma_visit_srcs(nodes, x, k - 1, out);
        let o = visit_srcs(nodes, x, k - 1, out);
        assert(node_ok(nodes, x));
        let y = nodes[x].srcs@[k - 1] as int;
        assert(0 <= y < x);
        lemma_visit(nodes, y, o);
        let r = visit(nodes, y, o);
        assert(r == visit_srcs(nodes, x, k, out));
        assert forall|i: int| 0 <= i < out.len() implies #[trigger] r[i] == out[i] by {
            assert(o[i] == out[i]);
        }
        assert forall|i: int| out.len() <= i < r.len() implies #[trigger] r[i] <= x - 1 && reachable(
            nodes,
            x,
            r[i] as int,
        ) by {
            if i < o.len() {
                assert(r[i] == o[i]);
            } else {
                assert(holds(nodes[x].srcs@, y));
                lemma_walk_prepend(nodes, x, y, r[i] as int);
            }
        }
        assert forall|j: int|
            0 <= j < k && !nodes[nodes[x].srcs@[j] as int].realized implies holds(
            r,
            #[trigger] nodes[x].srcs@[j] as int,
        ) by {
            if j < k - 1 {
                lemma_holds_extends(o, r, nodes[x].srcs@[j] as int);
            }
        }
    }
}

proof fn lemma_reachable_planned(nodes: Seq<LazyNode>, target: int, p: Seq<int>, k: int)
    requires
        nodes.len() <= usize::MAX,
        nodes_wf(nodes),
        0 <= target < nodes.len(),
        is_walk(nodes, p),
        p[0] == target,
        0 <= k < p.len(),
        k < p.len() - 1 || !nodes[p[k]].realized,
    ensures
        0 <= p[k] < nodes.len(),
        holds(plan(nodes, target), p[k]),
    decreases k,
{
    lemma_visit(nodes, target, Seq::empty());
    let s = plan(nodes, target);
    if k > 0 {
        lemma_reachable_planned(nodes, target, p, k - 1);
        let x = p[k - 1];
        assert(holds(nodes[x].srcs@, p[k]));
        let i = choose|i: int| 0 <= i < s.len() && s[i] as int == x;
        let m = choose|m: int| 0 <= m < nodes[x].srcs@.len() && nodes[x].srcs@[m] as int == p[k];
        assert(node_ok(nodes, x));
        let j = choose|j: int| 0 <= j < i && s[j] == #[trigger] nodes[s[i] as int].srcs@[m];
        assert(s[j] as int == p[k]);
    }
}

/// A node is planned for `target` exactly when it is not realized and can
/// be reached from `target` through unrealized nodes.
pub proof fn lemma_plan_reachable(nodes: Seq<LazyNode>, target: int, x: int)
    requires
        nodes.len() <= usize::MAX,
        nodes_wf(nodes),
        0 <= target < nodes.len(),
        0 <= x < nodes.len(),
    ensures
        holds(plan(nodes, target), x) <==> !nodes[x].realized && reachable(nodes, target, x),
{
    lemma_visit(nodes, target, Seq::empty());
    let s = plan(nodes, target);
    if holds(s, x) {
        let i = choose|i: int| 0 <= i < s.len() && s[i] as int == x;
        assert(s[i] == s[i]);
    }
    if !nodes[x].realized && reachable(nodes, target, x) {
        let p = choose|p: Seq<int>| is_walk(nodes, p) && p[0] == target && #[trigger] p.last() == x;
        lemma_reachable_planned(nodes, target, p, p.len() - 1);
    }
}

/// A realization plan computes each node at most once, computes no node
/// that is already realized, computes the target unless it is realized, and
/// computes every unrealized source of a planned node before that node.
pub proof fn lemma_plan_sound(nodes: Seq<LazyNode>, target: int)
    requires
        nodes.len() <= usize::MAX,
        nodes_wf(nodes),
        0 <= target < nodes.len(),
    ensures
        ordered(nodes, plan(nodes, target)),
        !nodes[target].realized <==> holds(plan(nodes, target), target),
{
    lemma_visit(nodes, target, Seq::empty());
    let s = plan(nodes, target);
    if holds(s, target) {
        let i = choose|i: int| 0 <= i < s.len() && s[i] as int == target;
        assert(s[i] == s[i]);
    }
}

/// `new` is `old` after realizing `target`: the nodes of its plan are
/// realized and every other node is as it was.
pub open spec fn realized_from(old: Seq<LazyNode>, new: Seq<LazyNode>, target: int) -> bool {
    &&& new.len() == old.len()
    &&& forall|j: int|
        0 <= j < old.len() ==> #[trigger] new[j] == if holds(plan(old, target), j) {
            LazyNode { realized: true, ..old[j] }
        } else {
            old[j]
        }
}

/// A buffer that is already realized needs no work.
pub proof fn lemma_realized_plan_empty(nodes: Seq<LazyNode>, target: int)
    requires
        0 <= target < nodes.len(),
        nodes[target].realized,
    ensures
        plan(nodes, target).len() == 0,
{
}

/// Visits `x` depth-first, adding to `out` what it needs, as `visit` says.
fn visit_exec(g: &LazyGraph, x: usize, out: &mut Vec<usize>, seen: &mut Vec<bool>)
    requires
        g.wf(),
        x < g.nodes_view().len(),
        old(seen)@.len() == g.nodes_view().len(),
        forall|i: int| 0 <= i < old(seen)@.len() ==> (#[trigger] old(seen)@[i] <==> holds(old(out)@, i)),
    ensures
        final(out)@ == visit(g.nodes_view(), x as int, old(out)@),
        final(seen)@.len() == g.nodes_view().len(),
        forall|i: int| 0 <= i < final(seen)@.len() ==> (#[trigger] final(seen)@[i] <==> holds(final(out)@, i)),
    decreases x,
{
    if g.nodes[x].realized || seen[x] {
        return;
    }
    let ghost out0 = out@;
    proof {
        assert(node_ok(g.nodes_view(), x as int));
    }
    let n = g.nodes[x].srcs.len();
    let mut k: usize = 0;
    while k < n
        invariant
            g.wf(),
            x < g.nodes_view().len(),
            n == g.nodes_view()[x as int].srcs@.len(),
            node_ok(g.nodes_view(), x as int),
            k <= n,
            out@ == visit_srcs(g.nodes_view(), x as int, k as int, out0),
            seen@.len() == g.nodes_view().len(),
            forall|i: int| 0 <= i < seen@.len() ==> (#[trigger] seen@[i] <==> holds(out@, i)),
        decreases n - k,
    {
        let y = g.nodes[x].srcs[k];
        proof {
            assert(y < x);
        }
        visit_exec(g, y, out, seen);
        k = k + 1;
    }
    let ghost before = out@;
    out.push(x);
    seen.set(x, true);
    proof {
        assert forall|i: int| 0 <= i < seen@.len() implies (#[trigger] seen@[i] <==> holds(out@, i)) by {
            if holds(before, i) {
                let j = choose|j: int| 0 <= j < before.len() && before[j] as int == i;
                assert(out@[j] == before[j]);
            }
            if holds(out@, i) && i != x as int {
                let j = choose|j: int| 0 <= j < out@.len() && out@[j] as int == i;
                assert(before[j] == out@[j]);
            }
            if i == x as int {
                assert(out@[before.len() as int] == x);
            }
        }
    }
}

impl LazyGraph {
    fn mark_realized(&mut self, i: usize)
        requires
            old(self).wf(),
            i < old(self).nodes_view().len(),
        ensures
            final(self).wf(),
            final(self).nodes_view() == old(self).nodes_view().update(
                i as int,
                LazyNode { realized: true, ..old(self).nodes_view()[i as int] },
            ),
    {
        let mut n = self.nodes.remove(i);
        n.realized = true;
        self.nodes.insert(i, n);
        proof {
            let o = old(self).nodes_view();
            let u = o.update(i as int, LazyNode { realized: true, ..o[i as int] });
            assert(self.nodes_view() =~= u);
            assert forall|j: int| 0 <= j < u.len() implies #[trigger] node_ok(u, j) by {
                assert(node_ok(o, j));
                assert forall|x: int| 0 <= x < o.len() implies u[x].shape@ == o[x].shape@ && u[x].op
                    == o[x].op && u[x].srcs@ == o[x].srcs@ && u[x].arg == o[x].arg by {}
            }
        }
    }
}

impl LazyBuffer {
    /// The ordered work that realizing this buffer takes: every node it
    /// depends on that is not realized yet, each once, sources first.
    pub fn schedule(&self, g: &LazyGraph) -> (r: Vec<ScheduleItem>)
        requires
            self.valid(*g),
        ensures
            outs(r@) == plan(g.nodes_view(), self.id as int),
            forall|i: int|
                0 <= i < r@.len() ==> #[trigger] r@[i].op == g.nodes_view()[r@[i].out as int].op
                    && r@[i].inputs@ == g.nodes_view()[r@[i].out as int].srcs@,
    {
        let n = g.nodes.len();
        let mut order: Vec<usize> = Vec::new();
        let mut seen: Vec<bool> = vec![false; n];
        visit_exec(g, self.id, &mut order, &mut seen);
        proof {
            lemma_visit(g.nodes_view(), self.id as int, Seq::empty());
        }
        let mut r: Vec<ScheduleItem> = Vec::new();
        let mut k: usize = 0;
        while k < order.len()
            invariant
                self.valid(*g),
                order@ == plan(g.nodes_view(), self.id as int),
                forall|i: int| 0 <= i < order@.len() ==> #[trigger] order@[i] < g.nodes_view().len(),
                k <= order@.len(),
                outs(r@) == order@.subrange(0, k as int),
                forall|i: int|
                    0 <= i < r@.len() ==> #[trigger] r@[i].op == g.nodes_view()[r@[i].out as int].op
                        && r@[i].inputs@ == g.nodes_view()[r@[i].out as int].srcs@,
            decreases order.len() - k,
        {
            let x = order[k];
            let ghost before = r@;
            let item = ScheduleItem {
                out: x,
                op: g.nodes[x].op,
                inputs: crate::lazy::copy_dims(&g.nodes[x].srcs),
            };
            r.push(item);
            k = k + 1;
            proof {
                assert(r@ == before.push(item));
                assert(outs(r@) =~= outs(before).push(x));
                assert(order@.subrange(0, k as int) =~= order@.subrange(0, k - 1).push(x));
            }
        }
        proof {
            assert(order@.subrange(0, order@.len() as int) =~= order@);
        }
        r
    }

    /// Computes, in schedule order, every node this buffer needs that is not
    /// realized yet, and returns that work. Realizing a realized buffer does
    /// nothing.
    pub fn realize(&self, g: &mut LazyGraph) -> (r: Vec<ScheduleItem>)
        requires
            self.valid(*old(g)),
        ensures
            final(g).wf(),
            outs(r@) == plan(old(g).nodes_view(), self.id as int),
            forall|i: int|
                0 <= i < r@.len() ==> #[trigger] r@[i].op == old(g).nodes_view()[r@[i].out as int].op
                    && r@[i].inputs@ == old(g).nodes_view()[r@[i].out as int].srcs@,
            realized_from(old(g).nodes_view(), final(g).nodes_view(), self.id as int),
            self.node(*final(g)).realized,
            old(g).nodes_view()[self.id as int].realized ==> r@.len() == 0 && final(g).nodes_view() == old(g).nodes_view(),
    {
        let items = self.schedule(g);
        let _len = g.nodes.len();
        let ghost p = plan(g.nodes_view(), self.id as int);
        proof {
            lemma_plan_sound(g.nodes_view(), self.id as int);
        }
        let mut k: usize = 0;
        while k < items.len()
            invariant
                g.wf(),
                outs(items@) == p,
                p == plan(old(g).nodes_view(), self.id as int),
                0 <= self.id < old(g).nodes_view().len(),
                old(g).nodes_view().len() <= usize::MAX,
                k <= items@.len(),
                ordered(old(g).nodes_view(), p),
                g.nodes_view().len() == old(g).nodes_view().len(),
                forall|j: int|
                    0 <= j < old(g).nodes_view().len() ==> #[trigger] g.nodes_view()[j] == if holds(
                        p.subrange(0, k as int),
                        j,
                    ) {
                        LazyNode { realized: true, ..old(g).nodes_view()[j] }
                    } else {
                        old(g).nodes_view()[j]
                    },
            decreases items.len() - k,
        {
            let out = items[k].out;
            proof {
                assert(outs(items@)[k as int] == out);
            }
            g.mark_realized(out);
            k = k + 1;
            proof {
                assert forall|j: int| 0 <= j < old(g).nodes_view().len() implies #[trigger] g.nodes_view()[j] == if holds(
                    p.subrange(0, k as int),
                    j,
                ) {
                    LazyNode { realized: true, ..old(g).nodes_view()[j] }
                } else {
                    old(g).nodes_view()[j]
                } by {
                    let a = p.subrange(0, k - 1);
                    let b = p.subrange(0, k as int);
                    assert(b =~= a.push(out));
                    if holds(a, j) {
                        let i = choose|i: int| 0 <= i < a.len() && a[i] as int == j;
                        assert(b[i] as int == j);
                    }
                    if j == out as int {
                        assert(b[k - 1] as int == j);
                    }
                    if holds(b, j) && j != out as int {
                        let i = choose|i: int| 0 <= i < b.len() && b[i] as int == j;
                        assert(a[i] as int == j);
                    }
                }
            }
        }
        proof {
            assert(p.subrange(0, p.len() as int) =~= p);
            assert(outs(items@).len() == items@.len());
            if !old(g).nodes_view()[self.id as int].realized {
                assert(holds(p, self.id as int));
            } else {
                lemma_realized_plan_empty(old(g).nodes_view(), self.id as int);
                assert(g.nodes_view() =~= old(g).nodes_view());
            }
        }
        items
    }


    /// The same buffer where it already lives on `device`, with no work.
    /// Otherwise this buffer is realized first, and the result is a new
    /// buffer bound to `device` that copies its data; the work that realizing
    /// took is handed back for the array engine to run.
    pub fn copy_to_device(&self, g: &mut LazyGraph, device: &str) -> (r: (LazyBuffer, Vec<ScheduleItem>))
        requires
            self.valid(*old(g)),
        ensures
            final(g).wf(),
            self.node(*old(g)).device@ == device@ ==> r.0 == *self && r.1@.len() == 0 && final(g).nodes_view()
                == old(g).nodes_view(),
            self.node(*old(g)).device@ != device@ ==> {
                let mid = final(g).nodes_view().drop_last();
                let n = r.0.node(*final(g));
                &&& r.0.id == old(g).nodes_view().len()
                &&& final(g).nodes_view().len() == old(g).nodes_view().len() + 1
                &&& outs(r.1@) == plan(old(g).nodes_view(), self.id as int)
                &&& realized_from(old(g).nodes_view(), mid, self.id as int)
                &&& mid[self.id as int].realized
                &&& n.op == LazyOp::Load(LoadOps::FROM)
                &&& n.srcs@ == seq![self.id]
                &&& n.shape@ == self.node(*old(g)).shape@
                &&& n.dtype == self.node(*old(g)).dtype
                &&& n.device@ == device@
                &&& !n.realized
            },
    {
        let target = device.to_owned();
        if g.nodes[self.id].device == target {
            (*self, Vec::new())
        } else {
            let work = self.realize(g);
            let ghost mid = *g;
            let b = self.push_copy(g, LoadOps::FROM, target);
            proof {
                assert(g.nodes_view().drop_last() == mid.nodes_view());
            }
            (b, work)
        }
    }

}

} // verus!
