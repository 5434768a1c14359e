use vstd::prelude::*;

use crate::dtype::DType;
use crate::dtype::{boolean, is_registered_as};
use crate::ops::{extra_operands, BinaryOps, LazyOp, LoadOps, MovementOps, ReduceOps, TernaryOps};
use crate::shape::{
    checked_numel, expand_ok, reduce_ok, fits, is_permutation, pad_ok, pad_shape, permute_shape,
    reshape_ok, shrink_ok, shrink_shape, stride_ok, stride_shape,
};

verus! {

/// Errors of graph construction.
#[derive(Clone, Copy, PartialEq, Eq, Structural, Debug)]
pub enum LazyError {
    ShapeMismatch,
    UnsupportedOp,
}

/// The argument an operation was applied with.
pub enum OpArg {
    Nothing,
    /// The bit pattern of a constant fill value.
    Bits(u64),
    /// A shape or a list of axes or steps, one per axis.
    Dims(Vec<usize>),
    /// A `(before, after)` or `(lo, hi)` pair per axis.
    Bounds(Vec<(usize, usize)>),
}

pub open spec fn arg_dims(a: OpArg) -> Seq<usize> {
    match a {
        OpArg::Dims(v) => v@,
        _ => Seq::empty(),
    }
}

pub open spec fn arg_bounds(a: OpArg) -> Seq<(usize, usize)> {
    match a {
        OpArg::Bounds(v) => v@,
        _ => Seq::empty(),
    }
}

/// Data handed back by the array engine for a realized buffer.
pub struct RawCPUBuffer<T> {
    x: T,
}

impl<T> RawCPUBuffer<T> {
    pub fn new(x: T) -> (r: RawCPUBuffer<T>)
        ensures
            r.data() == x,
    {
        RawCPUBuffer { x }
    }

    pub closed spec fn data(self) -> T {
        self.x
    }

    /// The data itself.
    pub fn to_cpu(self) -> (r: T)
        ensures
            r == self.data(),
    {
        self.x
    }
}

/// One buffer of the graph: how it is produced, from which earlier buffers,
/// its shape, data type and device, and whether its data is already computed.
pub struct LazyNode {
    pub op: LazyOp,
    pub srcs: Vec<usize>,
    pub shape: Vec<usize>,
    pub dtype: DType,
    pub device: String,
    pub arg: OpArg,
    pub realized: bool,
}

impl LazyNode {
    /// The bit pattern of the fill value, for a constant.
    pub fn arg_bits(&self) -> (r: Option<u64>)
        ensures
            r == match self.arg {
                OpArg::Bits(b) => Some(b),
                _ => None::<u64>,
            },
    {
        match self.arg {
            OpArg::Bits(b) => Some(b),
            _ => None,
        }
    }
}

/// An arena of buffers; a buffer only refers to buffers created before it.
pub struct LazyGraph {
    pub(crate) nodes: Vec<LazyNode>,
}

/// A handle on one buffer of a graph.
#[derive(Clone, Copy, PartialEq, Eq, Structural, Debug)]
pub struct LazyBuffer {
    pub id: usize,
}

pub open spec fn src_shape(nodes: Seq<LazyNode>, n: LazyNode) -> Seq<usize> {
    nodes[n.srcs@[0] as int].shape@
}

/// The shape a movement op gives a buffer of shape `old`.
pub open spec fn movement_ok(m: MovementOps, arg: OpArg, old: Seq<usize>, new: Seq<usize>) -> bool {
    match m {
        MovementOps::RESHAPE => arg is Dims && arg_dims(arg) == new && reshape_ok(old, new),
        MovementOps::EXPAND => arg is Dims && arg_dims(arg) == new && expand_ok(old, new),
        MovementOps::SHRINK => arg is Bounds && shrink_ok(old, arg_bounds(arg)) && new
            == shrink_shape(arg_bounds(arg)),
        MovementOps::PAD => arg is Bounds && pad_ok(old, arg_bounds(arg)) && new == pad_shape(
            old,
            arg_bounds(arg),
        ),
        MovementOps::PERMUTE => arg is Dims && is_permutation(arg_dims(arg), old.len()) && new
            == permute_shape(old, arg_dims(arg)),
        MovementOps::STRIDE => arg is Dims && stride_ok(old, arg_dims(arg)) && new
            == stride_shape(old, arg_dims(arg)),
    }
}

/// Whether node `i` is consistent with the nodes before it: its sources come
/// earlier, its element count fits, and its shape is what its op produces.
pub open spec fn node_ok(nodes: Seq<LazyNode>, i: int) -> bool {
    let n = nodes[i];
    &&& forall|k: int| 0 <= k < n.srcs@.len() ==> #[trigger] n.srcs@[k] < i
    &&& fits(n.shape@)
    &&& match n.op {
        LazyOp::Load(l) => match l {
            LoadOps::CONST => n.srcs@.len() == 0 && n.arg is Bits,
            LoadOps::EMPTY | LoadOps::RAND => n.srcs@.len() == 0,
            _ => n.srcs@.len() == 0 || (n.srcs@.len() == 1 && src_shape(nodes, n) == n.shape@),
        },
        LazyOp::Reduce(_) => n.srcs@.len() == 1 && reduce_ok(
            src_shape(nodes, n),
            n.shape@,
        ),
        LazyOp::Movement(m) => n.srcs@.len() == 1 && movement_ok(
            m,
            n.arg,
            src_shape(nodes, n),
            n.shape@,
        ),
        _ => extra_operands(n.op) == Some((n.srcs@.len() - 1) as nat) && n.srcs@.len()
            >= 1 && forall|k: int|
            0 <= k < n.srcs@.len() ==> nodes[#[trigger] n.srcs@[k] as int].shape@ == n.shape@,
    }
}

/// Every node of the sequence is consistent with those before it.
pub open spec fn nodes_wf(nodes: Seq<LazyNode>) -> bool {
    forall|i: int| 0 <= i < nodes.len() ==> #[trigger] node_ok(nodes, i)
}

impl LazyGraph {
    /// The buffers of the graph, by id.
    pub open(crate) spec fn nodes_view(self) -> Seq<LazyNode> {
        self.nodes@
    }

    /// Number of buffers in the graph.
    pub fn len(&self) -> (r: usize)
        ensures
            r == self.nodes_view().len(),
    {
        self.nodes.len()
    }

    /// The record of buffer `id`, to read.
    pub fn node(&self, id: usize) -> (r: &LazyNode)
        requires
            id < self.nodes_view().len(),
        ensures
            *r == self.nodes_view()[id as int],
    {
        &self.nodes[id]
    }

    pub open spec fn wf(self) -> bool {
        nodes_wf(self.nodes_view())
    }

    pub fn new() -> (r: LazyGraph)
        ensures
            r.wf(),
            r.nodes_view().len() == 0,
    {
        LazyGraph { nodes: Vec::new() }
    }

    fn add_node(&mut self, node: LazyNode) -> (r: LazyBuffer)
        requires
            old(self).wf(),
            node_ok(old(self).nodes_view().push(node), old(self).nodes_view().len() as int),
        ensures
            final(self).nodes_view() == old(self).nodes_view().push(node),
            final(self).wf(),
            r.id == old(self).nodes_view().len(),
    {
        let r = LazyBuffer { id: self.nodes.len() };
        proof {
            lemma_push_keeps_nodes(self.nodes_view(), node);
        }
        self.nodes.push(node);
        proof {
            assert forall|i: int| 0 <= i < self.nodes_view().len() implies #[trigger] node_ok(
                self.nodes_view(),
                i,
            ) by {
                if i < old(self).nodes_view().len() {
                    assert(node_ok(old(self).nodes_view(), i));
                }
            }
        }
        r
    }
}

/// Appending a node leaves the consistency of the earlier ones unchanged.
proof fn lemma_push_keeps_nodes(nodes: Seq<LazyNode>, node: LazyNode)
    ensures
        forall|i: int|
            0 <= i < nodes.len() ==> node_ok(nodes.push(node), i) == #[trigger] node_ok(nodes, i),
{
    assert forall|i: int| 0 <= i < nodes.len() implies node_ok(nodes.push(node), i) == #[trigger] node_ok(
        nodes,
        i,
    ) by {
        let p = nodes.push(node);
        assert(p[i] == nodes[i]);
        let n = nodes[i];
        if forall|k: int| 0 <= k < n.srcs@.len() ==> #[trigger] n.srcs@[k] < i {
            assert forall|k: int| 0 <= k < n.srcs@.len() implies p[#[trigger] n.srcs@[k] as int]
                == nodes[n.srcs@[k] as int] by {}
        }
    }
}

/// `new` is `old` with one node appended, and `b` names that node.
pub open spec fn appended(old: LazyGraph, new: LazyGraph, b: LazyBuffer) -> bool {
    &&& b.id == old.nodes_view().len()
    &&& new.nodes_view().len() == old.nodes_view().len() + 1
    &&& new.nodes_view().drop_last() == old.nodes_view()
}

/// `b` was appended to `old` as the result of movement op `m` on `src`, with
/// the given shape.
pub open spec fn moved(
    old: LazyGraph,
    new: LazyGraph,
    src: LazyBuffer,
    b: LazyBuffer,
    m: MovementOps,
    shape: Seq<usize>,
) -> bool {
    let s = src.node(old);
    let n = b.node(new);
    &&& appended(old, new, b)
    &&& n.op == LazyOp::Movement(m)
    &&& n.srcs@ == seq![src.id]
    &&& n.shape@ == shape
    &&& n.dtype == s.dtype
    &&& n.device@ == s.device@
    &&& !n.realized
}

pub(crate) fn copy_dims(v: &Vec<usize>) -> (r: Vec<usize>)
    ensures
        r@ == v@,
{
    let mut r: Vec<usize> = Vec::new();
    let mut i: usize = 0;
    while i < v.len()
        invariant
            i <= v@.len(),
            r@ == v@.subrange(0, i as int),
        decreases v.len() - i,
    {
        r.push(v[i]);
        i = i + 1;
        proof {
            assert(r@ =~= v@.subrange(0, i as int));
        }
    }
    proof {
        assert(v@.subrange(0, v@.len() as int) =~= v@);
    }
    r
}

fn check_expand(old: &Vec<usize>, new: &Vec<usize>) -> (r: bool)
    ensures
        r == expand_ok(old@, new@),
{
    if old.len() != new.len() {
        return false;
    }
    let mut i: usize = 0;
    while i < old.len()
        invariant
            old@.len() == new@.len(),
            i <= old@.len(),
            forall|k: int| 0 <= k < i ==> new@[k] == old@[k] || old@[k] == 1,
        decreases old.len() - i,
    {
        if !(new[i] == old[i] || old[i] == 1) {
            return false;
        }
        i = i + 1;
    }
    true
}

fn check_shrink(old: &Vec<usize>, arg: &Vec<(usize, usize)>) -> (r: Option<Vec<usize>>)
    ensures
        r is Some <==> shrink_ok(old@, arg@),
        r matches Some(v) ==> v@ == shrink_shape(arg@),
{
    if old.len() != arg.len() {
        return None;
    }
    let mut out: Vec<usize> = Vec::new();
    let mut i: usize = 0;
    while i < old.len()
        invariant
            old@.len() == arg@.len(),
            i <= old@.len(),
            forall|k: int| 0 <= k < i ==> #[trigger] arg@[k].0 <= arg@[k].1 <= old@[k],
            out@ == shrink_shape(arg@).subrange(0, i as int),
        decreases old.len() - i,
    {
        let (lo, hi) = arg[i];
        if !(lo <= hi && hi <= old[i]) {
            return None;
        }
        out.push(hi - lo);
        i = i + 1;
        proof {
            assert(out@ =~= shrink_shape(arg@).subrange(0, i as int));
        }
    }
    proof {
        assert(out@ =~= shrink_shape(arg@));
    }
    Some(out)
}

fn check_pad(old: &Vec<usize>, arg: &Vec<(usize, usize)>) -> (r: Option<Vec<usize>>)
    ensures
        r is Some <==> pad_ok(old@, arg@),
        r matches Some(v) ==> v@ == pad_shape(old@, arg@),
{
    if old.len() != arg.len() {
        return None;
    }
    let mut out: Vec<usize> = Vec::new();
    let mut i: usize = 0;
    while i < old.len()
        invariant
            old@.len() == arg@.len(),
            i <= old@.len(),
            forall|k: int| 0 <= k < i ==> old@[k] + #[trigger] arg@[k].0 + arg@[k].1 <= usize::MAX,
            out@ == pad_shape(old@, arg@).subrange(0, i as int),
        decreases old.len() - i,
    {
        let (lo, hi) = arg[i];
        if lo > usize::MAX - old[i] || hi > usize::MAX - old[i] - lo {
            return None;
        }
        out.push(old[i] + lo + hi);
        i = i + 1;
        proof {
            assert(out@ =~= pad_shape(old@, arg@).subrange(0, i as int));
        }
    }
    proof {
        assert(out@ =~= pad_shape(old@, arg@));
    }
    Some(out)
}

fn check_permute(old: &Vec<usize>, arg: &Vec<usize>) -> (r: Option<Vec<usize>>)
    ensures
        r is Some <==> is_permutation(arg@, old@.len()),
        r matches Some(v) ==> v@ == permute_shape(old@, arg@),
{
    let n = old.len();
    if arg.len() != n {
        return None;
    }
    let mut seen: Vec<bool> = vec![false; n];
    let mut out: Vec<usize> = Vec::new();
    let mut i: usize = 0;
    while i < n
        invariant
            n == old@.len(),
            arg@.len() == n,
            seen@.len() == n,
            i <= n,
            forall|k: int| 0 <= k < i ==> #[trigger] arg@[k] < n,
            forall|k: int, j: int| 0 <= k < i && 0 <= j < i && k != j ==> arg@[k] != arg@[j],
            forall|x: int| 0 <= x < n ==> (#[trigger] seen@[x] <==> exists|k: int| 0 <= k < i && arg@[k] == x),
            out@ == permute_shape(old@, arg@.subrange(0, i as int)),
        decreases n - i,
    {
        let a = arg[i];
        if a >= n {
            return None;
        }
        if seen[a] {
            proof {
                let k = choose|k: int| 0 <= k < i && arg@[k] == a;
                assert(arg@[k] == arg@[i as int]);
            }
            return None;
        }
        seen.set(a, true);
        out.push(old[a]);
        proof {
            assert forall|x: int| 0 <= x < n implies (#[trigger] seen@[x] <==> exists|k: int|
                0 <= k < i + 1 && arg@[k] == x) by {
                if x == a {
                    assert(arg@[i as int] == x);
                }
            }
            assert forall|k: int, j: int| 0 <= k < i + 1 && 0 <= j < i + 1 && k != j implies arg@[k]
                != arg@[j] by {
                if j == i && k < i {
                    assert(seen@[arg@[k] as int] == false || arg@[k] != a);
                }
                if k == i && j < i {
                    assert(seen@[arg@[j] as int] == false || arg@[j] != a);
                }
            }
        }
        i = i + 1;
        proof {
            assert(out@ =~= permute_shape(old@, arg@.subrange(0, i as int)));
        }
    }
    proof {
        assert(arg@.subrange(0, n as int) =~= arg@);
    }
    Some(out)
}

fn check_stride(old: &Vec<usize>, arg: &Vec<usize>) -> (r: Option<Vec<usize>>)
    ensures
        r is Some <==> stride_ok(old@, arg@),
        r matches Some(v) ==> v@ == stride_shape(old@, arg@),
{
    if old.len() != arg.len() {
        return None;
    }
    let mut out: Vec<usize> = Vec::new();
    let mut i: usize = 0;
    while i < old.len()
        invariant
            old@.len() == arg@.len(),
            i <= old@.len(),
            forall|k: int| 0 <= k < i ==> arg@[k] >= 1,
            out@ == stride_shape(old@, arg@).subrange(0, i as int),
        decreases old.len() - i,
    {
        let step = arg[i];
        if step == 0 {
            return None;
        }
        let d = old[i];
        let q = d / step;
        let c: usize = if d % step == 0 {
            q
        } else {
            proof {
                assert(q * step <= d) by (nonlinear_arith)
                    requires
                        q == d / step,
                        step >= 1,
                ;
                assert(q < d || q == 0 || step == 1) by (nonlinear_arith)
                    requires
                        q == d / step,
                        step >= 1,
                        d % step != 0,
                ;
            }
            q + 1
        };
        out.push(c);
        i = i + 1;
        proof {
            assert(out@ =~= stride_shape(old@, arg@).subrange(0, i as int));
        }
    }
    proof {
        assert(out@ =~= stride_shape(old@, arg@));
    }
    Some(out)
}

/// Load ops whose data comes from another buffer.
pub open spec fn delegates(op: LoadOps) -> bool {
    op == LoadOps::FROM || op == LoadOps::CONTIGUOUS || op == LoadOps::CUSTOM
}

/// A load op that lacks what it is made from: a fill value or a source buffer.
pub open spec fn load_unsupported(op: LoadOps, arg: Option<u64>, src: Option<LazyBuffer>) -> bool {
    (op == LoadOps::CONST && arg is None) || (delegates(op) && src is None)
}

pub open spec fn ids(bs: Seq<LazyBuffer>) -> Seq<usize> {
    bs.map_values(|b: LazyBuffer| b.id)
}

/// The buffer a chain of movement ops starting at node `i` views.
pub open spec fn base_of(nodes: Seq<LazyNode>, i: int) -> int
    decreases i,
{
    if 0 <= i < nodes.len() && nodes[i].op is Movement && nodes[i].srcs@.len() == 1 && 0
        <= nodes[i].srcs@[0] < i {
        base_of(nodes, nodes[i].srcs@[0] as int)
    } else {
        i
    }
}

fn check_reduce(old: &Vec<usize>, new: &Vec<usize>) -> (r: bool)
    ensures
        r == reduce_ok(old@, new@),
{
    if old.len() == 0 || old.len() != new.len() || new[0] != 1 {
        return false;
    }
    let mut i: usize = 1;
    while i < old.len()
        invariant
            old@.len() == new@.len(),
            1 <= i <= old@.len(),
            forall|k: int| 1 <= k < i ==> new@[k] == old@[k],
        decreases old.len() - i,
    {
        if new[i] != old[i] {
            return false;
        }
        i = i + 1;
    }
    true
}

fn same_dims(a: &Vec<usize>, b: &Vec<usize>) -> (r: bool)
    ensures
        r == (a@ == b@),
{
    if a.len() != b.len() {
        return false;
    }
    let mut i: usize = 0;
    while i < a.len()
        invariant
            a@.len() == b@.len(),
            i <= a@.len(),
            forall|k: int| 0 <= k < i ==> a@[k] == b@[k],
        decreases a.len() - i,
    {
        if a[i] != b[i] {
            return false;
        }
        i = i + 1;
    }
    proof {
        assert(a@ =~= b@);
    }
    true
}

impl LazyBuffer {
    /// The handle names a buffer of a consistent graph.
    pub open spec fn valid(self, g: LazyGraph) -> bool {
        g.wf() && self.id < g.nodes_view().len()
    }

    pub open spec fn node(self, g: LazyGraph) -> LazyNode {
        g.nodes_view()[self.id as int]
    }

    fn push_movement(
        &self,
        g: &mut LazyGraph,
        m: MovementOps,
        arg: OpArg,
        shape: Vec<usize>,
    ) -> (r: LazyBuffer)
        requires
            self.valid(*old(g)),
            fits(shape@),
            movement_ok(m, arg, self.node(*old(g)).shape@, shape@),
        ensures
            final(g).wf(),
            moved(*old(g), *final(g), *self, r, m, shape@),
            r.node(*final(g)).arg == arg,
    {
        let ghost sh = shape@;
        let src = &g.nodes[self.id];
        let node = LazyNode {
            op: LazyOp::Movement(m),
            srcs: vec![self.id],
            shape,
            dtype: src.dtype,
            device: src.device.clone(),
            arg,
            realized: false,
        };
        proof {
            let p = g.nodes_view().push(node);
            assert(p[node.srcs@[0] as int] == g.nodes_view()[self.id as int]);
        }
        let r = g.add_node(node);
        proof {
            assert(g.nodes_view().drop_last() =~= old(g).nodes_view());
            assert(r.node(*g).srcs@ =~= seq![self.id]);
            assert(r.node(*g).shape@ == sh);
            assert(r.node(*g).device@ == self.node(*old(g)).device@);
        }
        r
    }

    /// A root buffer made by a load op. `arg` is the bit pattern of the fill
    /// value of CONST; `src` is the buffer FROM, CONTIGUOUS and CUSTOM take
    /// their data from.
    pub fn loadop(
        g: &mut LazyGraph,
        op: LoadOps,
        shape: Vec<usize>,
        dtype: DType,
        device: &str,
        arg: Option<u64>,
        src: Option<LazyBuffer>,
    ) -> (r: Result<LazyBuffer, LazyError>)
        requires
            old(g).wf(),
            src matches Some(b) ==> b.id < old(g).nodes_view().len(),
        ensures
            final(g).wf(),
            r == Err::<LazyBuffer, LazyError>(LazyError::UnsupportedOp) <==> load_unsupported(op, arg, src),
            r == Err::<LazyBuffer, LazyError>(LazyError::ShapeMismatch) <==> !load_unsupported(op, arg, src) && (!fits(shape@) || (
                delegates(op) && src.unwrap().node(*old(g)).shape@ != shape@)),
            r is Err ==> final(g).nodes_view() == old(g).nodes_view(),
            r matches Ok(b) ==> {
                let n = b.node(*final(g));
                &&& appended(*old(g), *final(g), b)
                &&& n.op == LazyOp::Load(op)
                &&& n.srcs@ == if delegates(op) {
                    seq![src.unwrap().id]
                } else {
                    Seq::empty()
                }
                &&& n.shape@ == shape@
                &&& n.dtype == dtype
                &&& n.device@ == device@
                &&& n.arg == if op == LoadOps::CONST {
                    OpArg::Bits(arg.unwrap())
                } else {
                    OpArg::Nothing
                }
                &&& !n.realized
            },
    {
        let deleg = match op {
            LoadOps::FROM | LoadOps::CONTIGUOUS | LoadOps::CUSTOM => true,
            _ => false,
        };
        let node_arg = match op {
            LoadOps::CONST => match arg {
                Some(bits) => OpArg::Bits(bits),
                None => return Err(LazyError::UnsupportedOp),
            },
            _ => OpArg::Nothing,
        };
        let mut srcs: Vec<usize> = Vec::new();
        if deleg {
            match src {
                Some(b) => {
                    if !same_dims(&g.nodes[b.id].shape, &shape) {
                        return Err(LazyError::ShapeMismatch);
                    }
                    srcs.push(b.id);
                },
                None => return Err(LazyError::UnsupportedOp),
            }
        }
        if checked_numel(&shape).is_none() {
            return Err(LazyError::ShapeMismatch);
        }
        let ghost sh = shape@;
        let ghost ss = srcs@;
        let node = LazyNode {
            op: LazyOp::Load(op),
            srcs,
            shape,
            dtype,
            device: device.to_owned(),
            arg: node_arg,
            realized: false,
        };
        proof {
            let p = g.nodes_view().push(node);
            if deleg {
                assert(p[node.srcs@[0] as int] == g.nodes_view()[node.srcs@[0] as int]);
            }
        }
        let r = g.add_node(node);
        proof {
            assert(g.nodes_view().drop_last() =~= old(g).nodes_view());
            if deleg {
                assert(ss =~= seq![src.unwrap().id]);
            } else {
                assert(ss =~= Seq::<usize>::empty());
            }
        }
        Ok(r)
    }

    /// A buffer whose data the array engine already holds, on the default device.
    pub fn from_cpu(g: &mut LazyGraph, shape: Vec<usize>, dtype: DType) -> (r: Result<LazyBuffer, LazyError>)
        requires
            old(g).wf(),
        ensures
            final(g).wf(),
            r is Ok <==> fits(shape@),
            r matches Err(e) ==> e == LazyError::ShapeMismatch && final(g).nodes_view() == old(g).nodes_view(),
            r matches Ok(b) ==> {
                let n = b.node(*final(g));
                &&& appended(*old(g), *final(g), b)
                &&& n.op == LazyOp::Load(LoadOps::FROM)
                &&& n.srcs@.len() == 0
                &&& n.shape@ == shape@
                &&& n.dtype == dtype
                &&& n.device@ == crate::ops::DEFAULT_DEVICE@
                &&& n.realized
            },
    {
        if checked_numel(&shape).is_none() {
            return Err(LazyError::ShapeMismatch);
        }
        let node = LazyNode {
            op: LazyOp::Load(LoadOps::FROM),
            srcs: Vec::new(),
            shape,
            dtype,
            device: crate::ops::DEFAULT_DEVICE.to_owned(),
            arg: OpArg::Nothing,
            realized: true,
        };
        let r = g.add_node(node);
        proof {
            assert(g.nodes_view().drop_last() =~= old(g).nodes_view());
        }
        Ok(r)
    }

    /// A buffer of the same shape, data type and device, every element of
    /// which is the value with bit pattern `x`.
    pub fn constant(&self, g: &mut LazyGraph, x: u64) -> (r: LazyBuffer)
        requires
            self.valid(*old(g)),
        ensures
            final(g).wf(),
            appended(*old(g), *final(g), r),
            r.node(*final(g)).op == LazyOp::Load(LoadOps::CONST),
            r.node(*final(g)).srcs@.len() == 0,
            r.node(*final(g)).shape@ == self.node(*old(g)).shape@,
            r.node(*final(g)).dtype == self.node(*old(g)).dtype,
            r.node(*final(g)).device@ == self.node(*old(g)).device@,
            r.node(*final(g)).arg == OpArg::Bits(x),
            !r.node(*final(g)).realized,
    {
        assert(node_ok(g.nodes_view(), self.id as int));
        let src = &g.nodes[self.id];
        let node = LazyNode {
            op: LazyOp::Load(LoadOps::CONST),
            srcs: Vec::new(),
            shape: copy_dims(&src.shape),
            dtype: src.dtype,
            device: src.device.clone(),
            arg: OpArg::Bits(x),
            realized: false,
        };
        let r = g.add_node(node);
        proof {
            assert(g.nodes_view().drop_last() =~= old(g).nodes_view());
        }
        r
    }

    pub(crate) fn push_copy(&self, g: &mut LazyGraph, op: LoadOps, device: String) -> (r: LazyBuffer)
        requires
            self.valid(*old(g)),
            delegates(op),
        ensures
            final(g).wf(),
            appended(*old(g), *final(g), r),
            r.node(*final(g)).op == LazyOp::Load(op),
            r.node(*final(g)).srcs@ == seq![self.id],
            r.node(*final(g)).shape@ == self.node(*old(g)).shape@,
            r.node(*final(g)).dtype == self.node(*old(g)).dtype,
            r.node(*final(g)).device@ == device@,
            !r.node(*final(g)).realized,
    {
        assert(node_ok(g.nodes_view(), self.id as int));
        let src = &g.nodes[self.id];
        let node = LazyNode {
            op: LazyOp::Load(op),
            srcs: vec![self.id],
            shape: copy_dims(&src.shape),
            dtype: src.dtype,
            device,
            arg: OpArg::Nothing,
            realized: false,
        };
        proof {
            let p = g.nodes_view().push(node);
            assert(p[node.srcs@[0] as int] == g.nodes_view()[self.id as int]);
        }
        let r = g.add_node(node);
        proof {
            assert(g.nodes_view().drop_last() =~= old(g).nodes_view());
            assert(r.node(*g).srcs@ =~= seq![self.id]);
        }
        r
    }

    /// A buffer that materializes this one into fresh storage.
    pub fn contiguous(&self, g: &mut LazyGraph) -> (r: LazyBuffer)
        requires
            self.valid(*old(g)),
        ensures
            final(g).wf(),
            appended(*old(g), *final(g), r),
            r.node(*final(g)).op == LazyOp::Load(LoadOps::CONTIGUOUS),
            r.node(*final(g)).srcs@ == seq![self.id],
            r.node(*final(g)).shape@ == self.node(*old(g)).shape@,
            r.node(*final(g)).dtype == self.node(*old(g)).dtype,
            r.node(*final(g)).device@ == self.node(*old(g)).device@,
            !r.node(*final(g)).realized,
    {
        let device = g.nodes[self.id].device.clone();
        self.push_copy(g, LoadOps::CONTIGUOUS, device)
    }

    /// Applies a unary, binary or ternary op to this buffer and `srcs`, all
    /// of one shape. CMPLT yields booleans; WHERE takes the data type of the
    /// values it selects from; every other op keeps this buffer's data type.
    pub fn e(&self, g: &mut LazyGraph, op: LazyOp, srcs: &Vec<LazyBuffer>) -> (r: Result<
        LazyBuffer,
        LazyError,
    >)
        requires
            self.valid(*old(g)),
            forall|k: int| 0 <= k < srcs@.len() ==> #[trigger] srcs@[k].id < old(g).nodes_view().len(),
        ensures
            final(g).wf(),
            r == Err::<LazyBuffer, LazyError>(LazyError::UnsupportedOp) <==> extra_operands(op) != Some(
                srcs@.len(),
            ),
            r == Err::<LazyBuffer, LazyError>(LazyError::ShapeMismatch) <==> extra_operands(op) == Some(
                srcs@.len(),
            ) && exists|k: int|
                0 <= k < srcs@.len() && #[trigger] srcs@[k].node(*old(g)).shape@ != self.node(
                    *old(g),
                ).shape@,
            r is Err ==> final(g).nodes_view() == old(g).nodes_view(),
            r matches Ok(b) ==> {
                let n = b.node(*final(g));
                let s = self.node(*old(g));
                &&& appended(*old(g), *final(g), b)
                &&& n.op == op
                &&& n.srcs@ == seq![self.id] + ids(srcs@)
                &&& n.shape@ == s.shape@
                &&& (op == LazyOp::Binary(BinaryOps::CMPLT) ==> is_registered_as(n.dtype, 0))
                &&& (op == LazyOp::Ternary(TernaryOps::WHERE) ==> n.dtype == srcs@[0].node(
                    *old(g),
                ).dtype)
                &&& (op != LazyOp::Binary(BinaryOps::CMPLT) && op != LazyOp::Ternary(
                    TernaryOps::WHERE,
                ) ==> n.dtype == s.dtype)
                &&& n.device@ == s.device@
                &&& n.arg == OpArg::Nothing
                &&& !n.realized
            },
    {
        let want: usize = match op {
            LazyOp::Unary(_) => 0,
            LazyOp::Binary(_) => 1,
            LazyOp::Ternary(_) => 2,
            _ => return Err(LazyError::UnsupportedOp),
        };
        if srcs.len() != want {
            return Err(LazyError::UnsupportedOp);
        }
        assert(node_ok(g.nodes_view(), self.id as int));
        let mut ids_v: Vec<usize> = vec![self.id];
        let mut k: usize = 0;
        while k < srcs.len()
            invariant
                self.valid(*g),
                *g == *old(g),
                extra_operands(op) == Some(srcs@.len()),
                forall|j: int| 0 <= j < srcs@.len() ==> #[trigger] srcs@[j].id < g.nodes_view().len(),
                k <= srcs@.len(),
                forall|j: int|
                    0 <= j < k ==> #[trigger] srcs@[j].node(*g).shape@ == self.node(*g).shape@,
                ids_v@ == seq![self.id] + ids(srcs@.subrange(0, k as int)),
            decreases srcs.len() - k,
        {
            let b = srcs[k];
            if !same_dims(&g.nodes[b.id].shape, &g.nodes[self.id].shape) {
                proof {
                    assert(srcs@[k as int].node(*old(g)).shape@ != self.node(*old(g)).shape@);
                }
                return Err(LazyError::ShapeMismatch);
            }
            ids_v.push(b.id);
            k = k + 1;
            proof {
                assert(ids(srcs@.subrange(0, k as int)) =~= ids(srcs@.subrange(0, k - 1)).push(b.id));
                assert(ids_v@ =~= seq![self.id] + ids(srcs@.subrange(0, k as int)));
            }
        }
        proof {
            assert(srcs@.subrange(0, srcs@.len() as int) =~= srcs@);
        }
        let src = &g.nodes[self.id];
        let dtype = match op {
            LazyOp::Binary(BinaryOps::CMPLT) => boolean(),
            LazyOp::Ternary(TernaryOps::WHERE) => g.nodes[srcs[0].id].dtype,
            _ => src.dtype,
        };
        let ghost sv = ids_v@;
        let node = LazyNode {
            op,
            srcs: ids_v,
            shape: copy_dims(&src.shape),
            dtype,
            device: src.device.clone(),
            arg: OpArg::Nothing,
            realized: false,
        };
        proof {
            let p = g.nodes_view().push(node);
            assert forall|j: int| 0 <= j < node.srcs@.len() implies #[trigger] node.srcs@[j] < g.nodes_view().len() && p[node.srcs@[j] as int].shape@ == node.shape@ by {
                let p = g.nodes_view().push(node);
                if j > 0 {
                    assert(ids(srcs@)[j - 1] == srcs@[j - 1].id);
                    assert(node.srcs@[j] == srcs@[j - 1].id);
                    assert(srcs@[j - 1].node(*g).shape@ == self.node(*g).shape@);
                    assert(p[node.srcs@[j] as int] == g.nodes_view()[srcs@[j - 1].id as int]);
                } else {
                    assert(p[node.srcs@[j] as int] == g.nodes_view()[self.id as int]);
                }
            }
        }
        let r = g.add_node(node);
        proof {
            assert(g.nodes_view().drop_last() =~= old(g).nodes_view());
        }
        Ok(r)
    }

    /// Reduces the first axis to size 1. `new_shape` is the shape with that
    /// axis set to 1; MAX needs a non-empty axis.
    pub fn r(&self, g: &mut LazyGraph, op: ReduceOps, new_shape: Vec<usize>) -> (r: Result<
        LazyBuffer,
        LazyError,
    >)
        requires
            self.valid(*old(g)),
        ensures
            final(g).wf(),
            r == Err::<LazyBuffer, LazyError>(LazyError::ShapeMismatch) <==> !reduce_ok(self.node(*old(g)).shape@, new_shape@) || !fits(new_shape@),
            r == Err::<LazyBuffer, LazyError>(LazyError::UnsupportedOp) <==> reduce_ok(self.node(*old(g)).shape@, new_shape@) && fits(new_shape@)
                && op == ReduceOps::MAX && self.node(*old(g)).shape@[0] == 0,
            r is Err ==> final(g).nodes_view() == old(g).nodes_view(),
            r matches Ok(b) ==> {
                let n = b.node(*final(g));
                let s = self.node(*old(g));
                &&& appended(*old(g), *final(g), b)
                &&& n.op == LazyOp::Reduce(op)
                &&& n.srcs@ == seq![self.id]
                &&& n.shape@ == new_shape@
                &&& n.dtype == s.dtype
                &&& n.device@ == s.device@
                &&& n.arg == OpArg::Nothing
                &&& !n.realized
            },
    {
        if !check_reduce(&g.nodes[self.id].shape, &new_shape) {
            return Err(LazyError::ShapeMismatch);
        }
        if checked_numel(&new_shape).is_none() {
            return Err(LazyError::ShapeMismatch);
        }
        if op == ReduceOps::MAX && g.nodes[self.id].shape[0] == 0 {
            return Err(LazyError::UnsupportedOp);
        }
        let src = &g.nodes[self.id];
        let node = LazyNode {
            op: LazyOp::Reduce(op),
            srcs: vec![self.id],
            shape: new_shape,
            dtype: src.dtype,
            device: src.device.clone(),
            arg: OpArg::Nothing,
            realized: false,
        };
        proof {
            let p = g.nodes_view().push(node);
            assert(p[node.srcs@[0] as int] == g.nodes_view()[self.id as int]);
        }
        let r = g.add_node(node);
        proof {
            assert(g.nodes_view().drop_last() =~= old(g).nodes_view());
            assert(r.node(*g).srcs@ =~= seq![self.id]);
        }
        Ok(r)
    }

    /// The root of the movement chain ending here: the buffer that owns the
    /// storage this view reads, the buffer itself where it is not made by a
    /// movement op.
    pub fn base(&self, g: &LazyGraph) -> (r: LazyBuffer)
        requires
            self.valid(*g),
        ensures
            r.id == base_of(g.nodes_view(), self.id as int),
            r.id < g.nodes_view().len(),
    {
        let mut i: usize = self.id;
        while g.nodes[i].op.is_movement() && g.nodes[i].srcs.len() == 1 && g.nodes[i].srcs[0] < i
            invariant
                i < g.nodes_view().len(),
                base_of(g.nodes_view(), i as int) == base_of(g.nodes_view(), self.id as int),
            decreases i,
        {
            i = g.nodes[i].srcs[0];
        }
        LazyBuffer { id: i }
    }

    pub fn shape(&self, g: &LazyGraph) -> (r: Vec<usize>)
        requires
            self.valid(*g),
        ensures
            r@ == self.node(*g).shape@,
    {
        copy_dims(&g.nodes[self.id].shape)
    }

    pub fn dtype(&self, g: &LazyGraph) -> (r: DType)
        requires
            self.valid(*g),
        ensures
            r == self.node(*g).dtype,
    {
        g.nodes[self.id].dtype
    }

    /// Whether the buffer's data has been computed.
    pub fn realized(&self, g: &LazyGraph) -> (r: bool)
        requires
            self.valid(*g),
        ensures
            r == self.node(*g).realized,
    {
        g.nodes[self.id].realized
    }

    /// Whether the buffer is a not yet materialized constant: one scalar
    /// broadcast over its whole shape.
    pub fn is_unrealized_contiguous_const(&self, g: &LazyGraph) -> (r: bool)
        requires
            self.valid(*g),
        ensures
            r == (self.node(*g).op == LazyOp::Load(LoadOps::CONST) && !self.node(*g).realized),
    {
        g.nodes[self.id].op == LazyOp::Load(LoadOps::CONST) && !g.nodes[self.id].realized
    }

    /// A view of the buffer with shape `arg`, holding as many elements.
    pub fn reshape(&self, g: &mut LazyGraph, arg: Vec<usize>) -> (r: Result<LazyBuffer, LazyError>)
        requires
            self.valid(*old(g)),
        ensures
            final(g).wf(),
            r is Ok <==> reshape_ok(self.node(*old(g)).shape@, arg@),
            match r {
                Ok(b) => moved(*old(g), *final(g), *self, b, MovementOps::RESHAPE, arg@)
                    && b.node(*final(g)).arg == OpArg::Dims(arg),
                Err(e) => e == LazyError::ShapeMismatch && final(g).nodes_view() == old(g).nodes_view(),
            },
    {
        assert(node_ok(g.nodes_view(), self.id as int));
        let old_n = checked_numel(&g.nodes[self.id].shape);
        let new_n = checked_numel(&arg);
        match (old_n, new_n) {
            (Some(a), Some(b)) => {
                if a == b {
                    let shape = copy_dims(&arg);
                    Ok(self.push_movement(g, MovementOps::RESHAPE, OpArg::Dims(arg), shape))
                } else {
                    Err(LazyError::ShapeMismatch)
                }
            },
            _ => Err(LazyError::ShapeMismatch),
        }
    }

    /// A view of the buffer with size-1 axes grown to the sizes in `arg`.
    pub fn expand(&self, g: &mut LazyGraph, arg: Vec<usize>) -> (r: Result<LazyBuffer, LazyError>)
        requires
            self.valid(*old(g)),
        ensures
            final(g).wf(),
            r is Ok <==> expand_ok(self.node(*old(g)).shape@, arg@) && fits(arg@),
            match r {
                Ok(b) => moved(*old(g), *final(g), *self, b, MovementOps::EXPAND, arg@)
                    && b.node(*final(g)).arg == OpArg::Dims(arg),
                Err(e) => e == LazyError::ShapeMismatch && final(g).nodes_view() == old(g).nodes_view(),
            },
    {
        if check_expand(&g.nodes[self.id].shape, &arg) {
            match checked_numel(&arg) {
                Some(_) => {
                    let shape = copy_dims(&arg);
                    Ok(self.push_movement(g, MovementOps::EXPAND, OpArg::Dims(arg), shape))
                },
                None => Err(LazyError::ShapeMismatch),
            }
        } else {
            Err(LazyError::ShapeMismatch)
        }
    }

    /// A view of the range `[lo, hi)` of each axis.
    pub fn shrink(&self, g: &mut LazyGraph, arg: Vec<(usize, usize)>) -> (r: Result<LazyBuffer, LazyError>)
        requires
            self.valid(*old(g)),
        ensures
            final(g).wf(),
            r is Ok <==> shrink_ok(self.node(*old(g)).shape@, arg@),
            match r {
                Ok(b) => moved(*old(g), *final(g), *self, b, MovementOps::SHRINK, shrink_shape(arg@))
                    && b.node(*final(g)).arg == OpArg::Bounds(arg),
                Err(e) => e == LazyError::ShapeMismatch && final(g).nodes_view() == old(g).nodes_view(),
            },
    {
        match check_shrink(&g.nodes[self.id].shape, &arg) {
            Some(shape) => {
                proof {
                    assert(node_ok(g.nodes_view(), self.id as int));
                    crate::shape::lemma_shrink_shape_le(g.nodes_view()[self.id as int].shape@, arg@);
                }
                Ok(self.push_movement(g, MovementOps::SHRINK, OpArg::Bounds(arg), shape))
            },
            None => Err(LazyError::ShapeMismatch),
        }
    }

    /// The buffer with `before` zeros ahead of and `after` zeros behind each axis.
    pub fn pad(&self, g: &mut LazyGraph, arg: Vec<(usize, usize)>) -> (r: Result<LazyBuffer, LazyError>)
        requires
            self.valid(*old(g)),
        ensures
            final(g).wf(),
            r is Ok <==> pad_ok(self.node(*old(g)).shape@, arg@) && fits(pad_shape(self.node(*old(g)).shape@, arg@)),
            match r {
                Ok(b) => moved(*old(g), *final(g), *self, b, MovementOps::PAD, pad_shape(self.node(*old(g)).shape@, arg@))
                    && b.node(*final(g)).arg == OpArg::Bounds(arg),
                Err(e) => e == LazyError::ShapeMismatch && final(g).nodes_view() == old(g).nodes_view(),
            },
    {
        match check_pad(&g.nodes[self.id].shape, &arg) {
            Some(shape) => match checked_numel(&shape) {
                Some(_) => Ok(self.push_movement(g, MovementOps::PAD, OpArg::Bounds(arg), shape)),
                None => Err(LazyError::ShapeMismatch),
            },
            None => Err(LazyError::ShapeMismatch),
        }
    }

    /// A view whose axis `i` is axis `arg[i]` of the buffer.
    pub fn permute(&self, g: &mut LazyGraph, arg: Vec<usize>) -> (r: Result<LazyBuffer, LazyError>)
        requires
            self.valid(*old(g)),
        ensures
            final(g).wf(),
            r is Ok <==> is_permutation(arg@, self.node(*old(g)).shape@.len()),
            match r {
                Ok(b) => moved(*old(g), *final(g), *self, b, MovementOps::PERMUTE, permute_shape(self.node(*old(g)).shape@, arg@))
                    && b.node(*final(g)).arg == OpArg::Dims(arg),
                Err(e) => e == LazyError::ShapeMismatch && final(g).nodes_view() == old(g).nodes_view(),
            },
    {
        match check_permute(&g.nodes[self.id].shape, &arg) {
            Some(shape) => {
                proof {
                    assert(node_ok(g.nodes_view(), self.id as int));
                    crate::shape::lemma_numel_permute(g.nodes_view()[self.id as int].shape@, arg@);
                }
                Ok(self.push_movement(g, MovementOps::PERMUTE, OpArg::Dims(arg), shape))
            },
            None => Err(LazyError::ShapeMismatch),
        }
    }

    /// A view keeping every `arg[i]`-th element along axis `i`.
    pub fn stride(&self, g: &mut LazyGraph, arg: Vec<usize>) -> (r: Result<LazyBuffer, LazyError>)
        requires
            self.valid(*old(g)),
        ensures
            final(g).wf(),
            r is Ok <==> stride_ok(self.node(*old(g)).shape@, arg@),
            match r {
                Ok(b) => moved(*old(g), *final(g), *self, b, MovementOps::STRIDE, stride_shape(self.node(*old(g)).shape@, arg@))
                    && b.node(*final(g)).arg == OpArg::Dims(arg),
                Err(e) => e == LazyError::ShapeMismatch && final(g).nodes_view() == old(g).nodes_view(),
            },
    {
        match check_stride(&g.nodes[self.id].shape, &arg) {
            Some(shape) => {
                proof {
                    assert(node_ok(g.nodes_view(), self.id as int));
                    crate::shape::lemma_stride_shape_le(g.nodes_view()[self.id as int].shape@, arg@);
                }
                Ok(self.push_movement(g, MovementOps::STRIDE, OpArg::Dims(arg), shape))
            },
            None => Err(LazyError::ShapeMismatch),
        }
    }
}

} // verus!
