use teenygrad::dtype::{float32, int32};
use teenygrad::lazy::{LazyBuffer, LazyError, LazyGraph, RawCPUBuffer};
use teenygrad::ops::{BinaryOps, Device, LazyOp, LoadOps, ReduceOps, TernaryOps, UnaryOps};
use teenygrad::shape::checked_numel;

fn constant(g: &mut LazyGraph, shape: Vec<usize>, value: f64) -> LazyBuffer {
    LazyBuffer::loadop(g, LoadOps::CONST, shape, float32(), "CPU", Some(value.to_bits()), None).unwrap()
}

fn outs(g: &LazyGraph, b: &LazyBuffer) -> Vec<usize> {
    b.schedule(g).iter().map(|it| it.out).collect()
}

#[test]
fn const_neg_and_reshape_round_trip() {
    let mut g = LazyGraph::new();
    let a = constant(&mut g, vec![2, 2], 3.0);
    let b = a.e(&mut g, LazyOp::Unary(UnaryOps::NEG), &vec![]).unwrap();
    assert_eq!(b.shape(&g), vec![2, 2]);
    assert_eq!(b.dtype(&g).name, "float");
    assert_eq!(outs(&g, &b), vec![a.id, b.id]);
    assert_eq!(g.node(a.id).arg_bits(), Some(3.0f64.to_bits()));
    let flat = a.reshape(&mut g, vec![4]).unwrap();
    assert_eq!(flat.shape(&g), vec![4]);
    let back = flat.reshape(&mut g, vec![2, 2]).unwrap();
    assert_eq!(back.shape(&g), a.shape(&g));
    assert_eq!(back.base(&g), a);
}

#[test]
fn shrink_then_pad_restores_shape() {
    let mut g = LazyGraph::new();
    let ones = constant(&mut g, vec![4, 4], 1.0);
    let s = ones.shrink(&mut g, vec![(0, 4), (0, 4)]).unwrap();
    let p = s.pad(&mut g, vec![(0, 0), (0, 0)]).unwrap();
    assert_eq!(p.shape(&g), vec![4, 4]);
    assert_eq!(p.base(&g), ones);
    let inner = ones.shrink(&mut g, vec![(1, 3), (1, 3)]).unwrap();
    assert_eq!(inner.shape(&g), vec![2, 2]);
    let outer = inner.pad(&mut g, vec![(1, 1), (1, 1)]).unwrap();
    assert_eq!(outer.shape(&g), vec![4, 4]);
}

#[test]
fn pad_then_shrink_restores_shape() {
    let mut g = LazyGraph::new();
    let a = constant(&mut g, vec![2, 3], 1.0);
    let p = a.pad(&mut g, vec![(1, 2), (0, 4)]).unwrap();
    assert_eq!(p.shape(&g), vec![5, 7]);
    let s = p.shrink(&mut g, vec![(1, 3), (0, 3)]).unwrap();
    assert_eq!(s.shape(&g), vec![2, 3]);
}

#[test]
fn identity_permute_keeps_shape() {
    let mut g = LazyGraph::new();
    let a = constant(&mut g, vec![2, 3, 4], 1.0);
    let p = a.permute(&mut g, vec![0, 1, 2]).unwrap();
    assert_eq!(p.shape(&g), vec![2, 3, 4]);
    let q = a.permute(&mut g, vec![2, 0, 1]).unwrap();
    assert_eq!(q.shape(&g), vec![4, 2, 3]);
}

#[test]
fn shared_node_scheduled_once() {
    let mut g = LazyGraph::new();
    let a = constant(&mut g, vec![3], 2.0);
    let b = a.e(&mut g, LazyOp::Unary(UnaryOps::NEG), &vec![]).unwrap();
    let c = a.e(&mut g, LazyOp::Unary(UnaryOps::EXP2), &vec![]).unwrap();
    let d = b.e(&mut g, LazyOp::Binary(BinaryOps::ADD), &vec![c]).unwrap();
    let plan = outs(&g, &d);
    assert_eq!(plan, vec![a.id, b.id, c.id, d.id]);
    let items = d.schedule(&g);
    assert_eq!(items[3].inputs, vec![b.id, c.id]);
    assert_eq!(items[3].op, LazyOp::Binary(BinaryOps::ADD));
}

#[test]
fn realize_is_idempotent() {
    let mut g = LazyGraph::new();
    let a = constant(&mut g, vec![2], 1.0);
    let b = a.e(&mut g, LazyOp::Unary(UnaryOps::SQRT), &vec![]).unwrap();
    assert!(!b.realized(&g));
    let first = b.realize(&mut g);
    assert_eq!(first.len(), 2);
    assert!(a.realized(&g) && b.realized(&g));
    let second = b.realize(&mut g);
    assert!(second.is_empty());
    assert!(b.schedule(&g).is_empty());
    // Work built on a realized buffer starts from it.
    let c = b.e(&mut g, LazyOp::Unary(UnaryOps::NEG), &vec![]).unwrap();
    assert_eq!(outs(&g, &c), vec![c.id]);
}

#[test]
fn from_cpu_is_realized() {
    let mut g = LazyGraph::new();
    let a = LazyBuffer::from_cpu(&mut g, vec![2, 2], float32()).unwrap();
    assert!(a.realized(&g));
    assert!(a.schedule(&g).is_empty());
    assert_eq!(g.node(a.id).device, "CPU");
}

#[test]
fn reduce_shapes() {
    let mut g = LazyGraph::new();
    let a = constant(&mut g, vec![3, 2], 1.0);
    let s = a.r(&mut g, ReduceOps::SUM, vec![1, 2]).unwrap();
    assert_eq!(s.shape(&g), vec![1, 2]);
    assert_eq!(a.r(&mut g, ReduceOps::SUM, vec![3, 1]).unwrap_err(), LazyError::ShapeMismatch);
    assert_eq!(a.r(&mut g, ReduceOps::MAX, vec![1]).unwrap_err(), LazyError::ShapeMismatch);
    let empty = constant(&mut g, vec![0, 2], 1.0);
    assert_eq!(empty.r(&mut g, ReduceOps::MAX, vec![1, 2]).unwrap_err(), LazyError::UnsupportedOp);
    assert!(empty.r(&mut g, ReduceOps::SUM, vec![1, 2]).is_ok());
}

#[test]
fn elementwise_errors_and_dtypes() {
    let mut g = LazyGraph::new();
    let a = constant(&mut g, vec![2], 1.0);
    let b = constant(&mut g, vec![3], 1.0);
    let n = g.len();
    assert_eq!(a.e(&mut g, LazyOp::Binary(BinaryOps::ADD), &vec![b]).unwrap_err(), LazyError::ShapeMismatch);
    assert_eq!(a.e(&mut g, LazyOp::Binary(BinaryOps::ADD), &vec![]).unwrap_err(), LazyError::UnsupportedOp);
    assert_eq!(a.e(&mut g, LazyOp::Reduce(ReduceOps::SUM), &vec![]).unwrap_err(), LazyError::UnsupportedOp);
    assert_eq!(g.len(), n);
    let c = constant(&mut g, vec![2], 2.0);
    let lt = a.e(&mut g, LazyOp::Binary(BinaryOps::CMPLT), &vec![c]).unwrap();
    assert_eq!(lt.dtype(&g).name, "bool");
    let i = LazyBuffer::loadop(&mut g, LoadOps::EMPTY, vec![2], int32(), "CPU", None, None).unwrap();
    let w = lt.e(&mut g, LazyOp::Ternary(TernaryOps::WHERE), &vec![i, i]).unwrap();
    assert_eq!(w.dtype(&g).name, "int");
}

#[test]
fn movement_errors() {
    let mut g = LazyGraph::new();
    let a = constant(&mut g, vec![2, 3], 1.0);
    assert_eq!(a.reshape(&mut g, vec![5]).unwrap_err(), LazyError::ShapeMismatch);
    assert_eq!(a.expand(&mut g, vec![4, 3]).unwrap_err(), LazyError::ShapeMismatch);
    assert_eq!(a.shrink(&mut g, vec![(0, 3), (0, 3)]).unwrap_err(), LazyError::ShapeMismatch);
    assert_eq!(a.shrink(&mut g, vec![(2, 1), (0, 3)]).unwrap_err(), LazyError::ShapeMismatch);
    assert_eq!(a.permute(&mut g, vec![0, 0]).unwrap_err(), LazyError::ShapeMismatch);
    assert_eq!(a.permute(&mut g, vec![0, 2]).unwrap_err(), LazyError::ShapeMismatch);
    assert_eq!(a.stride(&mut g, vec![0, 1]).unwrap_err(), LazyError::ShapeMismatch);
    assert_eq!(a.pad(&mut g, vec![(usize::MAX, 0), (0, 0)]).unwrap_err(), LazyError::ShapeMismatch);
    assert_eq!(a.pad(&mut g, vec![(1, 1)]).unwrap_err(), LazyError::ShapeMismatch);
}

#[test]
fn expand_and_stride_shapes() {
    let mut g = LazyGraph::new();
    let a = constant(&mut g, vec![1, 3], 1.0);
    let e = a.expand(&mut g, vec![4, 3]).unwrap();
    assert_eq!(e.shape(&g), vec![4, 3]);
    let b = constant(&mut g, vec![7, 6], 1.0);
    let s = b.stride(&mut g, vec![2, 3]).unwrap();
    assert_eq!(s.shape(&g), vec![4, 2]);
    assert_eq!(s.base(&g), b);
}

#[test]
fn load_errors() {
    let mut g = LazyGraph::new();
    let r = LazyBuffer::loadop(&mut g, LoadOps::CONST, vec![2], float32(), "CPU", None, None);
    assert_eq!(r.unwrap_err(), LazyError::UnsupportedOp);
    let r = LazyBuffer::loadop(&mut g, LoadOps::FROM, vec![2], float32(), "CPU", None, None);
    assert_eq!(r.unwrap_err(), LazyError::UnsupportedOp);
    let a = constant(&mut g, vec![2], 1.0);
    let r = LazyBuffer::loadop(&mut g, LoadOps::CUSTOM, vec![3], float32(), "CPU", None, Some(a));
    assert_eq!(r.unwrap_err(), LazyError::ShapeMismatch);
    let r = LazyBuffer::loadop(&mut g, LoadOps::RAND, vec![usize::MAX, 2], float32(), "CPU", None, None);
    assert_eq!(r.unwrap_err(), LazyError::ShapeMismatch);
    let ok = LazyBuffer::loadop(&mut g, LoadOps::CUSTOM, vec![2], float32(), "CPU", None, Some(a)).unwrap();
    assert_eq!(g.node(ok.id).srcs, vec![a.id]);
}

#[test]
fn device_copies() {
    let mut g = LazyGraph::new();
    let a = constant(&mut g, vec![2], 1.0);
    let n = g.len();
    let (same, work) = a.copy_to_device(&mut g, "CPU");
    assert_eq!(same, a);
    assert!(work.is_empty());
    assert_eq!(g.len(), n);
    assert!(!a.realized(&g));
    let (b, work) = a.copy_to_device(&mut g, "GPU");
    assert_ne!(b, a);
    assert_eq!(work.iter().map(|it| it.out).collect::<Vec<_>>(), vec![a.id]);
    assert!(a.realized(&g));
    assert_eq!(g.node(b.id).device, "GPU");
    assert_eq!(g.node(b.id).op, LazyOp::Load(LoadOps::FROM));
    assert_eq!(g.node(b.id).srcs, vec![a.id]);
    assert_eq!(b.shape(&g), vec![2]);
    assert_eq!(outs(&g, &b), vec![b.id]);
    assert_eq!(Device::canonicalize(None), "CPU");
    assert_eq!(Device::canonicalize(Some("GPU")), "GPU");
}

#[test]
fn constant_and_contiguous() {
    let mut g = LazyGraph::new();
    let a = LazyBuffer::loadop(&mut g, LoadOps::RAND, vec![2, 2], float32(), "CPU", None, None).unwrap();
    assert!(!a.is_unrealized_contiguous_const(&g));
    let k = a.constant(&mut g, 7.0f64.to_bits());
    assert!(k.is_unrealized_contiguous_const(&g));
    assert_eq!(k.shape(&g), vec![2, 2]);
    assert_eq!(outs(&g, &k), vec![k.id]);
    let c = a.contiguous(&mut g);
    assert_eq!(outs(&g, &c), vec![a.id, c.id]);
    k.realize(&mut g);
    assert!(!k.is_unrealized_contiguous_const(&g));
}

#[test]
fn element_counts() {
    assert_eq!(checked_numel(&vec![2, 3, 4]), Some(24));
    assert_eq!(checked_numel(&vec![]), Some(1));
    assert_eq!(checked_numel(&vec![usize::MAX, 0, 2]), Some(0));
    assert_eq!(checked_numel(&vec![usize::MAX, 2]), None);
}

#[test]
fn raw_buffer_hands_data_back() {
    let raw = RawCPUBuffer::new(vec![1u8, 2, 3]);
    assert_eq!(raw.to_cpu(), vec![1u8, 2, 3]);
}

fn all_indices(shape: &[usize]) -> Vec<Vec<usize>> {
    let mut out = vec![vec![]];
    for &d in shape {
        let mut next = Vec::new();
        for prefix in &out {
            for i in 0..d {
                let mut p = prefix.clone();
                p.push(i);
                next.push(p);
            }
        }
        out = next;
    }
    out
}

#[test]
fn reshape_round_trip_reads_same_elements() {
    let mut g = LazyGraph::new();
    let a = LazyBuffer::loadop(&mut g, LoadOps::RAND, vec![2, 3], float32(), "CPU", None, None).unwrap();
    let flat = a.reshape(&mut g, vec![6]).unwrap();
    assert_eq!(flat.source_of(&g, vec![4]), Some((a, vec![1, 1])));
    let other = flat.reshape(&mut g, vec![3, 2]).unwrap();
    assert_eq!(other.source_of(&g, vec![2, 1]), Some((a, vec![1, 2])));
    let back = other.reshape(&mut g, vec![2, 3]).unwrap();
    for idx in all_indices(&[2, 3]) {
        assert_eq!(back.source_of(&g, idx.clone()), Some((a, idx)));
    }
}

#[test]
fn const_reshape_round_trip_is_logically_equal() {
    let mut g = LazyGraph::new();
    let a = constant(&mut g, vec![2, 2], 3.0);
    let b = a.e(&mut g, LazyOp::Unary(UnaryOps::NEG), &vec![]).unwrap();
    assert_eq!(b.source_of(&g, vec![1, 0]), Some((b, vec![1, 0])));
    let r = a.reshape(&mut g, vec![4]).unwrap().reshape(&mut g, vec![2, 2]).unwrap();
    for idx in all_indices(&[2, 2]) {
        assert_eq!(r.source_of(&g, idx.clone()), Some((a, idx)));
    }
}

#[test]
fn pad_then_shrink_reads_same_elements() {
    let mut g = LazyGraph::new();
    let a = constant(&mut g, vec![2, 3], 1.0);
    let p = a.pad(&mut g, vec![(1, 2), (0, 4)]).unwrap();
    assert_eq!(p.source_of(&g, vec![0, 0]), None);
    assert_eq!(p.source_of(&g, vec![2, 2]), Some((a, vec![1, 2])));
    assert_eq!(p.source_of(&g, vec![1, 3]), None);
    let s = p.shrink(&mut g, vec![(1, 3), (0, 3)]).unwrap();
    for idx in all_indices(&[2, 3]) {
        assert_eq!(s.source_of(&g, idx.clone()), Some((a, idx)));
    }
}

#[test]
fn shrink_then_pad_of_ones() {
    let mut g = LazyGraph::new();
    let ones = constant(&mut g, vec![4, 4], 1.0);
    let s = ones.shrink(&mut g, vec![(0, 4), (0, 4)]).unwrap();
    let p = s.pad(&mut g, vec![(0, 0), (0, 0)]).unwrap();
    for idx in all_indices(&[4, 4]) {
        assert_eq!(p.source_of(&g, idx.clone()), Some((ones, idx)));
    }
    // A strict inner region padded back has zeros on its border.
    let inner = ones.shrink(&mut g, vec![(1, 3), (1, 3)]).unwrap();
    let outer = inner.pad(&mut g, vec![(1, 1), (1, 1)]).unwrap();
    assert_eq!(outer.source_of(&g, vec![0, 0]), None);
    assert_eq!(outer.source_of(&g, vec![2, 1]), Some((ones, vec![2, 1])));
}

#[test]
fn permute_reads_transposed_elements() {
    let mut g = LazyGraph::new();
    let a = constant(&mut g, vec![2, 3, 4], 1.0);
    let id = a.permute(&mut g, vec![0, 1, 2]).unwrap();
    for idx in all_indices(&[2, 3, 4]) {
        assert_eq!(id.source_of(&g, idx.clone()), Some((a, idx)));
    }
    let q = a.permute(&mut g, vec![2, 0, 1]).unwrap();
    assert_eq!(q.source_of(&g, vec![3, 1, 2]), Some((a, vec![1, 2, 3])));
}

#[test]
fn expand_and_stride_read_sources() {
    let mut g = LazyGraph::new();
    let a = constant(&mut g, vec![1, 3], 1.0);
    let e = a.expand(&mut g, vec![4, 3]).unwrap();
    assert_eq!(e.source_of(&g, vec![3, 2]), Some((a, vec![0, 2])));
    let b = constant(&mut g, vec![7, 6], 1.0);
    let s = b.stride(&mut g, vec![2, 3]).unwrap();
    assert_eq!(s.source_of(&g, vec![3, 1]), Some((b, vec![6, 3])));
}

#[test]
fn permute_then_inverse_reads_same_elements() {
    let mut g = LazyGraph::new();
    let a = constant(&mut g, vec![2, 3, 4], 1.0);
    let p = a.permute(&mut g, vec![2, 0, 1]).unwrap();
    let back = p.permute(&mut g, vec![1, 2, 0]).unwrap();
    assert_eq!(back.shape(&g), vec![2, 3, 4]);
    for idx in all_indices(&[2, 3, 4]) {
        assert_eq!(back.source_of(&g, idx.clone()), Some((a, idx)));
    }
}

#[test]
fn schedule_follows_depth_first_order() {
    let mut g = LazyGraph::new();
    let b = constant(&mut g, vec![2], 1.0);
    let a = constant(&mut g, vec![2], 2.0);
    let t = a.e(&mut g, LazyOp::Binary(BinaryOps::ADD), &vec![b]).unwrap();
    assert_eq!(outs(&g, &t), vec![a.id, b.id, t.id]);
    // A source shared further down is emitted once, where it is first reached.
    let u = t.e(&mut g, LazyOp::Binary(BinaryOps::MUL), &vec![b]).unwrap();
    assert_eq!(outs(&g, &u), vec![a.id, b.id, t.id, u.id]);
    let v = b.e(&mut g, LazyOp::Binary(BinaryOps::SUB), &vec![t]).unwrap();
    assert_eq!(outs(&g, &v), vec![b.id, a.id, t.id, v.id]);
}
