use vstd::prelude::*;

verus! {

#[derive(Clone, Copy, PartialEq, Eq, Structural, Debug)]
pub enum UnaryOps {
    NOOP,
    EXP2,
    LOG2,
    CAST,
    SIN,
    SQRT,
    RECIP,
    NEG,
}

#[derive(Clone, Copy, PartialEq, Eq, Structural, Debug)]
pub enum BinaryOps {
    ADD,
    SUB,
    MUL,
    DIV,
    MAX,
    MOD,
    CMPLT,
}

#[derive(Clone, Copy, PartialEq, Eq, Structural, Debug)]
pub enum ReduceOps {
    SUM,
    MAX,
}

#[derive(Clone, Copy, PartialEq, Eq, Structural, Debug)]
pub enum TernaryOps {
    MULACC,
    WHERE,
}

#[derive(Clone, Copy, PartialEq, Eq, Structural, Debug)]
pub enum MovementOps {
    RESHAPE,
    PERMUTE,
    EXPAND,
    PAD,
    SHRINK,
    STRIDE,
}

#[derive(Clone, Copy, PartialEq, Eq, Structural, Debug)]
pub enum LoadOps {
    EMPTY,
    RAND,
    CONST,
    FROM,
    CONTIGUOUS,
    CUSTOM,
}

/// Any operation a lazy buffer can be produced by.
#[derive(Clone, Copy, PartialEq, Eq, Structural, Debug)]
pub enum LazyOp {
    Load(LoadOps),
    Unary(UnaryOps),
    Binary(BinaryOps),
    Ternary(TernaryOps),
    Reduce(ReduceOps),
    Movement(MovementOps),
}

impl LazyOp {
    pub fn is_movement(&self) -> (r: bool)
        ensures
            r == (*self is Movement),
    {
        match self {
            LazyOp::Movement(_) => true,
            _ => false,
        }
    }
}

/// Number of operand buffers an elementwise op takes besides the buffer it is
/// applied to; `None` for ops that are not elementwise.
pub open spec fn extra_operands(op: LazyOp) -> Option<nat> {
    match op {
        LazyOp::Unary(_) => Some(0),
        LazyOp::Binary(_) => Some(1),
        LazyOp::Ternary(_) => Some(2),
        _ => None,
    }
}

/// The name of the sole supported device.
pub const DEFAULT_DEVICE: &'static str = "CPU";

pub struct Device;

impl Device {
    /// The device a tag names: the default device when none is given.
    pub fn canonicalize(device: Option<&str>) -> (r: String)
        ensures
            match device {
                Some(d) => r@ == d@,
                None => r@ == DEFAULT_DEVICE@,
            },
    {
        match device {
            Some(d) => d.to_owned(),
            None => DEFAULT_DEVICE.to_owned(),
        }
    }
}

} // verus!
