use vstd::prelude::*;
use vstd::string::StringSliceAdditionalSpecFns;

verus! {

/// The class of values a data type holds.
#[derive(Clone, Copy, PartialEq, Eq, Structural, Debug)]
pub enum DTypeKind {
    Bool,
    Int,
    Float,
}

/// Descriptor of an element type: promotion priority, byte width, canonical
/// name, the numeric code of its array-engine counterpart (if any), element
/// count multiplier, and its classification.
#[derive(Clone, Copy, Debug)]
pub struct DType {
    pub priority: i32,
    pub itemsize: i32,
    pub name: &'static str,
    pub np: Option<i32>,
    pub sz: i32,
    pub kind: DTypeKind,
    pub unsigned: bool,
}

/// Errors of the registry.
#[derive(Clone, Copy, PartialEq, Eq, Structural, Debug)]
pub enum DTypeError {
    UnknownDType,
}

/// The highest code held by the registry.
pub const MAX_CODE: i32 = 12;

impl DType {
    pub fn new(
        priority: i32,
        itemsize: i32,
        name: &'static str,
        np: Option<i32>,
        sz: i32,
        kind: DTypeKind,
        unsigned: bool,
    ) -> (r: DType)
        ensures
            r.priority == priority,
            r.itemsize == itemsize,
            r.name == name,
            r.np == np,
            r.sz == sz,
            r.kind == kind,
            r.unsigned == unsigned,
    {
        DType { priority, itemsize, name, np, sz, kind, unsigned }
    }
}

pub open spec fn spec_is_int(d: DType) -> bool {
    d.kind == DTypeKind::Int
}

pub open spec fn spec_is_float(d: DType) -> bool {
    d.kind == DTypeKind::Float
}

pub open spec fn spec_is_unsigned(d: DType) -> bool {
    d.kind == DTypeKind::Int && d.unsigned
}

/// The descriptor that the registry holds under `code`, without its name.
pub open spec fn registry_fields(code: int) -> Option<(i32, i32, Option<i32>, DTypeKind, bool)> {
    if code == 0 {
        Some((0, 1, Some(0), DTypeKind::Bool, false))
    } else if code == 1 {
        Some((9, 2, Some(1), DTypeKind::Float, false))
    } else if code == 2 {
        Some((10, 4, Some(2), DTypeKind::Float, false))
    } else if code == 3 {
        Some((11, 8, Some(3), DTypeKind::Float, false))
    } else if code == 4 {
        Some((1, 1, Some(4), DTypeKind::Int, false))
    } else if code == 5 {
        Some((3, 2, Some(5), DTypeKind::Int, false))
    } else if code == 6 {
        Some((5, 4, Some(6), DTypeKind::Int, false))
    } else if code == 7 {
        Some((7, 8, Some(7), DTypeKind::Int, false))
    } else if code == 8 {
        Some((2, 1, Some(8), DTypeKind::Int, true))
    } else if code == 9 {
        Some((4, 2, Some(9), DTypeKind::Int, true))
    } else if code == 10 {
        Some((6, 4, Some(10), DTypeKind::Int, true))
    } else if code == 11 {
        Some((8, 8, Some(11), DTypeKind::Int, true))
    } else if code == 12 {
        Some((9, 2, None, DTypeKind::Float, false))
    } else {
        None
    }
}

/// The canonical name of the data type the registry holds under `code`.
pub open spec fn registry_name(code: int) -> &'static str {
    if code == 0 {
        "bool"
    } else if code == 1 {
        "half"
    } else if code == 2 {
        "float"
    } else if code == 3 {
        "double"
    } else if code == 4 {
        "char"
    } else if code == 5 {
        "short"
    } else if code == 6 {
        "int"
    } else if code == 7 {
        "long"
    } else if code == 8 {
        "unsigned char"
    } else if code == 9 {
        "unsigned short"
    } else if code == 10 {
        "unsigned int"
    } else if code == 11 {
        "unsigned long"
    } else {
        "__bf16"
    }
}

/// Whether `d` is the descriptor the registry holds under `code`.
pub open spec fn is_registered_as(d: DType, code: int) -> bool {
    match registry_fields(code) {
        Some(f) => d.priority == f.0 && d.itemsize == f.1 && d.np == f.2 && d.sz == 1 && d.kind
            == f.3 && d.unsigned == f.4 && d.name == registry_name(code),
        None => false,
    }
}

pub fn boolean() -> (r: DType)
    ensures
        is_registered_as(r, 0),
{
    DType::new(0, 1, "bool", Some(0), 1, DTypeKind::Bool, false)
}

pub fn float16() -> (r: DType)
    ensures
        is_registered_as(r, 1),
{
    DType::new(9, 2, "half", Some(1), 1, DTypeKind::Float, false)
}

pub fn float32() -> (r: DType)
    ensures
        is_registered_as(r, 2),
{
    DType::new(10, 4, "float", Some(2), 1, DTypeKind::Float, false)
}

pub fn float64() -> (r: DType)
    ensures
        is_registered_as(r, 3),
{
    DType::new(11, 8, "double", Some(3), 1, DTypeKind::Float, false)
}

pub fn int8() -> (r: DType)
    ensures
        is_registered_as(r, 4),
{
    DType::new(1, 1, "char", Some(4), 1, DTypeKind::Int, false)
}

pub fn int16() -> (r: DType)
    ensures
        is_registered_as(r, 5),
{
    DType::new(3, 2, "short", Some(5), 1, DTypeKind::Int, false)
}

pub fn int32() -> (r: DType)
    ensures
        is_registered_as(r, 6),
{
    DType::new(5, 4, "int", Some(6), 1, DTypeKind::Int, false)
}

pub fn int64() -> (r: DType)
    ensures
        is_registered_as(r, 7),
{
    DType::new(7, 8, "long", Some(7), 1, DTypeKind::Int, false)
}

pub fn uint8() -> (r: DType)
    ensures
        is_registered_as(r, 8),
{
    DType::new(2, 1, "unsigned char", Some(8), 1, DTypeKind::Int, true)
}

pub fn uint16() -> (r: DType)
    ensures
        is_registered_as(r, 9),
{
    DType::new(4, 2, "unsigned short", Some(9), 1, DTypeKind::Int, true)
}

pub fn uint32() -> (r: DType)
    ensures
        is_registered_as(r, 10),
{
    DType::new(6, 4, "unsigned int", Some(10), 1, DTypeKind::Int, true)
}

pub fn uint64() -> (r: DType)
    ensures
        is_registered_as(r, 11),
{
    DType::new(8, 8, "unsigned long", Some(11), 1, DTypeKind::Int, true)
}

pub fn bfloat16() -> (r: DType)
    ensures
        is_registered_as(r, 12),
{
    DType::new(9, 2, "__bf16", None, 1, DTypeKind::Float, false)
}

/// Looks a numeric code up in the registry.
pub fn from_code(code: i32) -> (r: Result<DType, DTypeError>)
    ensures
        match r {
            Ok(d) => is_registered_as(d, code as int),
            Err(e) => e == DTypeError::UnknownDType && registry_fields(code as int) is None,
        },
        r is Ok <==> 0 <= code <= MAX_CODE,
{
    match code {
        0 => Ok(boolean()),
        1 => Ok(float16()),
        2 => Ok(float32()),
        3 => Ok(float64()),
        4 => Ok(int8()),
        5 => Ok(int16()),
        6 => Ok(int32()),
        7 => Ok(int64()),
        8 => Ok(uint8()),
        9 => Ok(uint16()),
        10 => Ok(uint32()),
        11 => Ok(uint64()),
        12 => Ok(bfloat16()),
        _ => Err(DTypeError::UnknownDType),
    }
}

pub fn is_int(x: &DType) -> (r: bool)
    ensures
        r == spec_is_int(*x),
{
    x.kind == DTypeKind::Int
}

pub fn is_float(x: &DType) -> (r: bool)
    ensures
        r == spec_is_float(*x),
{
    x.kind == DTypeKind::Float
}

pub fn is_unsigned(x: &DType) -> (r: bool)
    ensures
        r == spec_is_unsigned(*x),
{
    x.kind == DTypeKind::Int && x.unsigned
}

/// Every code the registry holds leads to a descriptor, the registry is a
/// function of the code, and a descriptor that has an engine counterpart
/// carries back the very code it was looked up under.
pub proof fn lemma_registry_round_trip(code: int, d1: DType, d2: DType)
    requires
        is_registered_as(d1, code),
        is_registered_as(d2, code),
    ensures
        0 <= code <= MAX_CODE,
        d1 == d2,
        d1.np is Some ==> d1.np == Some(code as i32),
        d1.np is None <==> code == 12,
{
}

/// The classifications agree: no data type is both integer and float, and
/// every unsigned type is an integer type.
pub proof fn lemma_classes_consistent(d: DType)
    ensures
        !(spec_is_int(d) && spec_is_float(d)),
        spec_is_unsigned(d) ==> spec_is_int(d),
{
}

/// Lexicographic order on byte strings.
pub open spec fn bytes_lt(a: Seq<u8>, b: Seq<u8>) -> bool
    decreases a.len(),
{
    if a.len() == 0 {
        b.len() > 0
    } else if b.len() == 0 {
        false
    } else if a[0] != b[0] {
        a[0] < b[0]
    } else {
        bytes_lt(a.drop_first(), b.drop_first())
    }
}

/// Promotion order: by priority, then byte width, then name.
pub open spec fn dtype_lt(a: DType, b: DType) -> bool {
    if a.priority != b.priority {
        a.priority < b.priority
    } else if a.itemsize != b.itemsize {
        a.itemsize < b.itemsize
    } else {
        bytes_lt(a.name.spec_bytes(), b.name.spec_bytes())
    }
}

fn bytes_less(a: &[u8], b: &[u8]) -> (r: bool)
    ensures
        r == bytes_lt(a@, b@),
{
    let mut i: usize = 0;
    proof {
        assert(a@.subrange(0, a@.len() as int) =~= a@);
        assert(b@.subrange(0, b@.len() as int) =~= b@);
    }
    while i < a.len() && i < b.len() && a[i] == b[i]
        invariant
            i <= a@.len(),
            i <= b@.len(),
            a@.subrange(0, i as int) == b@.subrange(0, i as int),
            bytes_lt(a@, b@) == bytes_lt(a@.subrange(i as int, a@.len() as int), b@.subrange(i as int, b@.len() as int)),
        decreases a.len() - i,
    {
        proof {
            let sa = a@.subrange(i as int, a@.len() as int);
            let sb = b@.subrange(i as int, b@.len() as int);
            assert(sa.drop_first() =~= a@.subrange(i + 1, a@.len() as int));
            assert(sb.drop_first() =~= b@.subrange(i + 1, b@.len() as int));
            assert(a@.subrange(0, i + 1) =~= a@.subrange(0, i as int).push(a@[i as int]));
            assert(b@.subrange(0, i + 1) =~= b@.subrange(0, i as int).push(b@[i as int]));
        }
        i = i + 1;
    }
    proof {
        let sa = a@.subrange(i as int, a@.len() as int);
        let sb = b@.subrange(i as int, b@.len() as int);
        if i < a.len() && i < b.len() {
            assert(sa[0] == a@[i as int]);
            assert(sb[0] == b@[i as int]);
        }
    }
    if i < a.len() && i < b.len() {
        a[i] < b[i]
    } else {
        i >= a.len() && i < b.len()
    }
}

proof fn lemma_bytes_order(a: Seq<u8>, b: Seq<u8>, c: Seq<u8>)
    ensures
        !bytes_lt(a, a),
        bytes_lt(a, b) && bytes_lt(b, c) ==> bytes_lt(a, c),
        a != b ==> bytes_lt(a, b) || bytes_lt(b, a),
    decreases a.len(),
{
    if a.len() > 0 {
        lemma_bytes_order(a.drop_first(), b.drop_first(), c.drop_first());
        if b.len() > 0 && a[0] == b[0] && a != b {
            assert(a.drop_first() != b.drop_first()) by {
                if a.drop_first() == b.drop_first() {
                    assert(a =~= seq![a[0]] + a.drop_first());
                    assert(b =~= seq![b[0]] + b.drop_first());
                }
            }
        }
    } else if b.len() == 0 {
        assert(a =~= b);
    }
}

/// The promotion order is a strict total order: no data type comes before
/// itself, the order is transitive, and of two data types that differ in
/// priority, width or name one comes first.
pub proof fn lemma_promotion_order(a: DType, b: DType, c: DType)
    ensures
        !dtype_lt(a, a),
        dtype_lt(a, b) && dtype_lt(b, c) ==> dtype_lt(a, c),
        (a.priority != b.priority || a.itemsize != b.itemsize || a.name.spec_bytes()
            != b.name.spec_bytes()) ==> dtype_lt(a, b) || dtype_lt(b, a),
{
    lemma_bytes_order(a.name.spec_bytes(), b.name.spec_bytes(), c.name.spec_bytes());
}

/// Whether `a` comes strictly before `b` in the promotion order.
pub fn dtype_less(a: &DType, b: &DType) -> (r: bool)
    ensures
        r == dtype_lt(*a, *b),
{
    if a.priority != b.priority {
        a.priority < b.priority
    } else if a.itemsize != b.itemsize {
        a.itemsize < b.itemsize
    } else {
        bytes_less(a.name.as_bytes(), b.name.as_bytes())
    }
}

/// The wider of two data types: the one later in the promotion order.
pub fn promote(a: &DType, b: &DType) -> (r: DType)
    ensures
        r == if dtype_lt(*a, *b) { *b } else { *a },
{
    if dtype_less(a, b) {
        *b
    } else {
        *a
    }
}

} // verus!
