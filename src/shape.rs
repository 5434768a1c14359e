use vstd::prelude::*;

verus! {

/// Number of elements of a tensor of shape `s`.
pub open spec fn numel(s: Seq<usize>) -> nat
    decreases s.len(),
{
    if s.len() == 0 {
        1
    } else {
        numel(s.drop_last()) * (s.last() as nat)
    }
}

pub open spec fn fits(s: Seq<usize>) -> bool {
    numel(s) <= usize::MAX
}

/// Reshape keeps the element count.
pub open spec fn reshape_ok(old: Seq<usize>, new: Seq<usize>) -> bool {
    numel(new) == numel(old)
}

/// Expand grows size-1 axes only.
pub open spec fn expand_ok(old: Seq<usize>, new: Seq<usize>) -> bool {
    &&& new.len() == old.len()
    &&& forall|i: int| 0 <= i < old.len() ==> new[i] == old[i] || old[i] == 1
}

/// Shrink keeps, on each axis, the range `[lo, hi)` of the existing axis.
pub open spec fn shrink_ok(old: Seq<usize>, arg: Seq<(usize, usize)>) -> bool {
    &&& arg.len() == old.len()
    &&& forall|i: int| 0 <= i < old.len() ==> #[trigger] arg[i].0 <= arg[i].1 <= old[i]
}

pub open spec fn shrink_shape(arg: Seq<(usize, usize)>) -> Seq<usize> {
    Seq::new(arg.len(), |i: int| (arg[i].1 - arg[i].0) as usize)
}

/// Pad adds `lo` elements before and `hi` after each axis.
pub open spec fn pad_ok(old: Seq<usize>, arg: Seq<(usize, usize)>) -> bool {
    &&& arg.len() == old.len()
    &&& forall|i: int| 0 <= i < old.len() ==> old[i] + #[trigger] arg[i].0 + arg[i].1 <= usize::MAX
}

pub open spec fn pad_shape(old: Seq<usize>, arg: Seq<(usize, usize)>) -> Seq<usize> {
    Seq::new(old.len(), |i: int| (old[i] + arg[i].0 + arg[i].1) as usize)
}

/// `arg` lists every axis index of an `n`-dimensional tensor exactly once.
pub open spec fn is_permutation(arg: Seq<usize>, n: nat) -> bool {
    &&& arg.len() == n
    &&& forall|i: int| 0 <= i < n ==> arg[i] < n
    &&& forall|i: int, j: int| 0 <= i < n && 0 <= j < n && i != j ==> arg[i] != arg[j]
}

pub open spec fn permute_shape(old: Seq<usize>, arg: Seq<usize>) -> Seq<usize> {
    Seq::new(arg.len(), |i: int| old[arg[i] as int])
}

/// Stride keeps every `step`-th element of each axis, steps being positive.
pub open spec fn stride_ok(old: Seq<usize>, arg: Seq<usize>) -> bool {
    &&& arg.len() == old.len()
    &&& forall|i: int| 0 <= i < old.len() ==> arg[i] >= 1
}

pub open spec fn ceil_div(a: nat, b: nat) -> nat {
    if b == 0 {
        0
    } else {
        a / b + if a % b == 0 {
            0nat
        } else {
            1nat
        }
    }
}

pub open spec fn stride_shape(old: Seq<usize>, arg: Seq<usize>) -> Seq<usize> {
    Seq::new(old.len(), |i: int| ceil_div(old[i] as nat, arg[i] as nat) as usize)
}

/// A reduction collapses the first axis to 1 and keeps the others.
pub open spec fn reduce_ok(old: Seq<usize>, new: Seq<usize>) -> bool {
    &&& old.len() >= 1
    &&& new.len() == old.len()
    &&& new[0] == 1
    &&& forall|i: int| 1 <= i < old.len() ==> new[i] == old[i]
}

/// The element count of `s`, where it fits in a `usize`.
pub fn checked_numel(s: &Vec<usize>) -> (r: Option<usize>)
    ensures
        match r {
            Some(n) => n as nat == numel(s@),
            None => numel(s@) > usize::MAX,
        },
{
    let mut j: usize = 0;
    while j < s.len()
        invariant
            j <= s@.len(),
            forall|k: int| 0 <= k < j ==> s@[k] != 0,
        decreases s.len() - j,
    {
        if s[j] == 0 {
            proof {
                lemma_numel_zero(s@, j as int);
            }
            return Some(0);
        }
        j = j + 1;
    }
    let mut acc: usize = 1;
    let mut i: usize = 0;
    while i < s.len()
        invariant
            i <= s@.len(),
            acc as nat == numel(s@.subrange(0, i as int)),
            forall|k: int| 0 <= k < s@.len() ==> s@[k] != 0,
        decreases s.len() - i,
    {
        proof {
            assert(s@.subrange(0, i + 1).drop_last() =~= s@.subrange(0, i as int));
        }
        match acc.checked_mul(s[i]) {
            Some(v) => {
                acc = v;
            },
            None => {
                proof {
                    lemma_numel_prefix_grows(s@, i as int + 1);
                }
                return None;
            },
        }
        i = i + 1;
    }
    proof {
        assert(s@.subrange(0, s@.len() as int) =~= s@);
    }
    Some(acc)
}

/// A shape with a zero axis holds no element.
pub proof fn lemma_numel_zero(s: Seq<usize>, j: int)
    requires
        0 <= j < s.len(),
        s[j] == 0,
    ensures
        numel(s) == 0,
    decreases s.len(),
{
    if j < s.len() - 1 {
        lemma_numel_zero(s.drop_last(), j);
        assert(numel(s) == numel(s.drop_last()) * (s.last() as nat));
    } else {
        assert(s.last() == 0);
        assert(numel(s) == numel(s.drop_last()) * 0);
    }
}

/// With no zero axis, the element count of a prefix bounds that of the whole.
pub proof fn lemma_numel_prefix_grows(s: Seq<usize>, k: int)
    requires
        0 <= k <= s.len(),
        forall|i: int| 0 <= i < s.len() ==> s[i] != 0,
    ensures
        numel(s.subrange(0, k)) <= numel(s),
    decreases s.len() - k,
{
    if k < s.len() {
        lemma_numel_prefix_grows(s, k + 1);
        assert(s.subrange(0, k + 1).drop_last() =~= s.subrange(0, k));
        let a = numel(s.subrange(0, k));
        let b = s[k] as nat;
        assert(a * b >= a) by (nonlinear_arith)
            requires
                b >= 1,
        ;
    } else {
        assert(s.subrange(0, k) =~= s);
    }
}

/// A shape no larger on any axis holds no more elements.
pub proof fn lemma_numel_le(a: Seq<usize>, b: Seq<usize>)
    requires
        a.len() == b.len(),
        forall|i: int| 0 <= i < a.len() ==> #[trigger] a[i] <= b[i],
    ensures
        numel(a) <= numel(b),
    decreases a.len(),
{
    if a.len() > 0 {
        let (a0, b0) = (a.drop_last(), b.drop_last());
        assert forall|i: int| 0 <= i < a0.len() implies #[trigger] a0[i] <= b0[i] by {
            assert(a0[i] == a[i] && b0[i] == b[i]);
        }
        lemma_numel_le(a0, b0);
        let (x, y, p, q) = (numel(a0) as int, a.last() as int, numel(b0) as int, b.last() as int);
        assert(a.last() <= b.last()) by {
            assert(a[a.len() - 1] <= b[b.len() - 1]);
        }
        assert(x * y <= p * q) by (nonlinear_arith)
            requires
                0 <= x <= p,
                0 <= y <= q,
        ;
    }
}

/// The element count is the count without axis `j` times the size of axis `j`.
pub proof fn lemma_numel_remove(s: Seq<usize>, j: int)
    requires
        0 <= j < s.len(),
    ensures
        numel(s) == numel(s.remove(j)) * s[j],
    decreases s.len(),
{
    if j == s.len() - 1 {
        assert(s.remove(j) =~= s.drop_last());
    } else {
        lemma_numel_remove(s.drop_last(), j);
        let r = s.remove(j);
        assert(r.drop_last() =~= s.drop_last().remove(j));
        assert(r.last() == s.last());
        let (x, y, z) = (numel(s.drop_last().remove(j)) as int, s[j] as int, s.last() as int);
        assert(x * y * z == x * z * y) by (nonlinear_arith);
    }
}

/// Permuting the axes keeps the element count.
pub proof fn lemma_numel_permute(old: Seq<usize>, a: Seq<usize>)
    requires
        is_permutation(a, old.len()),
    ensures
        numel(permute_shape(old, a)) == numel(old),
    decreases a.len(),
{
    let n = a.len() as int;
    let new = permute_shape(old, a);
    if n > 0 {
        let j = a[n - 1] as int;
        let a2 = Seq::new((n - 1) as nat, |i: int| if a[i] > j { (a[i] - 1) as usize } else { a[i] });
        let old2 = old.remove(j);
        assert(is_permutation(a2, old2.len())) by {
            assert forall|i: int, k: int| 0 <= i < n - 1 && 0 <= k < n - 1 && i != k implies a2[i] != a2[k] by {
                assert(a[i] != a[k]);
                assert(a[i] != a[n - 1] && a[k] != a[n - 1]);
            }
            assert forall|i: int| 0 <= i < n - 1 implies a2[i] < n - 1 by {
                assert(a[i] != a[n - 1]);
            }
        }
        lemma_numel_permute(old2, a2);
        assert(new.drop_last() =~= permute_shape(old2, a2)) by {
            assert forall|i: int| 0 <= i < n - 1 implies new.drop_last()[i] == permute_shape(old2, a2)[i] by {
                assert(a[i] != a[n - 1]);
            }
        }
        lemma_numel_remove(old, j);
        assert(new.last() == old[j]);
    } else {
        assert(new =~= old);
    }
}

/// Stepping through an axis never makes it longer.
pub proof fn lemma_stride_shape_le(old: Seq<usize>, arg: Seq<usize>)
    requires
        stride_ok(old, arg),
    ensures
        numel(stride_shape(old, arg)) <= numel(old),
{
    let new = stride_shape(old, arg);
    assert forall|i: int| 0 <= i < new.len() implies #[trigger] new[i] <= old[i] by {
        let d = old[i] as int;
        let st = arg[i] as int;
        assert(st >= 1);
        assert(d / st + (if d % st == 0 { 0int } else { 1int }) <= d) by (nonlinear_arith)
            requires
                st >= 1,
                d >= 0,
        ;
    }
    lemma_numel_le(new, old);
}

/// Keeping a sub-range of each axis never adds elements.
pub proof fn lemma_shrink_shape_le(old: Seq<usize>, arg: Seq<(usize, usize)>)
    requires
        shrink_ok(old, arg),
    ensures
        numel(shrink_shape(arg)) <= numel(old),
{
    let new = shrink_shape(arg);
    assert forall|i: int| 0 <= i < new.len() implies #[trigger] new[i] <= old[i] by {
        assert(arg[i].0 <= arg[i].1 <= old[i]);
    }
    lemma_numel_le(new, old);
}

} // verus!
