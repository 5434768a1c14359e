use vstd::prelude::*;
use vstd::string::StringSliceAdditionalSpecFns;

verus! {

/// Settings read once at start-up and passed to the parts that need them.
pub struct Config {
    pub debug: i32,
    pub ci: bool,
    pub device: String,
}

pub open spec fn is_digit(b: u8) -> bool {
    48 <= b <= 57
}

/// Value of a string of decimal digits.
pub open spec fn digits_value(s: Seq<u8>) -> int
    decreases s.len(),
{
    if s.len() == 0 {
        0
    } else {
        digits_value(s.drop_last()) * 10 + (s.last() - 48)
    }
}

pub open spec fn all_digits(s: Seq<u8>) -> bool {
    forall|i: int| 0 <= i < s.len() ==> is_digit(#[trigger] s[i])
}

/// The text after its sign, if it has one.
pub open spec fn unsigned_part(s: Seq<u8>) -> Seq<u8> {
    if s.len() > 0 && (s[0] == 45 || s[0] == 43) {
        s.drop_first()
    } else {
        s
    }
}

/// The `i32` that a decimal text spells: an optional sign, then one or more
/// digits, with a value in range.
pub open spec fn parse_i32(s: Seq<u8>) -> Option<i32> {
    let neg = s.len() > 0 && s[0] == 45;
    let body = unsigned_part(s);
    let v = if neg {
        -digits_value(body)
    } else {
        digits_value(body)
    };
    if body.len() > 0 && all_digits(body) && i32::MIN <= v <= i32::MAX {
        Some(v as i32)
    } else {
        None
    }
}

/// A run of digits has a non-negative value.
proof fn lemma_digits_nonneg(s: Seq<u8>)
    requires
        forall|i: int| 0 <= i < s.len() ==> is_digit(#[trigger] s[i]),
    ensures
        digits_value(s) >= 0,
    decreases s.len(),
{
    if s.len() > 0 {
        let t = s.drop_last();
        assert forall|i: int| 0 <= i < t.len() implies is_digit(#[trigger] t[i]) by {
            assert(t[i] == s[i]);
        }
        lemma_digits_nonneg(t);
        assert(is_digit(s.last()));
    }
}

/// A longer run of digits is worth at least as much as its prefix.
proof fn lemma_digits_prefix(s: Seq<u8>, k: int)
    requires
        0 <= k <= s.len(),
        forall|i: int| 0 <= i < s.len() ==> is_digit(#[trigger] s[i]),
    ensures
        digits_value(s.subrange(0, k)) <= digits_value(s),
    decreases s.len() - k,
{
    if k < s.len() {
        lemma_digits_prefix(s, k + 1);
        let p = s.subrange(0, k + 1);
        let q = s.subrange(0, k);
        assert(p.drop_last() =~= q);
        assert forall|i: int| 0 <= i < q.len() implies is_digit(#[trigger] q[i]) by {
            assert(q[i] == s[i]);
        }
        lemma_digits_nonneg(q);
        assert(is_digit(s[k]));
        assert(p.last() == s[k]);
    } else {
        assert(s.subrange(0, k) =~= s);
    }
}

/// The number `val` spells, or `default` where there is none or it is not a
/// number.
pub fn int_setting(val: Option<&str>, default: i32) -> (r: i32)
    ensures
        r == match val {
            Some(v) => match parse_i32(v.spec_bytes()) {
                Some(n) => n,
                None => default,
            },
            None => default,
        },
{
    let v = match val {
        Some(v) => v,
        None => return default,
    };
    let s = v.as_bytes();
    let ghost sb = s@;
    let n = s.len();
    let neg = n > 0 && s[0] == 45;
    let start: usize = if n > 0 && (s[0] == 45 || s[0] == 43) {
        1
    } else {
        0
    };
    let ghost body = unsigned_part(sb);
    proof {
        assert(body =~= sb.subrange(start as int, n as int));
    }
    if start >= n {
        return default;
    }
    let mut acc: i64 = 0;
    let mut i: usize = start;
    while i < n
        invariant
            n == sb.len(),
            s@ == sb,
            start <= i <= n,
            start < n,
            body == sb.subrange(start as int, n as int),
            sb == v.spec_bytes(),
            val == Some(v),
            body == unsigned_part(sb),
            neg == (sb.len() > 0 && sb[0] == 45),
            forall|k: int| start <= k < i ==> is_digit(#[trigger] sb[k]),
            acc as int == digits_value(sb.subrange(start as int, i as int)),
            0 <= acc <= 2147483648,
        decreases n - i,
    {
        let c = s[i];
        if c < 48 || c > 57 {
            proof {
                assert(body[i - start] == c);
                assert(!is_digit(body[i - start]));
                assert(0 <= i - start < body.len());
                assert(!all_digits(body));
            }
            return default;
        }
        let next = acc * 10 + (c - 48) as i64;
        proof {
            assert(sb.subrange(start as int, i + 1).drop_last() =~= sb.subrange(start as int, i as int));
        }
        if next > 2147483648 {
            proof {
                if all_digits(body) {
                    assert(sb.subrange(start as int, i + 1) =~= body.subrange(0, i + 1 - start));
                    lemma_digits_prefix(body, i + 1 - start);
                }
            }
            return default;
        }
        acc = next;
        i = i + 1;
    }
    proof {
        assert(sb.subrange(start as int, n as int) =~= body);
        assert forall|k: int| 0 <= k < body.len() implies is_digit(#[trigger] body[k]) by {
            assert(body[k] == sb[k + start]);
        }
        assert(all_digits(body));
    }
    if neg {
        (-acc) as i32
    } else if acc > 2147483647 {
        default
    } else {
        acc as i32
    }
}

impl Config {
    /// The settings that the given values of the DEBUG and CI variables
    /// give: DEBUG's number (0 by default), whether CI is set to a non-empty
    /// value, and the default device.
    pub fn from_values(debug: Option<&str>, ci: Option<&str>) -> (r: Config)
        ensures
            r.debug == match debug {
                Some(v) => match parse_i32(v.spec_bytes()) {
                    Some(n) => n,
                    None => 0,
                },
                None => 0,
            },
            r.ci == match ci {
                Some(v) => v.spec_bytes().len() > 0,
                None => false,
            },
            r.device@ == crate::ops::DEFAULT_DEVICE@,
    {
        let ci_set = match ci {
            Some(v) => v.as_bytes().len() > 0,
            None => false,
        };
        Config {
            debug: int_setting(debug, 0),
            ci: ci_set,
            device: crate::ops::DEFAULT_DEVICE.to_owned(),
        }
    }
}

} // verus!
