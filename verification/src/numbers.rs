//! Parsing of decimal integers from character sequences, with the grammar
//! `str::parse` accepts for the unsigned and signed integer types: an
//! optional sign, then one or more decimal digits, rejected when the value
//! does not fit the target type.

use vstd::prelude::*;

verus! {

pub open spec fn is_digit(c: char) -> bool {
    '0' <= c && c <= '9'
}

pub open spec fn digit_val(c: char) -> nat {
    if is_digit(c) {
        (c as nat - '0' as nat) as nat
    } else {
        0
    }
}

pub open spec fn all_digits(s: Seq<char>) -> bool {
    forall|i: int| 0 <= i < s.len() ==> is_digit(#[trigger] s[i])
}

/// The number denoted by a sequence of decimal digits, most significant
/// first.
pub open spec fn digits_val(s: Seq<char>) -> nat
    decreases s.len(),
{
    if s.len() == 0 {
        0
    } else {
        digits_val(s.drop_last()) * 10 + digit_val(s.last())
    }
}

/// A digit appended on the right can only grow the value.
pub proof fn lemma_digits_val_extend(s: Seq<char>, i: int)
    requires
        0 <= i < s.len(),
    ensures
        digits_val(s.take(i)) <= digits_val(s.take(i + 1)),
        digits_val(s.take(i + 1)) == digits_val(s.take(i)) * 10 + digit_val(s[i]),
{
    assert(s.take(i + 1).drop_last() =~= s.take(i));
    assert(s.take(i + 1).last() == s[i]);
}

/// The value of a prefix never exceeds the value of the whole digit string.
pub proof fn lemma_digits_val_prefix(s: Seq<char>, i: int)
    requires
        0 <= i <= s.len(),
    ensures
        digits_val(s.take(i)) <= digits_val(s),
    decreases s.len() - i,
{
    if i == s.len() {
        assert(s.take(i) =~= s);
    } else {
        lemma_digits_val_extend(s, i);
        lemma_digits_val_prefix(s, i + 1);
    }
}

/// The digits of `s` from position `from` on, read as a `u64`: `Some` when
/// they are one or more digits denoting a value that fits, `None` otherwise.
pub fn parse_digits_u64(s: &str, from: usize) -> (r: Option<u64>)
    requires
        from as int <= s@.len(),
    ensures
        match r {
            Some(v) => {
                let t = s@.skip(from as int);
                t.len() > 0 && all_digits(t) && digits_val(t) == v
            },
            None => {
                let t = s@.skip(from as int);
                !(t.len() > 0 && all_digits(t) && digits_val(t) <= u64::MAX)
            },
        },
{
    let ghost t = s@.skip(from as int);
    let n = s.unicode_len();
    if from == n {
        return None;
    }
    let mut acc: u64 = 0;
    let mut i: usize = from;
    while i < n
        invariant
            from <= i <= n,
            n == s@.len(),
            from < n,
            t == s@.skip(from as int),
            all_digits(t.take(i - from)),
            acc == digits_val(t.take(i - from)),
        decreases n - i,
    {
        let c = s.get_char(i);
        proof {
            assert(t[i - from] == s@[i as int]);
        }
        if c < '0' || c > '9' {
            proof {
                assert(!is_digit(t[i - from]));
                assert(!all_digits(t));
            }
            return None;
        }
        let d: u64 = (c as u32 - '0' as u32) as u64;
        proof {
            assert(d == digit_val(t[i - from]));
            lemma_digits_val_extend(t, i - from);
        }
        if acc > (u64::MAX - d) / 10 {
            proof {
                assert(digits_val(t.take(i - from + 1)) == acc * 10 + d);
                assert(acc * 10 + d > u64::MAX) by (nonlinear_arith)
                    requires
                        acc > (u64::MAX - d) / 10,
                        d <= 9,
                ;
                lemma_digits_val_prefix(t, i - from + 1);
            }
            return None;
        }
        proof {
            assert(acc * 10 + d <= u64::MAX) by (nonlinear_arith)
                requires
                    acc <= (u64::MAX - d) / 10,
                    d <= 9,
            ;
        }
        acc = acc * 10 + d;
        i += 1;
    }
    proof {
        assert(t.take(n - from) =~= t);
    }
    Some(acc)
}

/// The result of `str::parse::<u64>` on `s`: an optional leading `+`, then
/// one or more digits whose value fits in a `u64`.
pub open spec fn spec_parse_u64(s: Seq<char>) -> Option<u64> {
    let t = if s.len() > 0 && s[0] == '+' {
        s.skip(1)
    } else {
        s
    };
    if t.len() > 0 && all_digits(t) && digits_val(t) <= u64::MAX {
        Some(digits_val(t) as u64)
    } else {
        None
    }
}

pub fn parse_u64(s: &str) -> (r: Option<u64>)
    ensures
        r == spec_parse_u64(s@),
{
    proof {
        assert(s@.skip(0) =~= s@);
    }
    if s.unicode_len() > 0 && s.get_char(0) == '+' {
        parse_digits_u64(s, 1)
    } else {
        parse_digits_u64(s, 0)
    }
}

/// The result of `str::parse::<u16>` on `s`.
pub open spec fn spec_parse_u16(s: Seq<char>) -> Option<u16> {
    let t = if s.len() > 0 && s[0] == '+' {
        s.skip(1)
    } else {
        s
    };
    if t.len() > 0 && all_digits(t) && digits_val(t) <= u16::MAX {
        Some(digits_val(t) as u16)
    } else {
        None
    }
}

pub fn parse_u16(s: &str) -> (r: Option<u16>)
    ensures
        r == spec_parse_u16(s@),
{
    match parse_u64(s) {
        Some(v) => if v <= u16::MAX as u64 {
            Some(v as u16)
        } else {
            None
        },
        None => None,
    }
}

/// The result of `str::parse::<i32>` on `s`: an optional `+` or `-` sign,
/// then one or more digits whose signed value fits in an `i32`.
pub open spec fn spec_parse_i32(s: Seq<char>) -> Option<i32> {
    if s.len() > 0 && s[0] == '-' {
        let t = s.skip(1);
        if t.len() > 0 && all_digits(t) && digits_val(t) <= 0x8000_0000 {
            Some((-(digits_val(t) as int)) as i32)
        } else {
            None
        }
    } else {
        let t = if s.len() > 0 && s[0] == '+' {
            s.skip(1)
        } else {
            s
        };
        if t.len() > 0 && all_digits(t) && digits_val(t) <= i32::MAX {
            Some(digits_val(t) as i32)
        } else {
            None
        }
    }
}

pub fn parse_i32(s: &str) -> (r: Option<i32>)
    ensures
        r == spec_parse_i32(s@),
{
    proof {
        assert(s@.skip(0) =~= s@);
    }
    if s.unicode_len() > 0 && s.get_char(0) == '-' {
        match parse_digits_u64(s, 1) {
            Some(v) => if v <= 0x8000_0000 {
                Some((-(v as i64)) as i32)
            } else {
                None
            },
            None => None,
        }
    } else if s.unicode_len() > 0 && s.get_char(0) == '+' {
        match parse_digits_u64(s, 1) {
            Some(v) => if v <= i32::MAX as u64 {
                Some(v as i32)
            } else {
                None
            },
            None => None,
        }
    } else {
        match parse_digits_u64(s, 0) {
            Some(v) => if v <= i32::MAX as u64 {
                Some(v as i32)
            } else {
                None
            },
            None => None,
        }
    }
}

} // verus!
