//! Parsing one data line: a base-10 signed integer that must fit in 16
//! bits, with an optional leading `+` or `-`, digits only, no surrounding
//! whitespace.

use vstd::prelude::*;

verus! {

/// ASCII `+`.
pub const PLUS: u8 = 43;

/// ASCII `-`.
pub const MINUS: u8 = 45;

/// ASCII `0`.
pub const ZERO: u8 = 48;

/// Whether `b` is an ASCII decimal digit.
pub open spec fn is_digit(b: u8) -> bool {
    48 <= b && b <= 57
}

/// Whether every byte of `s` is an ASCII decimal digit.
pub open spec fn all_digits(s: Seq<u8>) -> bool {
    forall|i: int| 0 <= i < s.len() ==> is_digit(#[trigger] s[i])
}

/// Value of a string of decimal digits, most significant first.
pub open spec fn digits_val(s: Seq<u8>) -> int
    decreases s.len(),
{
    if s.len() == 0 {
        0
    } else {
        digits_val(s.drop_last()) * 10 + (s.last() - 48)
    }
}

/// The unbounded integer a line denotes, if it is a well-formed signed
/// decimal literal: an optional sign, then one or more digits.
pub open spec fn literal_val(s: Seq<u8>) -> Option<int> {
    if s.len() > 0 && (s[0] == PLUS || s[0] == MINUS) {
        let body = s.subrange(1, s.len() as int);
        if body.len() > 0 && all_digits(body) {
            if s[0] == MINUS {
                Some(-digits_val(body))
            } else {
                Some(digits_val(body))
            }
        } else {
            None
        }
    } else if s.len() > 0 && all_digits(s) {
        Some(digits_val(s))
    } else {
        None
    }
}

/// The sample a line denotes: its literal value if that value fits in a
/// signed 16-bit integer, `None` otherwise.
pub open spec fn parse_i16_spec(s: Seq<u8>) -> Option<i16> {
    match literal_val(s) {
        Some(v) => if -32768 <= v && v <= 32767 {
            Some(v as i16)
        } else {
            None
        },
        None => None,
    }
}

/// A digit string has a non-negative value.
pub proof fn lemma_digits_val_nonneg(s: Seq<u8>)
    requires
        all_digits(s),
    ensures
        digits_val(s) >= 0,
    decreases s.len(),
{
    if s.len() > 0 {
        assert(all_digits(s.drop_last())) by {
            assert(forall|i: int| 0 <= i < s.len() - 1 ==> s.drop_last()[i] == #[trigger] s[i]);
        }
        lemma_digits_val_nonneg(s.drop_last());
    }
}

/// Extending a digit string never shrinks its value: the value of the
/// whole is at least the value of any prefix.
pub proof fn lemma_digits_val_prefix(s: Seq<u8>, n: int)
    requires
        all_digits(s),
        0 <= n <= s.len(),
    ensures
        digits_val(s) >= digits_val(s.subrange(0, n)),
    decreases s.len() - n,
{
    if n == s.len() {
        assert(s.subrange(0, n) =~= s);
    } else {
        let p = s.subrange(0, n);
        let q = s.subrange(0, n + 1);
        assert(q.drop_last() =~= p);
        assert(q.last() == s[n]);
        assert(all_digits(p)) by {
            assert(forall|i: int| 0 <= i < n ==> p[i] == #[trigger] s[i]);
        }
        lemma_digits_val_nonneg(p);
        assert(digits_val(q) == digits_val(p) * 10 + (s[n] - 48));
        lemma_digits_val_prefix(s, n + 1);
    }
}

/// Parses one line as a 16-bit signed decimal integer, exactly as
/// `parse_i16_spec` describes: `Some` on a well-formed in-range literal,
/// `None` on anything else.
pub fn parse_i16(s: &[u8]) -> (r: Option<i16>)
    ensures
        r == parse_i16_spec(s@),
{
    let n = s.len();
    if n == 0 {
        return None;
    }
    let first = s[0];
    let neg = first == MINUS;
    let start: usize = if first == MINUS || first == PLUS {
        1
    } else {
        0
    };
    if start == n {
        // a sign with nothing after it
        return None;
    }
    let ghost body = s@.subrange(start as int, n as int);
    let mut i: usize = start;
    let mut mag: u32 = 0;
    while i < n
        invariant
            start <= i <= n,
            n == s@.len(),
            0 < n,
            start == 0 || start == 1,
            start < n,
            start == 1 ==> (s@[0] == PLUS || s@[0] == MINUS),
            start == 0 ==> !(s@[0] == PLUS || s@[0] == MINUS),
            neg <==> s@[0] == MINUS && start == 1,
            body == s@.subrange(start as int, n as int),
            all_digits(body.subrange(0, i - start)),
            mag == digits_val(body.subrange(0, i - start)),
            mag <= 32768,
        decreases n - i,
    {
        let b = s[i];
        let ghost m = i - start;
        proof {
            assert(body[m as int] == s@[i as int]);
        }
        if b < ZERO || b > 57 {
            proof {
                assert(!is_digit(body[m as int]));
                assert(!all_digits(body));
                if start == 1 {
                    assert(literal_val(s@) is None);
                } else {
                    assert(body =~= s@);
                    assert(literal_val(s@) is None);
                }
            }
            return None;
        }
        let d = (b - ZERO) as u32;
        let new_mag = mag * 10 + d;
        proof {
            let p = body.subrange(0, m as int);
            let q = body.subrange(0, m + 1);
            assert(q.drop_last() =~= p);
            assert(q.last() == body[m as int]);
            assert(digits_val(q) == digits_val(p) * 10 + (b - 48));
            assert(all_digits(q)) by {
                assert(forall|j: int| 0 <= j < m ==> q[j] == #[trigger] p[j]);
            }
        }
        if new_mag > 32768 {
            proof {
                if all_digits(body) {
                    lemma_digits_val_prefix(body, m + 1);
                    assert(digits_val(body) > 32768);
                    if start == 1 {
                        assert(parse_i16_spec(s@) is None);
                    } else {
                        assert(body =~= s@);
                        assert(parse_i16_spec(s@) is None);
                    }
                } else {
                    if start == 0 {
                        assert(body =~= s@);
                    }
                    assert(literal_val(s@) is None);
                }
            }
            return None;
        }
        mag = new_mag;
        i = i + 1;
    }
    proof {
        assert(body.subrange(0, i - start) =~= body);
        assert(body.len() > 0);
        lemma_digits_val_nonneg(body);
        if start == 0 {
            assert(body =~= s@);
        }
    }
    if neg {
        if mag == 32768 {
            Some(-32768i16)
        } else {
            Some(-(mag as i16))
        }
    } else {
        if mag <= 32767 {
            Some(mag as i16)
        } else {
            None
        }
    }
}

} // verus!
