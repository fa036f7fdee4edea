//! Deriving the output file name: the input file name's stem with the
//! fixed binary-format extension appended.

use vstd::prelude::*;

verus! {

/// ASCII `.`.
pub const DOT: u8 = 46;

/// Index of the last `.` in `s`, or `-1` if there is none.
pub open spec fn last_dot(s: Seq<u8>) -> int
    decreases s.len(),
{
    if s.len() == 0 {
        -1
    } else if s.last() == DOT {
        s.len() - 1
    } else {
        last_dot(s.drop_last())
    }
}

/// The stem of a file name: everything before the last `.`, except that a
/// name without a `.`, or whose only `.` leads it (a hidden file), is its
/// own stem.
pub open spec fn stem_of(s: Seq<u8>) -> Seq<u8> {
    if last_dot(s) <= 0 {
        s
    } else {
        s.subrange(0, last_dot(s))
    }
}

/// The derived output name: the stem followed by `.bsdf`.
pub open spec fn output_name_spec(s: Seq<u8>) -> Seq<u8> {
    stem_of(s) + seq![DOT, 98u8, 115u8, 100u8, 102u8]
}

/// `last_dot` points at a `.`, and nothing after it is a `.`.
proof fn lemma_last_dot(s: Seq<u8>)
    ensures
        -1 <= last_dot(s) < s.len(),
        last_dot(s) >= 0 ==> s[last_dot(s)] == DOT,
        forall|i: int| last_dot(s) < i < s.len() ==> s[i] != DOT,
    decreases s.len(),
{
    if s.len() > 0 && s.last() != DOT {
        lemma_last_dot(s.drop_last());
        assert forall|i: int| last_dot(s) < i < s.len() implies s[i] != DOT by {
            if i < s.len() - 1 {
                assert(s[i] == s.drop_last()[i]);
            } else {
                assert(s[i] == s.last());
            }
        }
    }
}

/// Derives the output file name for an input whose file-name component is
/// `name`: the stem with `.bsdf` appended, or `None` for an empty name,
/// which has no usable stem.
pub fn output_file_name(name: &[u8]) -> (r: Option<Vec<u8>>)
    ensures
        match r {
            Some(v) => name@.len() > 0 && v@ == output_name_spec(name@),
            None => name@.len() == 0,
        },
{
    let n = name.len();
    if n == 0 {
        return None;
    }
    // scan from the end for the last `.`; `dot` is one past it, 0 when none
    let mut dot: usize = 0;
    let mut i: usize = n;
    while i > 0 && dot == 0
        invariant
            0 <= i <= n,
            n == name@.len(),
            dot <= n,
            dot == 0 ==> forall|j: int| i <= j < n ==> name@[j] != DOT,
            dot > 0 ==> name@[dot - 1] == DOT && (forall|j: int| dot <= j < n ==> name@[j] != DOT),
        decreases i + (if dot == 0 { 1int } else { 0int }),
    {
        if name[i - 1] == DOT {
            dot = i;
        } else {
            i = i - 1;
        }
    }
    proof {
        if dot == 0 {
            assert(i == 0);
        }
    }
    proof {
        lemma_last_dot(name@);
        if dot == 0 {
            assert(last_dot(name@) == -1) by {
                if last_dot(name@) >= 0 {
                    assert(name@[last_dot(name@)] == DOT);
                }
            }
        } else {
            assert(last_dot(name@) == dot - 1) by {
                assert(name@[dot - 1] == DOT);
                if last_dot(name@) > dot - 1 {
                    assert(name@[last_dot(name@)] == DOT);
                }
                if last_dot(name@) < dot - 1 {
                    assert(name@[dot - 1] != DOT);
                }
            }
        }
    }
    let stem_len: usize = if dot <= 1 {
        n
    } else {
        dot - 1
    };
    proof {
        assert(stem_of(name@) == (if last_dot(name@) <= 0 {
            name@
        } else {
            name@.subrange(0, last_dot(name@))
        }));
        assert(stem_len as int == if last_dot(name@) <= 0 {
            name@.len() as int
        } else {
            last_dot(name@)
        });
    }
    let mut out: Vec<u8> = Vec::new();
    let mut k: usize = 0;
    while k < stem_len
        invariant
            0 <= k <= stem_len,
            stem_len <= n,
            n == name@.len(),
            out@.len() == k,
            forall|j: int| 0 <= j < k ==> out@[j] == name@[j],
        decreases stem_len - k,
    {
        out.push(name[k]);
        k = k + 1;
    }
    out.push(DOT);
    out.push(98);
    out.push(115);
    out.push(100);
    out.push(102);
    proof {
        assert(out@.subrange(0, stem_len as int) =~= stem_of(name@));
        assert(out@ =~= output_name_spec(name@));
    }
    Some(out)
}

} // verus!
