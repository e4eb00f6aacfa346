//! Parsing the numeric id out of a segment file name.

use vstd::prelude::*;

use vstd::string::StringSliceAdditionalSpecFns;

verus! {

/// Position of the first `.` byte at or after `i`, or the length when
/// none occurs.
pub open spec fn dot_pos(s: Seq<u8>, i: int) -> int
    decreases s.len() - i,
{
    if i < 0 || i >= s.len() {
        s.len() as int
    } else if s[i] == 46 {
        i
    } else {
        dot_pos(s, i + 1)
    }
}

/// The file name's bytes up to the first `.`.
pub open spec fn spec_stem(s: Seq<u8>) -> Seq<u8> {
    s.subrange(0, dot_pos(s, 0))
}

/// All bytes are ASCII decimal digits.
pub open spec fn all_digits(s: Seq<u8>) -> bool {
    forall|i: int| 0 <= i < s.len() ==> 48 <= #[trigger] s[i] <= 57
}

/// The number a string of decimal digits denotes.
pub open spec fn digits_val(s: Seq<u8>) -> int
    decreases s.len(),
{
    if s.len() == 0 {
        0
    } else {
        digits_val(s.drop_last()) * 10 + (s.last() - 48)
    }
}

/// A digit string denotes a non-negative number.
pub proof fn lemma_digits_val_nonneg(s: Seq<u8>)
    requires
        all_digits(s),
    ensures
        digits_val(s) >= 0,
    decreases s.len(),
{
    if s.len() > 0 {
        assert(all_digits(s.drop_last())) by {
            assert forall|i: int| 0 <= i < s.drop_last().len() implies 48 <= #[trigger] s.drop_last()[
                i
            ] <= 57 by {
                assert(s.drop_last()[i] == s[i]);
            }
        }
        lemma_digits_val_nonneg(s.drop_last());
    }
}

/// A prefix of a digit string denotes at most what the string denotes.
pub proof fn lemma_digits_val_prefix(s: Seq<u8>, j: int, k: int)
    requires
        0 <= j <= k <= s.len(),
        all_digits(s),
    ensures
        digits_val(s.subrange(0, j)) <= digits_val(s.subrange(0, k)),
    decreases k - j,
{
    if j < k {
        let t = s.subrange(0, k);
        assert(t.drop_last() =~= s.subrange(0, k - 1));
        assert(all_digits(s.subrange(0, k - 1)));
        lemma_digits_val_nonneg(s.subrange(0, k - 1));
        assert(48 <= t.last() <= 57);
        lemma_digits_val_prefix(s, j, k - 1);
    }
}

/// Parses the numeric id at the front of a segment file name: the
/// decimal digits up to the first `.`. Yields `None` when that prefix
/// is empty, holds a non-digit, or does not fit in a `u64`.
pub fn parse_file_id(name: &str) -> (r: Option<u64>)
    ensures
        ({
            let stem = spec_stem(name.spec_bytes());
            &&& (r is Some <==> stem.len() >= 1 && all_digits(stem) && digits_val(stem)
                <= u64::MAX)
            &&& (r matches Some(v) ==> v == digits_val(stem))
        }),
{
    let bytes = name.as_bytes();
    let ghost s = name.spec_bytes();
    let n = bytes.len();
    let mut end: usize = 0;
    while end < n && bytes[end] != 46
        invariant
            s == name.spec_bytes(),
            n == s.len(),
            bytes@ == s,
            end <= n,
            dot_pos(s, 0) == dot_pos(s, end as int),
        decreases n - end,
    {
        end = end + 1;
    }
    proof {
        assert(dot_pos(s, 0) == end);
        assert(spec_stem(s) =~= s.subrange(0, end as int));
    }
    let ghost stem = spec_stem(s);
    if end == 0 {
        return None;
    }
    let mut v: u64 = 0;
    let mut i: usize = 0;
    while i < end
        invariant
            s == name.spec_bytes(),
            n == s.len(),
            bytes@ == s,
            0 < end <= n,
            stem == s.subrange(0, end as int),
            stem == spec_stem(s),
            i <= end,
            all_digits(s.subrange(0, i as int)),
            v == digits_val(s.subrange(0, i as int)),
        decreases end - i,
    {
        let c = bytes[i];
        if c < 48 || c > 57 {
            proof {
                assert(stem[i as int] == s[i as int]);
                assert(!all_digits(stem));
            }
            return None;
        }
        let d = (c - 48) as u64;
        if v > (u64::MAX - d) / 10 {
            proof {
                assert(v * 10 + d > u64::MAX) by (nonlinear_arith)
                    requires
                        v > (u64::MAX - d) / 10,
                        d <= 9,
                ;
                assert(s.subrange(0, i + 1).drop_last() =~= s.subrange(0, i as int));
                assert(s.subrange(0, i + 1).last() == s[i as int]);
                assert(digits_val(s.subrange(0, i + 1)) == v * 10 + d);
                assert(all_digits(s.subrange(0, i + 1)));
                if all_digits(stem) {
                    lemma_digits_val_prefix(stem, i + 1, end as int);
                    assert(stem.subrange(0, i + 1) =~= s.subrange(0, i + 1));
                    assert(stem.subrange(0, end as int) =~= stem);
                    assert(digits_val(stem) > u64::MAX);
                }
            }
            return None;
        }
        proof {
            assert(v * 10 + d <= u64::MAX) by (nonlinear_arith)
                requires
                    v <= (u64::MAX - d) / 10,
                    d <= 9,
            ;
            assert(s.subrange(0, i + 1).drop_last() =~= s.subrange(0, i as int));
            assert(s.subrange(0, i + 1).last() == s[i as int]);
        }
        v = v * 10 + d;
        i = i + 1;
    }
    proof {
        assert(s.subrange(0, end as int) =~= stem);
    }
    Some(v)
}

} // verus!
