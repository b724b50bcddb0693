//! The move source's line grammar: two decimal coordinates separated by one
//! comma. Parsing is exact: the pair comes back precisely when the line fits
//! the grammar and both numbers fit the machine word.
use vstd::prelude::*;
use vstd::string::StringSliceAdditionalSpecFns;

verus! {

/// `b` is an ASCII decimal digit.
pub open spec fn is_digit(b: u8) -> bool {
    48 <= b <= 57
}

/// A non-empty run of decimal digits.
pub open spec fn all_digits(s: Seq<u8>) -> bool {
    s.len() > 0 && forall|i: int| 0 <= i < s.len() ==> is_digit(#[trigger] s[i])
}

/// The number a digit run denotes, most significant digit first.
pub open spec fn digits_value(s: Seq<u8>) -> int
    decreases s.len(),
{
    if s.len() == 0 {
        0
    } else {
        digits_value(s.drop_last()) * 10 + (s.last() - 48)
    }
}

/// Position `k` splits `s` into two digit runs around one comma.
pub open spec fn splits_at(s: Seq<u8>, k: int) -> bool {
    &&& 0 <= k < s.len()
    &&& s[k] == 44  // the comma
    &&& all_digits(s.subrange(0, k))
    &&& all_digits(s.subrange(k + 1, s.len() as int))
}

/// The line fits the grammar `digits ',' digits`. Since a comma is not a
/// digit, only one position can split such a line.
pub open spec fn valid_pair(s: Seq<u8>) -> bool {
    exists|k: int| splits_at(s, k)
}

/// The two numbers a well-formed line denotes, in written order.
pub open spec fn pair_of(s: Seq<u8>) -> (int, int) {
    let k = choose|k: int| splits_at(s, k);
    (digits_value(s.subrange(0, k)), digits_value(s.subrange(k + 1, s.len() as int)))
}

/// Only one position can split a well-formed line.
pub proof fn lemma_split_unique(s: Seq<u8>, k1: int, k2: int)
    requires
        splits_at(s, k1),
        splits_at(s, k2),
    ensures
        k1 == k2,
{
    if k1 < k2 {
        assert(s.subrange(0, k2)[k1] == s[k1]);
    } else if k2 < k1 {
        assert(s.subrange(0, k1)[k2] == s[k2]);
    }
}

/// A digit run denotes a non-negative number.
pub proof fn lemma_digits_value_nonneg(s: Seq<u8>)
    requires
        forall|i: int| 0 <= i < s.len() ==> is_digit(#[trigger] s[i]),
    ensures
        digits_value(s) >= 0,
    decreases s.len(),
{
    if s.len() > 0 {
        assert(forall|i: int| 0 <= i < s.len() - 1 ==> s.drop_last()[i] == s[i]);
        lemma_digits_value_nonneg(s.drop_last());
    }
}

/// Reading more digits never shrinks the denoted number.
pub proof fn lemma_digits_prefix_le(s: Seq<u8>, i: int)
    requires
        0 <= i <= s.len(),
        forall|j: int| 0 <= j < s.len() ==> is_digit(#[trigger] s[j]),
    ensures
        digits_value(s.subrange(0, i)) <= digits_value(s),
    decreases s.len() - i,
{
    if i == s.len() {
        assert(s.subrange(0, i) =~= s);
    } else {
        let p = s.subrange(0, i);
        let q = s.subrange(0, i + 1);
        assert(q.drop_last() =~= p);
        assert(q.last() == s[i]);
        assert(forall|j: int| 0 <= j < p.len() ==> is_digit(#[trigger] p[j]));
        lemma_digits_value_nonneg(p);
        lemma_digits_prefix_le(s, i + 1);
    }
}

/// Parse the digit run `bytes[start..end]`; `None` when the run is empty,
/// holds a non-digit, or denotes a number above `usize::MAX`.
fn parse_digits(bytes: &[u8], start: usize, end: usize) -> (r: Option<usize>)
    requires
        start <= end <= bytes@.len(),
    ensures
        ({
            let part = bytes@.subrange(start as int, end as int);
            match r {
                Some(v) => all_digits(part) && v == digits_value(part),
                None => !(all_digits(part) && digits_value(part) <= usize::MAX),
            }
        }),
{
    let ghost part = bytes@.subrange(start as int, end as int);
    if start == end {
        return None;
    }
    let mut v: usize = 0;
    let mut i: usize = start;
    while i < end
        invariant
            start <= i <= end <= bytes@.len(),
            part == bytes@.subrange(start as int, end as int),
            forall|j: int| 0 <= j < i - start ==> is_digit(#[trigger] part[j]),
            v == digits_value(part.subrange(0, i - start)),
        decreases end - i,
    {
        let b = bytes[i];
        proof {
            assert(part[i - start] == b);
        }
        if b < 48 || b > 57 {
            assert(!all_digits(part));
            return None;
        }
        let d = (b - 48) as usize;
        proof {
            assert(part.subrange(0, i - start + 1).drop_last() =~= part.subrange(0, i - start));
            assert(part.subrange(0, i - start + 1).last() == part[i - start]);
        }
        if v > (usize::MAX - d) / 10 {
            proof {
                assert(digits_value(part.subrange(0, i - start + 1)) > usize::MAX);
                if all_digits(part) {
                    lemma_digits_prefix_le(part, i - start + 1);
                }
            }
            return None;
        }
        v = v * 10 + d;
        i += 1;
    }
    proof {
        assert(part.subrange(0, end - start) =~= part);
    }
    Some(v)
}

/// Parse one move line of the form `x,y`. The numbers come back, in written
/// order, exactly when the line is two comma-separated digit runs and both
/// values fit the machine word; anything else is refused.
pub fn parse_move(input: &str) -> (r: Option<(usize, usize)>)
    ensures
        r is Some <==> valid_pair(input.spec_bytes()) && pair_of(input.spec_bytes()).0
            <= usize::MAX && pair_of(input.spec_bytes()).1 <= usize::MAX,
        r matches Some((x, y)) ==> x == pair_of(input.spec_bytes()).0 && y == pair_of(
            input.spec_bytes(),
        ).1,
{
    let ghost s = input.spec_bytes();
    let bytes = input.as_bytes();
    let n = bytes.len();
    let mut k: usize = 0;
    while k < n
        invariant
            k <= n,
            n == bytes@.len(),
            bytes@ == s,
            s == input.spec_bytes(),
            forall|j: int| 0 <= j < k ==> s[j] != 44,
        decreases n - k,
    {
        if bytes[k] == 44 {
            let left = parse_digits(bytes, 0, k);
            let right = parse_digits(bytes, k + 1, n);
            match (left, right) {
                (Some(x), Some(y)) => {
                    proof {
                        assert(splits_at(s, k as int));
                        let kk = choose|q: int| splits_at(s, q);
                        lemma_split_unique(s, k as int, kk);
                    }
                    return Some((x, y));
                },
                _ => {
                    proof {
                        if valid_pair(s) && pair_of(s).0 <= usize::MAX && pair_of(s).1
                            <= usize::MAX {
                            let kk = choose|q: int| splits_at(s, q);
                            assert(splits_at(s, kk));
                            if kk < k as int {
                                assert(s[kk] != 44);
                            } else if kk > k as int {
                                assert(s.subrange(0, kk)[k as int] == s[k as int]);
                                assert(!all_digits(s.subrange(0, kk)));
                            }
                            assert(kk == k as int);
                            assert(false);
                        }
                    }
                    return None;
                },
            }
        }
        k += 1;
    }
    proof {
        if valid_pair(s) {
            let kk = choose|q: int| splits_at(s, q);
            assert(s[kk] != 44);
        }
    }
    None
}

} // verus!
