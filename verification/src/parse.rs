//! Parsing the length token of the command line: a non-negative decimal
//! number, with an optional leading plus sign, that fits in `usize`.

use vstd::prelude::*;

verus! {

/// ASCII code of the digit zero.
pub const DIGIT_ZERO: u8 = 48;

/// ASCII code of the plus sign.
pub const PLUS_SIGN: u8 = 43;

/// Whether `c` is an ASCII decimal digit.
pub open spec fn is_ascii_digit(c: u8) -> bool {
    DIGIT_ZERO <= c <= DIGIT_ZERO + 9
}

/// The numeric value of the ASCII digit `c`.
pub open spec fn digit_value(c: u8) -> int {
    c - DIGIT_ZERO
}

/// Whether every byte of `s` is an ASCII decimal digit.
pub open spec fn all_digits(s: Seq<u8>) -> bool {
    forall|i: int| 0 <= i < s.len() ==> is_ascii_digit(#[trigger] s[i])
}

/// The number a run of ASCII digits spells in base ten; zero for the
/// empty run.
pub open spec fn decimal_value(s: Seq<u8>) -> int
    decreases s.len(),
{
    if s.len() == 0 {
        0
    } else {
        decimal_value(s.drop_last()) * 10 + digit_value(s.last())
    }
}

/// The digit run of a length token: an optional leading plus sign is
/// not part of it.
pub open spec fn token_digits(s: Seq<u8>) -> Seq<u8> {
    if s.len() > 0 && s[0] == PLUS_SIGN {
        s.subrange(1, s.len() as int)
    } else {
        s
    }
}

/// A token parses as a length when its digit run is non-empty, all
/// digits, and spells a value that fits in `usize`.
pub open spec fn valid_length_token(s: Seq<u8>) -> bool {
    &&& token_digits(s).len() > 0
    &&& all_digits(token_digits(s))
    &&& decimal_value(token_digits(s)) <= usize::MAX
}

/// A run of digits spells a non-negative number.
proof fn lemma_decimal_nonneg(s: Seq<u8>)
    requires
        all_digits(s),
    ensures
        decimal_value(s) >= 0,
    decreases s.len(),
{
    if s.len() > 0 {
        assert(all_digits(s.drop_last()));
        lemma_decimal_nonneg(s.drop_last());
    }
}

/// A prefix of a run of digits spells at most what the whole run spells.
proof fn lemma_decimal_prefix_le(s: Seq<u8>, i: int)
    requires
        all_digits(s),
        0 <= i <= s.len(),
    ensures
        decimal_value(s.subrange(0, i)) <= decimal_value(s),
    decreases s.len() - i,
{
    if i < s.len() {
        lemma_decimal_prefix_le(s, i + 1);
        let pre = s.subrange(0, i);
        let ext = s.subrange(0, i + 1);
        assert(ext.drop_last() =~= pre);
        assert(all_digits(pre));
        lemma_decimal_nonneg(pre);
        assert(decimal_value(ext) == 10 * decimal_value(pre) + digit_value(s[i]));
    } else {
        assert(s.subrange(0, i) =~= s);
    }
}

/// Parses the length token: `Some` exactly when the token spells a
/// non-negative decimal number that fits in `usize`, and then the value
/// it spells; `None` on an empty digit run, a non-digit byte, or a
/// value too large.
pub fn parse_length(token: &Vec<u8>) -> (r: Option<usize>)
    ensures
        r is Some <==> valid_length_token(token@),
        r matches Some(v) ==> v == decimal_value(token_digits(token@)),
{
    let n: usize = token.len();
    let mut start: usize = 0;
    if n > 0 && token[0] == PLUS_SIGN {
        start = 1;
    }
    let ghost digits = token_digits(token@);
    proof {
        assert(digits =~= token@.subrange(start as int, n as int));
    }
    if start >= n {
        return None;
    }
    let mut value: usize = 0;
    let mut i: usize = start;
    while i < n
        invariant
            start <= i <= n,
            start < n,
            n == token@.len(),
            digits == token_digits(token@),
            digits == token@.subrange(start as int, n as int),
            all_digits(token@.subrange(start as int, i as int)),
            value == decimal_value(token@.subrange(start as int, i as int)),
        decreases n - i,
    {
        let c: u8 = token[i];
        if c < DIGIT_ZERO || c > DIGIT_ZERO + 9 {
            proof {
                assert(digits.len() == n - start);
                assert(digits[i - start] == token@[i as int]);
                assert(!is_ascii_digit(digits[i - start]));
                assert(!all_digits(digits));
            }
            return None;
        }
        let d: usize = (c - DIGIT_ZERO) as usize;
        let ghost pre = token@.subrange(start as int, i as int);
        let ghost ext = token@.subrange(start as int, i + 1);
        proof {
            assert(ext.drop_last() =~= pre);
            assert(ext.last() == c);
            assert(decimal_value(ext) == 10 * decimal_value(pre) + digit_value(c));
            assert(all_digits(ext)) by {
                assert forall|k: int| 0 <= k < ext.len() implies is_ascii_digit(
                    #[trigger] ext[k],
                ) by {
                    if k < ext.len() - 1 {
                        assert(ext[k] == pre[k]);
                    } else {
                        assert(ext[k] == c);
                    }
                }
            }
        }
        if value > (usize::MAX - d) / 10 {
            proof {
                lemma_decimal_nonneg(pre);
                assert(10 * value + d > usize::MAX);
                assert(ext =~= digits.subrange(0, i + 1 - start));
                if all_digits(digits) {
                    lemma_decimal_prefix_le(digits, i + 1 - start);
                    assert(decimal_value(digits) >= decimal_value(ext));
                    assert(decimal_value(digits) > usize::MAX);
                }
            }
            return None;
        }
        value = value * 10 + d;
        i = i + 1;
    }
    proof {
        assert(token@.subrange(start as int, i as int) =~= digits);
    }
    Some(value)
}

} // verus!
