//! Facts that hold of every construction.

use vstd::prelude::*;

use crate::decimal::{constructed_from, decimal_of, Decimal, Signature};
use crate::model::{
    digit_string, digit_value, is_digit, lemma_digit_string_digits, lemma_digit_string_nonempty,
    lemma_valid_chars, packed, padded_digits, valid_decimal,
};

verus! {

/// A literal that starts with `'0'` is read as zero: sign `Zero`, no
/// fractional digits, and the single byte `0x00`, whatever follows.
pub proof fn lemma_zero_leading(s: Seq<char>)
    requires
        valid_decimal(s),
        s[0] == '0',
    ensures
        decimal_of(s) == (0u32, Signature::Zero, seq![0u8]),
{
}

/// Constructing twice from the same text gives equal records, or no
/// record both times.
pub proof fn lemma_construct_twice(s: Seq<char>, r1: Option<Decimal>, r2: Option<Decimal>)
    requires
        constructed_from(s, r1),
        constructed_from(s, r2),
    ensures
        r1 is Some <==> r2 is Some,
        r1 is Some ==> r1->0@ == r2->0@,
{
}

/// For an accepted literal that does not start with `'0'`, with `k` digit
/// characters besides its sign and point, the packed digits take
/// `ceil(k / 2)` bytes.
pub proof fn lemma_packed_len(s: Seq<char>)
    requires
        valid_decimal(s),
        s[0] != '0',
    ensures
        decimal_of(s).2.len() == (digit_string(s).len() + 1) / 2,
{
}

/// Every byte of the record of an accepted literal holds two decimal
/// digits, one per nibble, and there is at least one byte.
pub proof fn lemma_nibbles_are_digits(s: Seq<char>)
    requires
        valid_decimal(s),
    ensures
        decimal_of(s).2.len() >= 1,
        forall|i: int|
            0 <= i < decimal_of(s).2.len() ==> #[trigger] decimal_of(s).2[i] / 16 <= 9
                && decimal_of(s).2[i] % 16 <= 9,
{
    if s[0] != '0' {
        lemma_valid_chars(s);
        lemma_digit_string_digits(s);
        lemma_digit_string_nonempty(s);
        let d = digit_string(s);
        let p = padded_digits(s);
        let n = p.len() / 2;
        assert forall|k: int| 0 <= k < p.len() implies is_digit(#[trigger] p[k]) by {
            if d.len() % 2 == 1 && k >= 1 {
                assert(p[k] == d[k - 1]);
            }
        }
        assert forall|i: int| 0 <= i < n implies #[trigger] packed(s)[i] / 16 <= 9 && packed(s)[i]
            % 16 <= 9 by {
            let j = 2 * (n - i) - 2;
            let hi = digit_value(p[j]);
            let lo = digit_value(p[j + 1]);
            assert(0 <= hi <= 9 && 0 <= lo <= 9);
            let b = 16 * hi + lo;
            assert(packed(s)[i] as int == b);
            assert(b / 16 == hi && b % 16 == lo) by (nonlinear_arith)
                requires
                    b == 16 * hi + lo,
                    0 <= hi <= 9,
                    0 <= lo <= 9,
            ;
        }
    }
}

} // verus!
