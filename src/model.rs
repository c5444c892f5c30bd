//! The mathematical model of a decimal literal: which character sequences
//! are accepted, and what sign, scale and packed digits they denote.

use vstd::prelude::*;

verus! {

/// An ASCII decimal digit.
pub open spec fn is_digit(c: char) -> bool {
    '0' <= c && c <= '9'
}

/// A character that is dropped when the digit string is formed.
pub open spec fn is_separator(c: char) -> bool {
    c == '+' || c == '-' || c == '.'
}

/// The numeric value of a digit character.
pub open spec fn digit_value(c: char) -> int {
    c as int - '0' as int
}

pub open spec fn has_point(s: Seq<char>) -> bool {
    exists|p: int| 0 <= p < s.len() && s[p] == '.'
}

/// The grammar of an accepted literal: an optional sign or a leading
/// digit, a digit in second place, a digit at the end, and in between
/// only digits and at most one decimal point.
pub open spec fn valid_decimal(s: Seq<char>) -> bool {
    &&& s.len() > 0
    &&& (s[0] == '+' || s[0] == '-' || is_digit(s[0]))
    &&& (s.len() >= 2 ==> is_digit(s[1]))
    &&& is_digit(s[s.len() - 1])
    &&& forall|i: int| 1 <= i < s.len() ==> is_digit(#[trigger] s[i]) || s[i] == '.'
    &&& forall|i: int, j: int|
        0 <= i < j < s.len() && #[trigger] s[i] == '.' ==> #[trigger] s[j] != '.'
}

/// Number of characters after the decimal point, or 0 without one.
pub open spec fn frac_count(s: Seq<char>) -> nat {
    if has_point(s) {
        let p = choose|p: int| 0 <= p < s.len() && s[p] == '.';
        (s.len() - 1 - p) as nat
    } else {
        0
    }
}

/// The characters of `s` with every sign and point removed, in order.
pub open spec fn digit_string(s: Seq<char>) -> Seq<char>
    decreases s.len(),
{
    if s.len() == 0 {
        Seq::empty()
    } else {
        let rest = digit_string(s.drop_last());
        if is_separator(s.last()) {
            rest
        } else {
            rest.push(s.last())
        }
    }
}

/// The digit string, with a `'0'` in front when its length is odd.
pub open spec fn padded_digits(s: Seq<char>) -> Seq<char> {
    let d = digit_string(s);
    if d.len() % 2 == 1 {
        seq!['0'] + d
    } else {
        d
    }
}

/// The byte holding the digit pair at `j` and `j + 1` of `p`: the first
/// digit in the high nibble, the second in the low one.
pub open spec fn pair_byte(p: Seq<char>, j: int) -> u8 {
    (16 * digit_value(p[j]) + digit_value(p[j + 1])) as u8
}

/// The digits of `s` packed two per byte; byte `i` holds the `i`-th pair
/// counted from the least-significant end.
pub open spec fn packed(s: Seq<char>) -> Seq<u8> {
    let p = padded_digits(s);
    let n = p.len() / 2;
    Seq::new(n, |i: int| pair_byte(p, 2 * (n - i) - 2))
}

/// Every character of the literal is a digit or a separator.
pub proof fn lemma_valid_chars(s: Seq<char>)
    requires
        valid_decimal(s),
    ensures
        forall|i: int| 0 <= i < s.len() ==> is_digit(#[trigger] s[i]) || is_separator(s[i]),
{
    assert forall|i: int| 0 <= i < s.len() implies is_digit(#[trigger] s[i]) || is_separator(
        s[i],
    ) by {
        if i >= 1 {
            assert(is_digit(s[i]) || s[i] == '.');
        }
    }
}

/// An accepted literal is made of ASCII characters only.
pub proof fn lemma_valid_is_ascii(s: Seq<char>)
    requires
        valid_decimal(s),
    ensures
        vstd::utf8::is_ascii_chars(s),
{
    lemma_valid_chars(s);
}

/// The digit string of a sequence of digits and separators holds digits only.
pub proof fn lemma_digit_string_digits(s: Seq<char>)
    requires
        forall|i: int| 0 <= i < s.len() ==> is_digit(#[trigger] s[i]) || is_separator(s[i]),
    ensures
        forall|k: int| 0 <= k < digit_string(s).len() ==> is_digit(#[trigger] digit_string(s)[k]),
    decreases s.len(),
{
    if s.len() > 0 {
        let t = s.drop_last();
        assert forall|i: int| 0 <= i < t.len() implies is_digit(#[trigger] t[i]) || is_separator(
            t[i],
        ) by {
            assert(t[i] == s[i]);
        }
        lemma_digit_string_digits(t);
        assert(is_digit(s[s.len() - 1]) || is_separator(s[s.len() - 1]));
        let d = digit_string(s);
        assert forall|k: int| 0 <= k < d.len() implies is_digit(#[trigger] d[k]) by {
            if k < digit_string(t).len() {
                assert(d[k] == digit_string(t)[k]);
            }
        }
    }
}

/// The last character of a valid literal survives into its digit string,
/// which is therefore never empty.
pub proof fn lemma_digit_string_nonempty(s: Seq<char>)
    requires
        valid_decimal(s),
    ensures
        digit_string(s).len() >= 1,
{
    assert(!is_separator(s.last()));
}

} // verus!
