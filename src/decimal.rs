//! The decimal record and its construction from text.

use vstd::prelude::*;
use vstd::string::StringSliceAdditionalSpecFns;

use crate::model::{
    digit_string, digit_value, frac_count, has_point, is_digit, packed, padded_digits,
    lemma_digit_string_digits, lemma_valid_chars, lemma_valid_is_ascii, valid_decimal,
};

verus! {

/// The sign of a decimal number; `Zero` is its own sign.
#[derive(Debug, Clone, Copy, PartialEq, Eq, Structural)]
pub enum Signature {
    Positive,
    Negative,
    Zero,
}

/// A decimal number: its digits packed two per byte, least-significant
/// pair first, with the sign and the number of fractional digits beside.
#[derive(Debug)]
pub struct Decimal {
    pub num_of_decimals: u32,
    pub signature: Signature,
    pub digits: Vec<u8>,
}

impl View for Decimal {
    type V = (u32, Signature, Seq<u8>);

    open spec fn view(&self) -> (u32, Signature, Seq<u8>) {
        (self.num_of_decimals, self.signature, self.digits@)
    }
}

/// The sign of an accepted literal: a leading `'0'` makes it zero.
pub open spec fn signature_of(s: Seq<char>) -> Signature {
    if s[0] == '0' {
        Signature::Zero
    } else if s[0] == '-' {
        Signature::Negative
    } else {
        Signature::Positive
    }
}

/// The record that an accepted literal denotes. A literal that starts
/// with `'0'` is read as zero: no fractional digits and one zero byte.
pub open spec fn decimal_of(s: Seq<char>) -> (u32, Signature, Seq<u8>) {
    if s[0] == '0' {
        (0, Signature::Zero, seq![0u8])
    } else {
        (frac_count(s) as u32, signature_of(s), packed(s))
    }
}

/// `r` is what constructing from `s` gives: a record exactly when `s` is
/// accepted, and then the one that `s` denotes.
pub open spec fn constructed_from(s: Seq<char>, r: Option<Decimal>) -> bool {
    match r {
        Some(d) => valid_decimal(s) && d@ == decimal_of(s),
        None => !valid_decimal(s),
    }
}

fn is_ascii_digit(c: char) -> (r: bool)
    ensures
        r == is_digit(c),
{
    '0' <= c && c <= '9'
}

/// The `i`-th character of an ASCII string, read in constant time.
fn ascii_char_at(number: &str, i: usize) -> (c: char)
    requires
        number.is_ascii(),
        i < number@.len(),
    ensures
        c == number@[i as int],
{
    (number.get_ascii(i)) as char
}

/// The number of characters of an ASCII string, read in constant time.
fn ascii_len(number: &str) -> (n: usize)
    requires
        number.is_ascii(),
    ensures
        n == number@.len(),
{
    proof {
        vstd::string::is_ascii_spec_bytes(number);
        assert(number.spec_bytes().len() == number@.len());
    }
    number.as_bytes().len()
}

fn digit_of(c: char) -> (r: u8)
    requires
        is_digit(c),
    ensures
        r as int == digit_value(c),
        r <= 9,
{
    (c as u32 - '0' as u32) as u8
}

impl Decimal {
    /// Builds the decimal that `number` denotes, or `None` when `number`
    /// is not a decimal literal.
    pub fn new(number: String) -> (r: Option<Decimal>)
        ensures
            constructed_from(number@, r),
    {
        if !Self::is_valid(number.as_str()) {
            return None;
        }
        proof {
            lemma_valid_is_ascii(number@);
        }
        let first_char = ascii_char_at(number.as_str(), 0);
        if first_char == '0' {
            let mut digits: Vec<u8> = Vec::new();
            digits.push(0);
            let r = Decimal { num_of_decimals: 0, signature: Signature::Zero, digits };
            assert(r.digits@ =~= seq![0u8]);
            return Some(r);
        }
        let num_of_decimals = Self::get_num_of_decimals(number.as_str());
        let signature = if first_char == '-' {
            Signature::Negative
        } else {
            Signature::Positive
        };
        let digits = Self::get_digits(number.as_str());
        let r = Decimal { num_of_decimals, signature, digits };
        assert(r@ == decimal_of(number@));
        Some(r)
    }

    /// Checks `number` against the grammar of a decimal literal.
    pub fn is_valid(number: &str) -> (r: bool)
        ensures
            r == valid_decimal(number@),
    {
        let ghost s = number@;
        if !number.is_ascii() {
            proof {
                if valid_decimal(s) {
                    lemma_valid_is_ascii(s);
                }
            }
            return false;
        }
        let n = ascii_len(number);
        if n == 0 {
            return false;
        }
        let first = ascii_char_at(number, 0);
        if first != '+' && first != '-' && !is_ascii_digit(first) {
            return false;
        }
        if n >= 2 && !is_ascii_digit(ascii_char_at(number, 1)) {
            return false;
        }
        if !is_ascii_digit(ascii_char_at(number, n - 1)) {
            return false;
        }
        let mut seen_point = false;
        let mut i: usize = 1;
        while i < n
            invariant
                n == s.len(),
                s == number@,
                number.is_ascii(),
                1 <= i <= n,
                s[0] == '+' || s[0] == '-' || is_digit(s[0]),
                forall|k: int| 1 <= k < i ==> is_digit(#[trigger] s[k]) || s[k] == '.',
                forall|a: int, b: int| 0 <= a < b < i && #[trigger] s[a] == '.' ==> #[trigger] s[b] != '.',
                seen_point == has_point(s.take(i as int)),
            decreases n - i,
        {
            let c = ascii_char_at(number, i);
            if c != '.' && !is_ascii_digit(c) {
                assert(!(is_digit(s[i as int]) || s[i as int] == '.'));
                return false;
            }
            if c == '.' {
                if seen_point {
                    let ghost p = choose|p: int| 0 <= p < i && #[trigger] s.take(i as int)[p] == '.';
                    assert(s[p] == '.' && s[i as int] == '.');
                    return false;
                }
                assert forall|a: int, b: int| 0 <= a < b < i + 1 && #[trigger] s[a] == '.' implies #[trigger] s[b] != '.' by {
                    if b == i {
                        assert(s.take(i as int)[a] == '.');
                    }
                }
                seen_point = true;
                assert(s.take(i as int + 1)[i as int] == '.');
            } else {
                assert forall|a: int, b: int| 0 <= a < b < i + 1 && #[trigger] s[a] == '.' implies #[trigger] s[b] != '.' by {
                    if b == i {
                        assert(s.take(i as int)[a] == '.');
                    }
                }
                proof {
                    if has_point(s.take(i as int + 1)) {
                        let p = choose|p: int| 0 <= p < i + 1 && #[trigger] s.take(i as int + 1)[p] == '.';
                        assert(s.take(i as int)[p] == '.');
                    }
                }
            }
            i += 1;
        }
        true
    }

    /// Counts the characters after the decimal point of an accepted
    /// literal; 0 when it has none.
    pub fn get_num_of_decimals(number: &str) -> (r: u32)
        requires
            valid_decimal(number@),
        ensures
            r == frac_count(number@) as u32,
            frac_count(number@) <= u32::MAX ==> r == frac_count(number@),
    {
        let ghost s = number@;
        proof {
            lemma_valid_is_ascii(s);
        }
        let n = ascii_len(number);
        let mut i: usize = 0;
        while i < n
            invariant
                n == s.len(),
                s == number@,
                number.is_ascii(),
                i <= n,
                valid_decimal(s),
                forall|k: int| 0 <= k < i ==> #[trigger] s[k] != '.',
            decreases n - i,
        {
            if ascii_char_at(number, i) == '.' {
                let count: usize = n - 1 - i;
                proof {
                    // the point is unique, so it is the one that `frac_count` picks
                    assert(s[i as int] == '.');
                    assert(has_point(s));
                    let p = choose|p: int| 0 <= p < s.len() && s[p] == '.';
                    assert(s[p] == '.' && s[i as int] == '.');
                    assert(p == i);
                }
                return #[verifier::truncate] (count as u32);
            }
            i += 1;
        }
        0
    }

    /// Packs the digits of an accepted literal two per byte, the
    /// least-significant pair first; an odd count gets a leading zero digit.
    pub fn get_digits(number: &str) -> (r: Vec<u8>)
        requires
            valid_decimal(number@),
        ensures
            r@ == packed(number@),
    {
        let ghost s = number@;
        proof {
            lemma_valid_is_ascii(s);
        }
        let n = ascii_len(number);
        let mut parsed_number: Vec<char> = Vec::new();
        let mut i: usize = 0;
        while i < n
            invariant
                n == s.len(),
                s == number@,
                number.is_ascii(),
                i <= n,
                parsed_number@ == digit_string(s.take(i as int)),
            decreases n - i,
        {
            let c = ascii_char_at(number, i);
            assert(s.take(i as int + 1).drop_last() == s.take(i as int));
            if c != '+' && c != '-' && c != '.' {
                parsed_number.push(c);
            }
            i += 1;
        }
        assert(s.take(n as int) == s);
        proof {
            lemma_valid_chars(s);
            lemma_digit_string_digits(s);
        }
        let ghost d = digit_string(s);
        if parsed_number.len() % 2 != 0 {
            parsed_number.insert(0, '0');
            assert(parsed_number@ =~= seq!['0'] + d);
        }
        let ghost p = padded_digits(s);
        assert(parsed_number@ == p);
        assert forall|k: int| 0 <= k < p.len() implies is_digit(#[trigger] p[k]) by {
            if d.len() % 2 == 1 && k >= 1 {
                assert(p[k] == d[k - 1]);
            }
        }
        let padded_len: usize = parsed_number.len();
        let number_of_bytes: usize = padded_len / 2;
        let mut digits: Vec<u8> = Vec::with_capacity(number_of_bytes);
        let mut i: usize = 0;
        while i < number_of_bytes
            invariant
                parsed_number@ == p,
                p == padded_digits(s),
                forall|k: int| 0 <= k < p.len() ==> is_digit(#[trigger] p[k]),
                padded_len == p.len(),
                number_of_bytes == p.len() / 2,
                i <= number_of_bytes,
                digits@ == packed(s).take(i as int),
            decreases number_of_bytes - i,
        {
            let index: usize = 2 * (number_of_bytes - i) - 1;
            let low_nibble = digit_of(parsed_number[index]);
            let high_nibble = digit_of(parsed_number[index - 1]);
            digits.push(high_nibble * 16 + low_nibble);
            assert(digits@ =~= packed(s).take(i as int + 1));
            i += 1;
        }
        assert(digits@ =~= packed(s));
        digits
    }
}

} // verus!
