//! ASCII text: decimal numbers as `str::parse` reads them and `Display` writes
//! them, and conversion of ASCII bytes to `String`.
use crate::journal::lemma_encode_utf8_concat;
use crate::wire::{put_slice, utf8_string};
use vstd::prelude::*;
use vstd::utf8::*;

verus! {

/// Byte of the ASCII digit `d`.
pub open spec fn digit_byte(d: nat) -> u8 {
    (48 + d) as u8
}

/// Decimal digits of `v`, without leading zeros, as `Display` writes them.
pub open spec fn decimal(v: nat) -> Seq<u8>
    decreases v,
{
    if v < 10 {
        seq![digit_byte(v)]
    } else {
        decimal(v / 10).push(digit_byte(v % 10))
    }
}

pub open spec fn is_digit(b: u8) -> bool {
    48 <= b <= 57
}

pub open spec fn all_digits(s: Seq<u8>) -> bool {
    forall|i: int| 0 <= i < s.len() ==> is_digit(#[trigger] s[i])
}

/// Value of a string of decimal digits.
pub open spec fn digits_value(s: Seq<u8>) -> nat
    decreases s.len(),
{
    if s.len() == 0 {
        0
    } else {
        digits_value(s.drop_last()) * 10 + (s.last() - 48) as nat
    }
}

/// The digits of an unsigned number, after an optional leading `+`.
pub open spec fn unsigned_digits(s: Seq<u8>) -> Seq<u8> {
    if s.len() > 0 && s[0] == 43 {
        s.drop_first()
    } else {
        s
    }
}

/// `str::parse` of an unsigned integer type whose largest value is `max`.
pub open spec fn parse_unsigned(s: Seq<u8>, max: nat) -> Option<nat> {
    let d = unsigned_digits(s);
    if d.len() == 0 || !all_digits(d) || digits_value(d) > max {
        None
    } else {
        Some(digits_value(d))
    }
}

/// Characters of ASCII bytes.
pub open spec fn ascii_chars(b: Seq<u8>) -> Seq<char> {
    Seq::new(b.len(), |i: int| b[i] as char)
}

pub open spec fn all_ascii(b: Seq<u8>) -> bool {
    forall|i: int| 0 <= i < b.len() ==> #[trigger] b[i] < 128
}

pub proof fn lemma_decimal_digits(v: nat)
    ensures
        all_digits(decimal(v)),
        decimal(v).len() > 0,
        decimal(v)[0] != 43,
        digits_value(decimal(v)) == v,
        all_ascii(decimal(v)),
    decreases v,
{
    if v >= 10 {
        lemma_decimal_digits(v / 10);
        let d = decimal(v);
        assert(d.drop_last() =~= decimal(v / 10));
        assert(d[0] == decimal(v / 10)[0]);
        assert(d.last() == 48 + v % 10);
        assert(digits_value(d) == digits_value(d.drop_last()) * 10 + (d.last() - 48) as nat);
        assert(digits_value(d.drop_last()) == v / 10);
        assert(v == (v / 10) * 10 + v % 10);
    } else {
        assert(decimal(v).drop_last() =~= Seq::<u8>::empty());
        assert(decimal(v).last() == 48 + v);
        assert(digits_value(decimal(v).drop_last()) == 0);
        assert(digits_value(decimal(v)) == digits_value(decimal(v).drop_last()) * 10 + (decimal(v).last() - 48) as nat);
    }
}

/// Parsing the decimal form of a value gives the value back.
pub proof fn lemma_parse_decimal(v: nat, max: nat)
    requires
        v <= max,
    ensures
        parse_unsigned(decimal(v), max) == Some(v),
{
    lemma_decimal_digits(v);
    assert(unsigned_digits(decimal(v)) == decimal(v));
}

proof fn lemma_digits_value_monotone(s: Seq<u8>, j: int, k: int)
    requires
        0 <= j <= k <= s.len(),
        all_digits(s),
    ensures
        digits_value(s.take(j)) <= digits_value(s.take(k)),
    decreases k - j,
{
    if j < k {
        lemma_digits_value_monotone(s, j, k - 1);
        assert(s.take(k).drop_last() =~= s.take(k - 1));
        assert(is_digit(s[k - 1]));
    }
}

/// Appends the decimal digits of `v`.
pub fn push_decimal(buffer: &mut Vec<u8>, v: u64)
    ensures
        final(buffer)@ == old(buffer)@ + decimal(v as nat),
    decreases v,
{
    if v >= 10 {
        push_decimal(buffer, v / 10);
    }
    buffer.push((48 + v % 10) as u8);
    assert(buffer@ =~= old(buffer)@ + decimal(v as nat));
}

/// Parses an unsigned decimal number not above `max`, as `str::parse` does.
pub fn parse_decimal(s: &[u8], max: u64) -> (r: Option<u64>)
    ensures
        match parse_unsigned(s@, max as nat) {
            Some(v) => r == Some(v as u64),
            None => r is None,
        },
{
    let start: usize = if s.len() > 0 && s[0] == 43 { 1 } else { 0 };
    let ghost d = unsigned_digits(s@);
    assert(d =~= s@.skip(start as int));
    if start == s.len() {
        return None;
    }
    let mut acc: u64 = 0;
    let mut i: usize = start;
    while i < s.len()
        invariant
            start <= i <= s.len(),
            d == s@.skip(start as int),
            d == unsigned_digits(s@),
            all_digits(d.take(i - start)),
            acc == digits_value(d.take(i - start)),
            acc <= max,
        decreases s.len() - i,
    {
        let c = s[i];
        if c < 48 || c > 57 {
            assert(d[i - start] == s@[i as int]);
            assert(!is_digit(d[i - start]));
            assert(!all_digits(d));
            return None;
        }
        let digit = (c - 48) as u64;
        let ghost k = i - start;
        assert(d.take(k + 1).drop_last() =~= d.take(k));
        assert(all_digits(d.take(k + 1)));
        let overflow = if acc > max / 10 {
            true
        } else {
            let t = acc * 10;
            digit > max - t
        };
        if overflow {
            proof {
                assert(digits_value(d.take(k + 1)) == acc * 10 + digit);
                assert(acc * 10 + digit > max) by (nonlinear_arith)
                    requires
                        acc > max / 10 || (acc * 10 <= max && digit > max - acc * 10),
                ;
                assert(d.take(k + 1).last() == c);
                if all_digits(d) {
                    assert(d.take(d.len() as int) =~= d);
                    lemma_digits_value_monotone(d, k + 1, d.len() as int);
                    assert(digits_value(d) > max);
                }
                assert(d == unsigned_digits(s@));
                assert(d.len() == 0 || !all_digits(d) || digits_value(d) > max);
                assert(parse_unsigned(s@, max as nat) is None);
            }
            return None;
        }
        assert(acc * 10 <= max) by (nonlinear_arith)
            requires
                acc <= max / 10,
        ;
        acc = acc * 10 + digit;
        i += 1;
    }
    assert(d.take(d.len() as int) =~= d);
    Some(acc)
}

/// The text of ASCII bytes.
pub fn ascii_string(bytes: &[u8]) -> (s: String)
    requires
        all_ascii(bytes@),
    ensures
        s@ == ascii_chars(bytes@),
{
    proof {
        let cs = ascii_chars(bytes@);
        assert(is_ascii_chars(cs));
        is_ascii_chars_encode_utf8(cs);
        assert(encode_utf8(cs) =~= bytes@);
        encode_utf8_valid_utf8(cs);
        encode_utf8_decode_utf8(cs);
    }
    match utf8_string(bytes) {
        Some(s) => s,
        None => String::new(),
    }
}

/// The decimal text of `v`, as `Display` writes it.
pub fn decimal_text(v: u64) -> (s: String)
    ensures
        s@ == ascii_chars(decimal(v as nat)),
{
    let mut digits: Vec<u8> = Vec::new();
    push_decimal(&mut digits, v);
    proof {
        lemma_decimal_digits(v as nat);
        assert(digits@ =~= decimal(v as nat));
    }
    ascii_string(digits.as_slice())
}

/// The text `a` followed by the text `b`.
pub fn concat_text(a: &str, b: &str) -> (s: String)
    ensures
        s@ == a@ + b@,
{
    let mut bytes: Vec<u8> = Vec::new();
    put_slice(&mut bytes, a.as_bytes());
    put_slice(&mut bytes, b.as_bytes());
    proof {
        lemma_encode_utf8_concat(a@, b@);
        assert(bytes@ =~= encode_utf8(a@ + b@));
        encode_utf8_valid_utf8(a@ + b@);
        encode_utf8_decode_utf8(a@ + b@);
    }
    match utf8_string(bytes.as_slice()) {
        Some(s) => s,
        None => String::new(),
    }
}

} // verus!
