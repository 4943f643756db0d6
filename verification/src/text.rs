//! Decimal numbers as text, read and written the way the journal, the file
//! names and the row values have them.

use vstd::prelude::*;
use vstd::string::{StringExecFns, StringSliceAdditionalSpecFns};

verus! {

/// Whether `b` is one of the ten digits.
pub open spec fn is_digit(b: u8) -> bool {
    48 <= b <= 57
}

/// Whether `s` holds digits only.
pub open spec fn all_digits(s: Seq<u8>) -> bool {
    forall|i: int| 0 <= i < s.len() ==> is_digit(#[trigger] s[i])
}

/// The number that the digits of `s` spell.
pub open spec fn digits_value(s: Seq<u8>) -> nat
    decreases s.len(),
{
    if s.len() == 0 {
        0
    } else {
        digits_value(s.drop_last()) * 10 + (s.last() - 48) as nat
    }
}

/// The digits of `n`, without leading zeros.
pub open spec fn decimal(n: nat) -> Seq<u8>
    decreases n,
{
    if n < 10 {
        seq![(48 + n) as u8]
    } else {
        decimal(n / 10).push((48 + n % 10) as u8)
    }
}

/// The text of a whole number with its sign.
pub open spec fn signed_decimal(v: int) -> Seq<u8> {
    if v < 0 {
        seq![45u8] + decimal((-v) as nat)
    } else {
        decimal(v as nat)
    }
}

/// What is left of `s` after one leading plus sign.
pub open spec fn unsigned_body(s: Seq<u8>) -> Seq<u8> {
    if s.len() > 0 && s[0] == 43 {
        s.subrange(1, s.len() as int)
    } else {
        s
    }
}

/// The unsigned number that `s` spells: an optional plus sign, then one digit
/// or more, leading zeros allowed, the value within 64 bits.
pub open spec fn parse_decimal(s: Seq<u8>) -> Option<u64> {
    let body = unsigned_body(s);
    if body.len() > 0 && all_digits(body) && digits_value(body) <= u64::MAX {
        Some(digits_value(body) as u64)
    } else {
        None
    }
}

/// The signed number that `s` spells: an optional sign, then one digit or
/// more, the value within 64 bits.
pub open spec fn parse_signed(s: Seq<u8>) -> Option<i64> {
    if s.len() > 0 && s[0] == 45 {
        let body = s.subrange(1, s.len() as int);
        if body.len() > 0 && all_digits(body) && digits_value(body) <= 0x8000_0000_0000_0000 {
            Some((-(digits_value(body) as int)) as i64)
        } else {
            None
        }
    } else {
        let body = unsigned_body(s);
        if body.len() > 0 && all_digits(body) && digits_value(body) <= i64::MAX {
            Some(digits_value(body) as i64)
        } else {
            None
        }
    }
}

/// A number is at least what any prefix of its digits spells.
pub proof fn lemma_value_prefix(s: Seq<u8>, k: int)
    requires
        0 <= k <= s.len(),
    ensures
        digits_value(s.subrange(0, k)) <= digits_value(s),
    decreases s.len(),
{
    if k == s.len() {
        assert(s.subrange(0, k) =~= s);
    } else {
        lemma_value_prefix(s.drop_last(), k);
        assert(s.drop_last().subrange(0, k) =~= s.subrange(0, k));
    }
}

/// The digits of a number are digits, at least one, and spell the number.
pub proof fn lemma_decimal(n: nat)
    ensures
        decimal(n).len() > 0,
        all_digits(decimal(n)),
        digits_value(decimal(n)) == n,
        n > 0 ==> decimal(n)[0] != 48,
    decreases n,
{
    if n < 10 {
        let s = decimal(n);
        assert(s.drop_last() =~= Seq::<u8>::empty());
        assert(digits_value(s.drop_last()) == 0);
    } else {
        lemma_decimal(n / 10);
        let s = decimal(n);
        assert(s.drop_last() =~= decimal(n / 10));
        assert(s[0] == decimal(n / 10)[0]);
    }
}

/// Reading what was written gives the number back.
pub proof fn lemma_parse_decimal(n: u64)
    ensures
        parse_decimal(decimal(n as nat)) == Some(n),
{
    lemma_decimal(n as nat);
}

/// Reading what was written gives the signed number back.
pub proof fn lemma_parse_signed(v: i64)
    ensures
        parse_signed(signed_decimal(v as int)) == Some(v),
{
    if v < 0 {
        let d = decimal((-v) as nat);
        lemma_decimal((-v) as nat);
        let s = signed_decimal(v as int);
        assert(s.subrange(1, s.len() as int) =~= d);
    } else {
        lemma_decimal(v as nat);
    }
}

/// Different numbers are written differently.
pub proof fn lemma_decimal_injective(a: nat, b: nat)
    requires
        decimal(a) == decimal(b),
    ensures
        a == b,
{
    lemma_decimal(a);
    lemma_decimal(b);
}

/// Appends the digits of `n`.
pub fn push_decimal(out: &mut Vec<u8>, n: u64)
    ensures
        final(out)@ == old(out)@ + decimal(n as nat),
    decreases n,
{
    if n >= 10 {
        push_decimal(out, n / 10);
    }
    let digit: u8 = (n % 10) as u8;
    out.push(48 + digit);
    proof {
        if n >= 10 {
            assert(out@ =~= old(out)@ + decimal(n as nat));
        } else {
            assert(out@ =~= old(out)@ + decimal(n as nat));
        }
    }
}

/// The value of the digits of `s` from `start` on, unless a byte is no digit,
/// there is none, or the value is above `max`.
fn read_digits(s: &[u8], start: usize, max: u64) -> (r: Option<u64>)
    requires
        start <= s@.len(),
        max >= 9,
    ensures
        r == ({
            let body = s@.subrange(start as int, s@.len() as int);
            if body.len() > 0 && all_digits(body) && digits_value(body) <= max {
                Some(digits_value(body) as u64)
            } else {
                None
            }
        }),
{
    let ghost body = s@.subrange(start as int, s@.len() as int);
    if start == s.len() {
        return None;
    }
    let mut value: u64 = 0;
    let mut i: usize = start;
    proof {
        assert(body.subrange(0, 0) =~= Seq::<u8>::empty());
    }
    while i < s.len()
        invariant
            start <= i <= s@.len(),
            body == s@.subrange(start as int, s@.len() as int),
            all_digits(body.subrange(0, i - start)),
            value == digits_value(body.subrange(0, i - start)),
            value <= max,
            max >= 9,
        decreases s@.len() - i,
    {
        let b = s[i];
        proof {
            assert(body[i - start] == b);
            assert(body.subrange(0, i - start + 1).drop_last() =~= body.subrange(0, i - start));
            assert(body.subrange(0, i - start + 1).last() == b);
        }
        if b < 48 || b > 57 {
            return None;
        }
        let digit: u64 = (b - 48) as u64;
        proof {
            lemma_value_prefix(body, i - start + 1);
            assert forall|k: int| 0 <= k < i - start + 1 implies is_digit(
                #[trigger] body.subrange(0, i - start + 1)[k],
            ) by {
                if k < i - start {
                    assert(body.subrange(0, i - start)[k] == body[k]);
                }
            }
        }
        if value > (max - digit) / 10 {
            proof {
                assert(value * 10 + digit > max) by (nonlinear_arith)
                    requires
                        value > (max - digit) / 10,
                        digit <= max,
                        digit <= 9,
                { }
            }
            return None;
        }
        assert(value * 10 + digit <= max) by (nonlinear_arith)
            requires
                value <= (max - digit) / 10,
                digit <= max,
        { }
        value = value * 10 + digit;
        i += 1;
    }
    proof {
        assert(body.subrange(0, i - start) =~= body);
    }
    Some(value)
}

/// Reads an unsigned decimal number.
pub fn parse_u64(s: &[u8]) -> (r: Option<u64>)
    ensures
        r == parse_decimal(s@),
{
    if s.len() > 0 && s[0] == 43 {
        read_digits(s, 1, u64::MAX)
    } else {
        proof {
            assert(s@.subrange(0, s@.len() as int) =~= s@);
        }
        read_digits(s, 0, u64::MAX)
    }
}

/// Reads a signed decimal number.
pub fn parse_i64(s: &[u8]) -> (r: Option<i64>)
    ensures
        r == parse_signed(s@),
{
    if s.len() > 0 && s[0] == 45 {
        match read_digits(s, 1, 0x8000_0000_0000_0000) {
            Some(v) => {
                if v == 0x8000_0000_0000_0000 {
                    Some(i64::MIN)
                } else {
                    Some(-(v as i64))
                }
            },
            None => None,
        }
    } else if s.len() > 0 && s[0] == 43 {
        match read_digits(s, 1, 0x7fff_ffff_ffff_ffff) {
            Some(v) => Some(v as i64),
            None => None,
        }
    } else {
        proof {
            assert(s@.subrange(0, s@.len() as int) =~= s@);
        }
        match read_digits(s, 0, 0x7fff_ffff_ffff_ffff) {
            Some(v) => Some(v as i64),
            None => None,
        }
    }
}

/// The character of the digit `d`.
pub open spec fn digit_char(d: nat) -> char {
    if d == 0 {
        '0'
    } else if d == 1 {
        '1'
    } else if d == 2 {
        '2'
    } else if d == 3 {
        '3'
    } else if d == 4 {
        '4'
    } else if d == 5 {
        '5'
    } else if d == 6 {
        '6'
    } else if d == 7 {
        '7'
    } else if d == 8 {
        '8'
    } else {
        '9'
    }
}

/// The digits of `n` as characters, without leading zeros.
pub open spec fn decimal_chars(n: nat) -> Seq<char>
    decreases n,
{
    if n < 10 {
        seq![digit_char(n)]
    } else {
        decimal_chars(n / 10).push(digit_char(n % 10))
    }
}

/// The text of a whole number with its sign, as characters.
pub open spec fn signed_decimal_chars(v: int) -> Seq<char> {
    if v < 0 {
        seq!['-'] + decimal_chars((-v) as nat)
    } else {
        decimal_chars(v as nat)
    }
}

/// The text of one digit.
fn digit_text(d: u64) -> (r: &'static str)
    requires
        d < 10,
    ensures
        r@ == seq![digit_char(d as nat)],
{
    proof {
        reveal_strlit("0");
        reveal_strlit("1");
        reveal_strlit("2");
        reveal_strlit("3");
        reveal_strlit("4");
        reveal_strlit("5");
        reveal_strlit("6");
        reveal_strlit("7");
        reveal_strlit("8");
        reveal_strlit("9");
    }
    let r = if d == 0 {
        "0"
    } else if d == 1 {
        "1"
    } else if d == 2 {
        "2"
    } else if d == 3 {
        "3"
    } else if d == 4 {
        "4"
    } else if d == 5 {
        "5"
    } else if d == 6 {
        "6"
    } else if d == 7 {
        "7"
    } else if d == 8 {
        "8"
    } else {
        "9"
    };
    assert(r@ =~= seq![digit_char(d as nat)]);
    r
}

/// Appends the digits of `n` to a string.
pub fn append_decimal(out: &mut String, n: u64)
    ensures
        final(out)@ == old(out)@ + decimal_chars(n as nat),
    decreases n,
{
    if n >= 10 {
        append_decimal(out, n / 10);
    }
    out.append(digit_text(n % 10));
    proof {
        assert(out@ =~= old(out)@ + decimal_chars(n as nat));
    }
}

/// Whether two texts are the same.
pub fn same_text(a: &str, b: &str) -> (r: bool)
    ensures
        r == (a@ == b@),
{
    let x = a.as_bytes();
    let y = b.as_bytes();
    proof {
        vstd::utf8::encode_utf8_decode_utf8(a@);
        vstd::utf8::encode_utf8_decode_utf8(b@);
    }
    if x.len() != y.len() {
        return false;
    }
    let mut i: usize = 0;
    while i < x.len()
        invariant
            i <= x@.len(),
            x@.len() == y@.len(),
            x@ == a.spec_bytes(),
            y@ == b.spec_bytes(),
            forall|k: int| 0 <= k < i ==> x@[k] == y@[k],
        decreases x@.len() - i,
    {
        if x[i] != y[i] {
            return false;
        }
        i += 1;
    }
    proof {
        assert(x@ =~= y@);
    }
    true
}

} // verus!
