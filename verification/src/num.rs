//! Decimal rendering and parsing of 64-bit signed integers, with exact
//! specifications. Integer literals in instruction text (`#42`, `#-3`) and the
//! textual projection of integer values both go through this module.

use vstd::prelude::*;

verus! {

/// The character for a single decimal digit value.
pub open spec fn digit_char(d: nat) -> char {
    if d == 0 { '0' } else if d == 1 { '1' } else if d == 2 { '2' } else if d == 3 { '3'
    } else if d == 4 { '4' } else if d == 5 { '5' } else if d == 6 { '6' } else if d == 7 { '7'
    } else if d == 8 { '8' } else { '9' }
}

pub open spec fn is_digit(c: char) -> bool {
    48 <= (c as u32) && (c as u32) <= 57
}

/// The numeric value of a decimal digit character.
pub open spec fn digit_of(c: char) -> nat {
    (((c as u32) - 48) as int) as nat
}

/// The decimal digits of `n`, most significant first, with no sign and no
/// leading zeros (except for `n == 0`, which is rendered as `0`).
pub open spec fn dec_digits(n: nat) -> Seq<char>
    decreases n,
{
    if n < 10 {
        seq![digit_char(n)]
    } else {
        dec_digits(n / 10).push(digit_char(n % 10))
    }
}

/// The decimal rendering of a (possibly negative) integer.
pub open spec fn dec_int(v: int) -> Seq<char> {
    if v < 0 {
        seq!['-'] + dec_digits((-v) as nat)
    } else {
        dec_digits(v as nat)
    }
}

/// The value of a digit string, most significant first.
pub open spec fn digits_val(s: Seq<char>) -> nat
    decreases s.len(),
{
    if s.len() == 0 {
        0
    } else {
        digits_val(s.drop_last()) * 10 + digit_of(s.last())
    }
}

pub open spec fn all_digits(s: Seq<char>) -> bool {
    forall|i: int| 0 <= i < s.len() ==> is_digit(#[trigger] s[i])
}

/// What `parse_int` accepts for a digit body with an optional already-consumed
/// sign: at least one digit, only digits, and a value in `i64` range.
pub open spec fn parse_mag(body: Seq<char>, neg: bool) -> Option<int> {
    if body.len() == 0 || !all_digits(body) {
        None
    } else {
        let m = digits_val(body) as int;
        let v = if neg { -m } else { m };
        if i64::MIN <= v <= i64::MAX { Some(v) } else { None }
    }
}

/// The meaning of a decimal integer token: an optional `+` or `-` sign
/// followed by one or more digits, rejecting values outside `i64`.
pub open spec fn parse_int_spec(s: Seq<char>) -> Option<int> {
    if s.len() > 0 && (s[0] == '+' || s[0] == '-') {
        parse_mag(s.skip(1), s[0] == '-')
    } else {
        parse_mag(s, false)
    }
}

/// A digit character reads back as its digit value.
pub proof fn lemma_digit_roundtrip(d: nat)
    requires
        d < 10,
    ensures
        digit_of(digit_char(d)) == d,
        is_digit(digit_char(d)),
{
    if d == 0 {
        assert('0' as u32 == 48);
    } else if d == 1 {
        assert('1' as u32 == 49);
    } else if d == 2 {
        assert('2' as u32 == 50);
    } else if d == 3 {
        assert('3' as u32 == 51);
    } else if d == 4 {
        assert('4' as u32 == 52);
    } else if d == 5 {
        assert('5' as u32 == 53);
    } else if d == 6 {
        assert('6' as u32 == 54);
    } else if d == 7 {
        assert('7' as u32 == 55);
    } else if d == 8 {
        assert('8' as u32 == 56);
    } else {
        assert('9' as u32 == 57);
    }
}

/// Every character produced by `dec_digits` is a decimal digit.
pub proof fn lemma_dec_digits_are_digits(n: nat)
    ensures
        dec_digits(n).len() >= 1,
        all_digits(dec_digits(n)),
    decreases n,
{
    if n < 10 {
        lemma_digit_roundtrip(n);
    } else {
        lemma_dec_digits_are_digits(n / 10);
        lemma_digit_roundtrip(n % 10);
        assert forall|i: int| 0 <= i < dec_digits(n).len() implies is_digit(
            #[trigger] dec_digits(n)[i],
        ) by {
            if i < dec_digits(n / 10).len() {
                assert(dec_digits(n)[i] == dec_digits(n / 10)[i]);
            }
        }
    }
}

/// Rendering and evaluation are inverse: reading the digits of `n` back
/// gives `n`.
pub proof fn lemma_digits_val_dec(n: nat)
    ensures
        digits_val(dec_digits(n)) == n,
    decreases n,
{
    if n < 10 {
        let s = dec_digits(n);
        assert(s.drop_last() =~= Seq::<char>::empty());
        lemma_digit_roundtrip(n);
        assert(digits_val(s) == digits_val(s.drop_last()) * 10 + digit_of(s.last()));
    } else {
        lemma_digits_val_dec(n / 10);
        let s = dec_digits(n);
        assert(s.drop_last() =~= dec_digits(n / 10));
        lemma_digit_roundtrip(n % 10);
        assert(digits_val(s) == (n / 10) * 10 + n % 10);
    }
}

/// Distinct numbers have distinct decimal renderings.
pub proof fn lemma_dec_digits_injective(a: nat, b: nat)
    requires
        a != b,
    ensures
        dec_digits(a) != dec_digits(b),
{
    lemma_digits_val_dec(a);
    lemma_digits_val_dec(b);
}

/// A digit string's value only grows as more digits are appended.
pub proof fn lemma_digits_val_prefix(s: Seq<char>, i: int)
    requires
        0 <= i <= s.len(),
    ensures
        digits_val(s) >= digits_val(s.subrange(0, i)),
    decreases s.len(),
{
    if i < s.len() {
        lemma_digits_val_prefix(s.drop_last(), i);
        assert(s.drop_last().subrange(0, i) =~= s.subrange(0, i));
        assert(digits_val(s) >= digits_val(s.drop_last()));
    } else {
        assert(s.subrange(0, i) =~= s);
    }
}

/// Relies on `String::push`: appends exactly one character to the string.
#[verifier::external_body]
pub fn push_char(s: &mut String, c: char)
    ensures
        final(s)@ == old(s)@.push(c),
{
    s.push(c);
}

fn digit_char_exec(d: u64) -> (c: char)
    requires
        d < 10,
    ensures
        c == digit_char(d as nat),
{
    match d {
        0 => '0',
        1 => '1',
        2 => '2',
        3 => '3',
        4 => '4',
        5 => '5',
        6 => '6',
        7 => '7',
        8 => '8',
        _ => '9',
    }
}

fn push_dec_u64(s: &mut String, n: u64)
    ensures
        final(s)@ == old(s)@ + dec_digits(n as nat),
    decreases n,
{
    if n < 10 {
        push_char(s, digit_char_exec(n));
        assert(final(s)@ =~= old(s)@ + dec_digits(n as nat));
    } else {
        push_dec_u64(s, n / 10);
        push_char(s, digit_char_exec(n % 10));
        assert(final(s)@ =~= old(s)@ + dec_digits(n as nat));
    }
}

/// Renders `n` in decimal, exactly as `dec_int` describes.
pub fn render_int(n: i64) -> (r: String)
    ensures
        r@ == dec_int(n as int),
{
    let mut s = String::new();
    if n < 0 {
        push_char(&mut s, '-');
        let mag: u64 = ((-(n + 1)) as u64) + 1;
        assert(mag == -(n as int));
        push_dec_u64(&mut s, mag);
        assert(s@ =~= dec_int(n as int));
    } else {
        push_dec_u64(&mut s, n as u64);
        assert(s@ =~= dec_int(n as int));
    }
    s
}

/// Renders an unsigned quantity (used for the numeric keys of `chars`).
pub fn render_u64(n: u64) -> (r: String)
    ensures
        r@ == dec_digits(n as nat),
{
    let mut s = String::new();
    push_dec_u64(&mut s, n);
    assert(s@ =~= dec_digits(n as nat));
    s
}

/// Parses a decimal integer token, exactly as `parse_int_spec` describes.
pub fn parse_int(s: &str) -> (r: Option<i64>)
    ensures
        match r {
            Some(v) => parse_int_spec(s@) == Some(v as int),
            None => parse_int_spec(s@) is None,
        },
{
    let len = s.unicode_len();
    if len == 0 {
        return None;
    }
    let c0 = s.get_char(0);
    let neg = c0 == '-';
    let start: usize = if c0 == '-' || c0 == '+' {
        1
    } else {
        0
    };
    let ghost body = if start == 1 { s@.skip(1) } else { s@ };
    if start == len {
        assert(body.len() == 0);
        return None;
    }
    let limit: u64 = if neg {
        9223372036854775808
    } else {
        9223372036854775807
    };
    let mut acc: u64 = 0;
    let mut i = start;
    while i < len
        invariant
            start <= i <= len,
            len == s@.len(),
            start == 1 ==> body == s@.skip(1),
            start == 0 ==> body == s@,
            start <= 1,
            (start == 1) <==> (s@.len() > 0 && (s@[0] == '+' || s@[0] == '-')),
            neg <==> (s@.len() > 0 && s@[0] == '-'),
            parse_int_spec(s@) == parse_mag(body, neg),
            acc == digits_val(body.subrange(0, i - start)),
            acc <= limit,
            all_digits(body.subrange(0, i - start)),
            limit == (if neg { 9223372036854775808u64 } else { 9223372036854775807u64 }),
        decreases len - i,
    {
        let c = s.get_char(i);
        assert(c == body[i - start]);
        let cu = c as u32;
        if cu < 48 || cu > 57 {
            assert(!is_digit(body[i - start]));
            assert(!all_digits(body));
            return None;
        }
        let d: u64 = ((cu - 48) as u64);
        assert(d == digit_of(c));
        let ghost pre = body.subrange(0, i - start);
        let ghost ext = body.subrange(0, i + 1 - start);
        assert(ext.drop_last() =~= pre && ext.last() == c);
        assert(digits_val(ext) == acc * 10 + d);
        let big = match acc.checked_mul(10) {
            Some(a1) => a1.checked_add(d),
            None => None,
        };
        match big {
            None => {
                proof {
                    lemma_digits_val_prefix(body, i + 1 - start);
                    assert(digits_val(body) >= digits_val(ext));
                }
                return None;
            },
            Some(a2) => {
                if a2 > limit {
                    proof {
                        lemma_digits_val_prefix(body, i + 1 - start);
                        assert(digits_val(body) >= digits_val(ext));
                    }
                    return None;
                }
                acc = a2;
            },
        }
        i = i + 1;
    }
    assert(body.subrange(0, len - start) =~= body);
    let r: i64 = if neg {
        if acc == 9223372036854775808 {
            i64::MIN
        } else {
            -(acc as i64)
        }
    } else {
        acc as i64
    };
    assert(parse_mag(body, neg) == Some(r as int));
    Some(r)
}

} // verus!
