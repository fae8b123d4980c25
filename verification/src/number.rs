//! Decimal numbers and dotted IPv4 addresses written as text.
use vstd::prelude::*;
use crate::text::{chars_of, ranges_mark, split, split_ranges};

verus! {

/// An ASCII decimal digit.
pub open spec fn is_digit(c: char) -> bool {
    '0' <= c <= '9'
}

/// The value of a string of decimal digits.
pub open spec fn digits_value(s: Seq<char>) -> int
    decreases s.len(),
{
    if s.len() == 0 {
        0
    } else {
        digits_value(s.drop_last()) * 10 + (s.last() as int - '0' as int)
    }
}

/// The largest bound up to which numbers are read.
pub const MAX_PARSED: u64 = 1_000_000_000_000_000_000;

/// The digits of an unsigned number: all after a leading `+`, if any.
pub open spec fn unsigned_digits(s: Seq<char>) -> Seq<char> {
    if s.len() > 0 && s[0] == '+' {
        s.drop_first()
    } else {
        s
    }
}

/// An unsigned integer as `str::parse` reads one: an optional `+`, then
/// one or more decimal digits and nothing else, of a value at most `max`.
pub open spec fn parse_unsigned(s: Seq<char>, max: int) -> Option<int> {
    let digits = unsigned_digits(s);
    if digits.len() > 0 && (forall|i: int| 0 <= i < digits.len() ==> is_digit(#[trigger] digits[i]))
        && digits_value(digits) <= max {
        Some(digits_value(digits))
    } else {
        None
    }
}

/// The four bytes of a dotted IPv4 address: exactly four `.`-separated
/// pieces, each a number from 0 to 255.
pub open spec fn ip_of(s: Seq<char>) -> Option<Seq<u8>> {
    let parts = split(s, '.');
    if parts.len() == 4 && (forall|i: int|
        0 <= i < 4 ==> #[trigger] parse_unsigned(parts[i], 255) is Some) {
        Some(
            seq![
                parse_unsigned(parts[0], 255)->0 as u8,
                parse_unsigned(parts[1], 255)->0 as u8,
                parse_unsigned(parts[2], 255)->0 as u8,
                parse_unsigned(parts[3], 255)->0 as u8,
            ],
        )
    } else {
        None
    }
}

proof fn lemma_digits_prefix(s: Seq<char>, i: int)
    requires
        0 <= i <= s.len(),
        forall|j: int| 0 <= j < s.len() ==> is_digit(#[trigger] s[j]),
    ensures
        0 <= digits_value(s.take(i)) <= digits_value(s),
    decreases s.len(),
{
    if s.len() > 0 {
        let init = s.drop_last();
        assert forall|j: int| 0 <= j < init.len() implies is_digit(#[trigger] init[j]) by {
            assert(init[j] == s[j]);
        }
        if i == s.len() {
            assert(s.take(i) =~= s);
            lemma_digits_prefix(init, i - 1);
            assert(init.take(i - 1) =~= init);
            assert(is_digit(s.last()));
        } else {
            lemma_digits_prefix(init, i);
            assert(init.take(i) =~= s.take(i));
            lemma_digits_prefix(init, init.len() as int);
            assert(init.take(init.len() as int) =~= init);
            assert(is_digit(s.last()));
        }
    }
}

/// A number read is never negative and never above the bound.
pub proof fn lemma_parse_unsigned_bounds(s: Seq<char>, max: int)
    ensures
        parse_unsigned(s, max) matches Some(v) ==> 0 <= v <= max,
{
    let digits = unsigned_digits(s);
    if parse_unsigned(s, max) is Some {
        lemma_digits_prefix(digits, 0);
    }
}

/// Reads `chars[lo..hi]` as an unsigned number of at most `max`.
pub fn parse_unsigned_range(chars: &Vec<char>, lo: usize, hi: usize, max: u64) -> (r: Option<u64>)
    requires
        lo <= hi <= chars@.len(),
        max <= MAX_PARSED,
    ensures
        match parse_unsigned(chars@.subrange(lo as int, hi as int), max as int) {
            Some(v) => r == Some(v as u64),
            None => r is None,
        },
{
    let ghost s = chars@.subrange(lo as int, hi as int);
    let mut start = lo;
    if lo < hi && chars[lo] == '+' {
        start = lo + 1;
    }
    let ghost digits = chars@.subrange(start as int, hi as int);
    assert(digits =~= unsigned_digits(s));
    if start == hi {
        return None;
    }
    let mut v: u64 = 0;
    let mut k = start;
    assert(digits.take(0) =~= Seq::<char>::empty());
    while k < hi
        invariant
            lo <= start <= k <= hi <= chars@.len(),
            digits == chars@.subrange(start as int, hi as int),
            s == chars@.subrange(lo as int, hi as int),
            digits == unsigned_digits(s),
            forall|j: int| 0 <= j < k - start ==> is_digit(#[trigger] digits[j]),
            v as int == digits_value(digits.take(k - start)),
            v <= max,
            max <= MAX_PARSED,
        decreases hi - k,
    {
        let c = chars[k];
        if !('0' <= c && c <= '9') {
            assert(digits[k - start] == c);
            assert(!is_digit(digits[k - start]));
            assert(unsigned_digits(s) == digits);
            assert(parse_unsigned(s, max as int) is None);
            return None;
        }
        let d = (c as u32 - '0' as u32) as u64;
        let ghost before = digits.take(k - start);
        let next = v * 10 + d;
        k = k + 1;
        assert(digits.take(k - start).drop_last() =~= before);
        assert(digits.take(k - start).last() == c);
        if next > max as u64 {
            proof {
                let rest_all_digits = forall|j: int|
                    0 <= j < digits.len() ==> is_digit(#[trigger] digits[j]);
                if rest_all_digits {
                    lemma_digits_prefix(digits, k - start);
                }
                assert(parse_unsigned(s, max as int) is None);
            }
            return None;
        }
        v = next;
    }
    assert(digits.take(hi - start) =~= digits);
    assert(unsigned_digits(s) == digits);
    assert(parse_unsigned(s, max as int) == Some(v as int));
    Some(v)
}

/// Reads the four bytes of a dotted IPv4 address such as `10.0.0.7`.
pub fn ip_string_to_u8_array(ip_string: &str) -> (r: Option<[u8; 4]>)
    ensures
        match ip_of(ip_string@) {
            Some(bytes) => r matches Some(a) && a@ == bytes,
            None => r is None,
        },
{
    let chars = chars_of(ip_string);
    let ranges = split_ranges(&chars, '.');
    let ghost parts = split(chars@, '.');
    if ranges.len() != 4 {
        return None;
    }
    let mut out: [u8; 4] = [0, 0, 0, 0];
    let mut i: usize = 0;
    while i < 4
        invariant
            chars@ == ip_string@,
            parts == split(chars@, '.'),
            ranges_mark(chars@, ranges@, parts, chars@.len() as int),
            ranges@.len() == 4,
            i <= 4,
            forall|j: int| 0 <= j < i ==> #[trigger] parse_unsigned(parts[j], 255) is Some,
            forall|j: int|
                0 <= j < i ==> out@[j] == #[trigger] parse_unsigned(parts[j], 255)->0 as u8,
        decreases 4 - i,
    {
        let (lo, hi) = ranges[i];
        assert(chars@.subrange(lo as int, hi as int) == parts[i as int]);
        proof {
            lemma_parse_unsigned_bounds(parts[i as int], 255);
        }
        match parse_unsigned_range(&chars, lo, hi, 255) {
            Some(v) => {
                let ghost old_out = out@;
                out[i] = v as u8;
                assert(out@ == old_out.update(i as int, v as u8));
            },
            None => {
                return None;
            },
        }
        i = i + 1;
    }
    assert(out@ =~= ip_of(ip_string@)->0);
    Some(out)
}

/// The character of a decimal digit.
pub open spec fn digit_char(d: int) -> char {
    seq!['0', '1', '2', '3', '4', '5', '6', '7', '8', '9'][d]
}

/// The decimal digits of `n`, without leading zeros.
pub open spec fn decimal(n: nat) -> Seq<char>
    decreases n,
{
    if n < 10 {
        seq![digit_char(n as int)]
    } else {
        decimal(n / 10).push(digit_char(n as int % 10))
    }
}

/// Appends the decimal digits of `n`.
pub fn push_decimal(out: &mut String, n: u64)
    ensures
        final(out)@ == old(out)@ + decimal(n as nat),
    decreases n,
{
    if n >= 10 {
        push_decimal(out, n / 10);
    }
    let digits: [char; 10] = ['0', '1', '2', '3', '4', '5', '6', '7', '8', '9'];
    let d = (n % 10) as usize;
    assert(digits@ =~= seq!['0', '1', '2', '3', '4', '5', '6', '7', '8', '9']);
    crate::text::push_char(out, digits[d]);
}


/// Law: the decimal digits of a number read back as that number.
pub proof fn lemma_decimal_round_trip(n: nat, max: int)
    requires
        n <= max,
    ensures
        parse_unsigned(decimal(n), max) == Some(n as int),
{
    lemma_decimal_digits(n);
    let d = decimal(n);
    assert(unsigned_digits(d) == d);
}

/// Law: a number is read with or without a leading `+`, only up to the
/// bound; empty text and a lone `+` are no number, and neither is text
/// with a character other than a digit after the optional `+`.
pub proof fn lemma_parse_unsigned_forms(n: nat, max: int, s: Seq<char>)
    ensures
        n <= max ==> parse_unsigned(seq!['+'] + decimal(n), max) == Some(n as int),
        n > max ==> parse_unsigned(decimal(n), max) is None,
        n > max ==> parse_unsigned(seq!['+'] + decimal(n), max) is None,
        parse_unsigned(Seq::empty(), max) is None,
        parse_unsigned(seq!['+'], max) is None,
        (exists|i: int| 0 <= i < s.len() && !is_digit(#[trigger] s[i]) && (i > 0 || s[i] != '+'))
            ==> parse_unsigned(s, max) is None,
{
    lemma_decimal_digits(n);
    let p = seq!['+'] + decimal(n);
    assert(p.drop_first() =~= decimal(n));
    assert(unsigned_digits(decimal(n)) == decimal(n));
    assert(seq!['+'].drop_first() =~= Seq::<char>::empty());
    if exists|i: int| 0 <= i < s.len() && !is_digit(#[trigger] s[i]) && (i > 0 || s[i] != '+') {
        let i = choose|i: int| 0 <= i < s.len() && !is_digit(#[trigger] s[i]) && (i > 0 || s[i] != '+');
        let digits = unsigned_digits(s);
        if s.len() > 0 && s[0] == '+' {
            assert(digits[i - 1] == s[i]);
        } else {
            assert(digits[i] == s[i]);
        }
    }
}

/// The dotted text of four numbers: their decimal digits joined by `.`.
pub open spec fn dotted(a: nat, b: nat, c: nat, d: nat) -> Seq<char> {
    decimal(a) + seq!['.'] + decimal(b) + seq!['.'] + decimal(c) + seq!['.'] + decimal(d)
}

proof fn lemma_decimal_no_dot(n: nat)
    ensures
        !decimal(n).contains('.'),
{
    lemma_decimal_digits(n);
}

/// Law: four numbers written with dots between them read back as an
/// address exactly when each is at most 255, and then as those four
/// bytes in the order written.
pub proof fn lemma_dotted_address(a: nat, b: nat, c: nat, d: nat)
    ensures
        (a <= 255 && b <= 255 && c <= 255 && d <= 255) ==> ip_of(dotted(a, b, c, d)) == Some(
            seq![a as u8, b as u8, c as u8, d as u8],
        ),
        (a > 255 || b > 255 || c > 255 || d > 255) ==> ip_of(dotted(a, b, c, d)) is None,
{
    let parts = seq![decimal(a), decimal(b), decimal(c), decimal(d)];
    lemma_decimal_no_dot(a);
    lemma_decimal_no_dot(b);
    lemma_decimal_no_dot(c);
    lemma_decimal_no_dot(d);
    assert forall|i: int| 0 <= i < parts.len() implies !(#[trigger] parts[i]).contains('.') by {
        if i == 0 {
            assert(parts[i] == decimal(a));
        } else if i == 1 {
            assert(parts[i] == decimal(b));
        } else if i == 2 {
            assert(parts[i] == decimal(c));
        } else {
            assert(parts[i] == decimal(d));
        }
    }
    let p1 = seq![decimal(a)];
    let p2 = p1.push(decimal(b));
    let p3 = p2.push(decimal(c));
    assert(p3.push(decimal(d)) =~= parts);
    assert(crate::text::join(p1, '.') == decimal(a));
    crate::text::lemma_join_push(p1, decimal(b), '.');
    crate::text::lemma_join_push(p2, decimal(c), '.');
    crate::text::lemma_join_push(p3, decimal(d), '.');
    assert(crate::text::join(parts, '.') =~= dotted(a, b, c, d));
    crate::text::lemma_split_join(parts, '.');
    let s = dotted(a, b, c, d);
    assert(split(s, '.') == parts);
    lemma_decimal_digits(a);
    lemma_decimal_digits(b);
    lemma_decimal_digits(c);
    lemma_decimal_digits(d);
    assert(unsigned_digits(decimal(a)) == decimal(a));
    assert(unsigned_digits(decimal(b)) == decimal(b));
    assert(unsigned_digits(decimal(c)) == decimal(c));
    assert(unsigned_digits(decimal(d)) == decimal(d));
    assert(split(s, '.')[0] == decimal(a));
    assert(split(s, '.')[1] == decimal(b));
    assert(split(s, '.')[2] == decimal(c));
    assert(split(s, '.')[3] == decimal(d));
    if a > 255 {
        assert(parse_unsigned(split(s, '.')[0], 255) is None);
    }
    if b > 255 {
        assert(parse_unsigned(split(s, '.')[1], 255) is None);
    }
    if c > 255 {
        assert(parse_unsigned(split(s, '.')[2], 255) is None);
    }
    if d > 255 {
        assert(parse_unsigned(split(s, '.')[3], 255) is None);
    }
}


proof fn lemma_digit_char(k: int)
    requires
        0 <= k < 10,
    ensures
        is_digit(digit_char(k)),
        digit_char(k) as int - '0' as int == k,
        digit_char(k) != '+',
{
    if k == 0 {
        assert(digit_char(0) == '0');
    } else if k == 1 {
        assert(digit_char(1) == '1');
    } else if k == 2 {
        assert(digit_char(2) == '2');
    } else if k == 3 {
        assert(digit_char(3) == '3');
    } else if k == 4 {
        assert(digit_char(4) == '4');
    } else if k == 5 {
        assert(digit_char(5) == '5');
    } else if k == 6 {
        assert(digit_char(6) == '6');
    } else if k == 7 {
        assert(digit_char(7) == '7');
    } else if k == 8 {
        assert(digit_char(8) == '8');
    } else if k == 9 {
        assert(digit_char(9) == '9');
    }
}

/// The decimal digits of a number: at least one, each a digit, with the
/// number as their value.
pub proof fn lemma_decimal_digits(n: nat)
    ensures
        decimal(n).len() > 0,
        forall|i: int| 0 <= i < decimal(n).len() ==> is_digit(#[trigger] decimal(n)[i]),
        digits_value(decimal(n)) == n,
        decimal(n)[0] != '+',
    decreases n,
{
    lemma_digit_char(n as int % 10);
    if n >= 10 {
        lemma_decimal_digits(n / 10);
        let d = decimal(n);
        let init = decimal(n / 10);
        assert(d.drop_last() =~= init);
        assert(d.last() == digit_char(n as int % 10));
        assert(digits_value(d) == digits_value(init) * 10 + (d.last() as int - '0' as int));
        assert(n == (n / 10) * 10 + n % 10);
        assert forall|i: int| 0 <= i < d.len() implies is_digit(#[trigger] d[i]) by {
            if i < init.len() {
                assert(d[i] == init[i]);
            }
        }
    } else {
        let d = decimal(n);
        assert(d.drop_last() =~= Seq::<char>::empty());
        assert(digits_value(d) == digits_value(d.drop_last()) * 10 + (d.last() as int - '0' as int));
    }
}

} // verus!
