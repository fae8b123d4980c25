//! The headers passed on to an intranet site: an open-ended byte range
//! (`Range: bytes=N-`) is limited to a bounded one, so that a site asked
//! for "everything from N on" sends a chunk at a time.
use vstd::prelude::*;
use crate::number::{decimal, parse_unsigned, parse_unsigned_range, push_decimal, MAX_PARSED};
use crate::text::{chars_of, push_char, str_eq};
use vstd::string::StringExecFns;

verus! {

/// How many bytes an open-ended range is limited to.
pub const RANGE_LIMIT: u64 = 10_485_760;

/// The start of a byte-range value.
pub open spec fn bytes_prefix() -> Seq<char> {
    seq!['b', 'y', 't', 'e', 's', '=']
}

/// Whether a header is an open-ended byte range: a `Range` header whose
/// value starts with `bytes=` and ends with `-`.
pub open spec fn is_open_range(name: Seq<char>, value: Seq<char>) -> bool {
    &&& name == seq!['R', 'a', 'n', 'g', 'e']
    &&& value.len() >= 6 && value.take(6) == bytes_prefix()
    &&& value.len() >= 1 && value.last() == '-'
}

/// The first byte of an open-ended range `bytes=N-`, when `N` is a number
/// (of at most 10^18).
pub open spec fn open_range_start(value: Seq<char>) -> Option<int> {
    if value.len() >= 7 && value.take(6) == bytes_prefix() && value.last() == '-' {
        parse_unsigned(value.subrange(6, value.len() - 1), MAX_PARSED as int)
    } else {
        None
    }
}

/// An open-ended range `bytes=N-` limited to `bytes=N-M`, `RANGE_LIMIT`
/// bytes long; any other value unchanged.
pub open spec fn limited_range(value: Seq<char>) -> Seq<char> {
    match open_range_start(value) {
        Some(n) => bytes_prefix() + decimal(n as nat) + seq!['-'] + decimal(
            (n + RANGE_LIMIT - 1) as nat,
        ),
        None => value,
    }
}

/// The value with which a header is passed on: an open-ended byte range
/// limited, any other header unchanged.
pub open spec fn forwarded_value(name: Seq<char>, value: Seq<char>) -> Seq<char> {
    if is_open_range(name, value) {
        limited_range(value)
    } else {
        value
    }
}

/// Limits an open-ended byte range `bytes=N-` to `RANGE_LIMIT` bytes.
pub fn limit_open_ended_range(header_value: &str) -> (r: String)
    ensures
        r@ == limited_range(header_value@),
{
    let prefix = "bytes=";
    proof {
        reveal_strlit("bytes=");
    }
    assert(prefix@ =~= bytes_prefix());
    let chars = chars_of(header_value);
    let n = chars.len();
    if n >= 7 && chars[n - 1] == '-' && str_eq(header_value.substring_char(0, 6), prefix) {
        assert(header_value@.subrange(0, 6) =~= header_value@.take(6));
        match parse_unsigned_range(&chars, 6, n - 1, MAX_PARSED) {
            Some(start) => {
                proof {
                    crate::number::lemma_parse_unsigned_bounds(
                        chars@.subrange(6, n - 1),
                        MAX_PARSED as int,
                    );
                }
                let mut out = String::from_str(prefix);
                push_decimal(&mut out, start);
                push_char(&mut out, '-');
                push_decimal(&mut out, start + (RANGE_LIMIT - 1));
                assert(out@ =~= limited_range(header_value@));
                return out;
            },
            None => {},
        }
    }
    String::from_str(header_value)
}

/// The value with which a header is passed on to a site.
pub fn forwarded_header_value(header_name: &str, header_value: &str) -> (r: String)
    ensures
        r@ == forwarded_value(header_name@, header_value@),
{
    let range = "Range";
    let prefix = "bytes=";
    proof {
        reveal_strlit("Range");
        reveal_strlit("bytes=");
    }
    assert(range@ =~= seq!['R', 'a', 'n', 'g', 'e']);
    assert(prefix@ =~= bytes_prefix());
    let chars = chars_of(header_value);
    let n = chars.len();
    if str_eq(header_name, range) && n >= 6 && chars[n - 1] == '-' && str_eq(
        header_value.substring_char(0, 6),
        prefix,
    ) {
        assert(header_value@.subrange(0, 6) =~= header_value@.take(6));
        limit_open_ended_range(header_value)
    } else {
        proof {
            if n >= 6 && n >= 1 && chars@[n - 1] == '-' {
                assert(header_value@.subrange(0, 6) =~= header_value@.take(6));
            }
        }
        String::from_str(header_value)
    }
}

/// Law: every open-ended range `bytes=N-` whose start `N` is a number (of
/// at most 10^18) is limited, whatever the size of `N`: the value passed on
/// is the original value followed by the digits of `N + RANGE_LIMIT - 1`,
/// and the same holds of a `Range` header passed on to a site.
pub proof fn lemma_open_range_limited(n: nat)
    requires
        n <= MAX_PARSED,
    ensures
        ({
            let v = seq!['b', 'y', 't', 'e', 's', '='] + decimal(n) + seq!['-'];
            let r = limited_range(v);
            let k = v.len() as int;
            &&& open_range_start(v) == Some(n as int)
            &&& r == v + decimal((n + RANGE_LIMIT - 1) as nat)
            &&& r.take(k) == v
            &&& parse_unsigned(r.skip(k), 2 * MAX_PARSED) == Some(n + RANGE_LIMIT - 1)
            &&& forwarded_value(seq!['R', 'a', 'n', 'g', 'e'], v) == r
        }),
{
    let v = seq!['b', 'y', 't', 'e', 's', '='] + decimal(n) + seq!['-'];
    let d = decimal(n);
    crate::number::lemma_decimal_round_trip(n, MAX_PARSED as int);
    assert(d.len() > 0);
    assert(v.take(6) =~= bytes_prefix());
    assert(v.last() == '-');
    assert(v.subrange(6, v.len() - 1) =~= d);
    assert(open_range_start(v) == Some(n as int));
    let m = (n + RANGE_LIMIT - 1) as nat;
    let r = limited_range(v);
    assert(r =~= v + decimal(m));
    assert(r.take(v.len() as int) =~= v);
    assert(r.skip(v.len() as int) =~= decimal(m));
    crate::number::lemma_decimal_round_trip(m, 2 * MAX_PARSED);
    assert(is_open_range(seq!['R', 'a', 'n', 'g', 'e'], v));
}

} // verus!
