//! URL-safe base64 (RFC 4648, section 5) without padding, as the `dns`
//! parameter of a DNS-over-HTTPS GET request carries the query.
use vstd::prelude::*;
use crate::text::chars_of;

verus! {

/// The six bits that a character of the URL-safe alphabet stands for.
pub open spec fn sextet(c: char) -> Option<int> {
    if 'A' <= c <= 'Z' {
        Some(c as int - 'A' as int)
    } else if 'a' <= c <= 'z' {
        Some(c as int - 'a' as int + 26)
    } else if '0' <= c <= '9' {
        Some(c as int - '0' as int + 52)
    } else if c == '-' {
        Some(62)
    } else if c == '_' {
        Some(63)
    } else {
        None
    }
}

/// The bytes of one group of two to four characters, all in the alphabet:
/// one byte for two characters, two for three, three for four. Bits left
/// over at the end of a short group are dropped.
pub open spec fn group_bytes(g: Seq<char>) -> Seq<u8> {
    let v0 = sextet(g[0])->0;
    let v1 = sextet(g[1])->0;
    let v2 = if g.len() > 2 {
        sextet(g[2])->0
    } else {
        0
    };
    let v3 = if g.len() > 3 {
        sextet(g[3])->0
    } else {
        0
    };
    let b0 = (v0 * 4 + v1 / 16) as u8;
    let b1 = ((v1 % 16) * 16 + v2 / 4) as u8;
    let b2 = ((v2 % 4) * 64 + v3) as u8;
    if g.len() == 2 {
        seq![b0]
    } else if g.len() == 3 {
        seq![b0, b1]
    } else {
        seq![b0, b1, b2]
    }
}

/// How many characters the next group takes: four, or all that is left.
pub open spec fn group_len(s: Seq<char>) -> int {
    if s.len() < 4 {
        s.len() as int
    } else {
        4
    }
}

/// Every character of `g` is in the alphabet.
pub open spec fn in_alphabet(g: Seq<char>) -> bool {
    forall|i: int| 0 <= i < g.len() ==> #[trigger] sextet(g[i]) is Some
}

/// The bytes that unpadded URL-safe base64 text stands for: groups of four
/// characters, the last one possibly of two or three; `None` when a
/// character is outside the alphabet or one character is left over.
pub open spec fn b64_decode(s: Seq<char>) -> Option<Seq<u8>>
    decreases s.len(),
{
    if s.len() == 0 {
        Some(Seq::empty())
    } else {
        let k = group_len(s);
        let g = s.take(k);
        if k == 1 || !in_alphabet(g) {
            None
        } else {
            match b64_decode(s.skip(k)) {
                Some(rest) => Some(group_bytes(g) + rest),
                None => None,
            }
        }
    }
}

/// The six bits of `c`, if it is in the alphabet.
fn sextet_of(c: char) -> (r: Option<u32>)
    ensures
        match sextet(c) {
            Some(v) => r == Some(v as u32) && 0 <= v < 64,
            None => r is None,
        },
{
    if 'A' <= c && c <= 'Z' {
        Some(c as u32 - 'A' as u32)
    } else if 'a' <= c && c <= 'z' {
        Some(c as u32 - 'a' as u32 + 26)
    } else if '0' <= c && c <= '9' {
        Some(c as u32 - '0' as u32 + 52)
    } else if c == '-' {
        Some(62)
    } else if c == '_' {
        Some(63)
    } else {
        None
    }
}

/// `prefix` followed by what `rest` decodes to; `None` passes through.
pub open spec fn after_bytes(prefix: Seq<u8>, rest: Option<Seq<u8>>) -> Option<Seq<u8>> {
    match rest {
        Some(r) => Some(prefix + r),
        None => None,
    }
}

/// The bytes that unpadded URL-safe base64 text stands for.
pub fn b64_url_to_u8_vec(text: &str) -> (r: Result<Vec<u8>, ()>)
    ensures
        match b64_decode(text@) {
            Some(bytes) => r matches Ok(v) && v@ == bytes,
            None => r is Err,
        },
{
    let chars = chars_of(text);
    let n = chars.len();
    let mut out: Vec<u8> = Vec::new();
    let mut i: usize = 0;
    assert(chars@.skip(0) =~= chars@);
    while i < n
        invariant
            n == chars@.len(),
            chars@ == text@,
            i <= n,
            b64_decode(text@) == after_bytes(out@, b64_decode(chars@.skip(i as int))),
        decreases n - i,
    {
        let ghost s = chars@.skip(i as int);
        let k: usize = if n - i < 4 {
            n - i
        } else {
            4
        };
        let ghost g = s.take(k as int);
        if k == 1 {
            return Err(());
        }
        let mut vals: [u32; 4] = [0, 0, 0, 0];
        let mut j: usize = 0;
        while j < k
            invariant
                i + k <= n,
                n == chars@.len(),
                s == chars@.skip(i as int),
                g == s.take(k as int),
                2 <= k <= 4,
                s.len() == n - i,
                k == group_len(s),
                chars@ == text@,
                b64_decode(text@) == after_bytes(out@, b64_decode(s)),
                j <= k,
                forall|t: int| 0 <= t < j ==> sextet(#[trigger] g[t]) == Some(vals@[t] as int),
                forall|t: int| 0 <= t < j ==> vals@[t] < 64,
                forall|t: int| j <= t < 4 ==> vals@[t] == 0,
            decreases k - j,
        {
            assert(g[j as int] == chars@[i + j]);
            match sextet_of(chars[i + j]) {
                Some(v) => {
                    vals[j] = v;
                },
                None => {
                    proof {
                        assert(sextet(g[j as int]) is None);
                        assert(!in_alphabet(g));
                        assert(b64_decode(s) is None);
                    }
                    return Err(());
                },
            }
            j = j + 1;
        }
        let b0 = ((vals[0] * 4 + vals[1] / 16) % 256) as u8;
        let b1 = ((vals[1] % 16) * 16 + vals[2] / 4) as u8;
        let b2 = ((vals[2] % 4) * 64 + vals[3]) as u8;
        let ghost before = out@;
        out.push(b0);
        if k >= 3 {
            out.push(b1);
        }
        if k == 4 {
            out.push(b2);
        }
        proof {
            assert(in_alphabet(g));
            assert(out@ =~= before + group_bytes(g));
            assert(chars@.skip(i as int).skip(k as int) =~= chars@.skip(i + k));
        }
        i = i + k;
    }
    assert(chars@.skip(n as int) =~= Seq::<char>::empty());
    assert(out@ + Seq::<u8>::empty() =~= out@);
    Ok(out)
}

/// Law: the URL-safe alphabet of RFC 4648: `A`-`Z` stand for 0-25,
/// `a`-`z` for 26-51, `0`-`9` for 52-61, `-` for 62 and `_` for 63, and
/// no other character stands for anything.
pub proof fn lemma_alphabet(c: char)
    ensures
        'A' <= c <= 'Z' ==> sextet(c) == Some(c as int - 65),
        'a' <= c <= 'z' ==> sextet(c) == Some(c as int - 97 + 26),
        '0' <= c <= '9' ==> sextet(c) == Some(c as int - 48 + 52),
        c == '-' ==> sextet(c) == Some(62int),
        c == '_' ==> sextet(c) == Some(63int),
        !('A' <= c <= 'Z' || 'a' <= c <= 'z' || '0' <= c <= '9' || c == '-' || c == '_') ==> sextet(
            c,
        ) is None,
{
}

/// The character of the URL-safe alphabet for six bits `v`.
pub open spec fn b64_char(v: int) -> char {
    if v < 26 {
        ((v + 65) as u32) as char
    } else if v < 52 {
        ((v - 26 + 97) as u32) as char
    } else if v < 62 {
        ((v - 52 + 48) as u32) as char
    } else if v == 62 {
        '-'
    } else {
        '_'
    }
}

/// Bytes written as unpadded URL-safe base64: each three bytes as four
/// characters of six bits each, high bits first; a last one or two bytes
/// as two or three characters, the unused low bits zero.
pub open spec fn b64_encode(bytes: Seq<u8>) -> Seq<char>
    decreases bytes.len(),
{
    if bytes.len() == 0 {
        Seq::empty()
    } else {
        let x = bytes[0] as int;
        if bytes.len() == 1 {
            seq![b64_char(x / 4), b64_char((x % 4) * 16)]
        } else {
            let y = bytes[1] as int;
            if bytes.len() == 2 {
                seq![b64_char(x / 4), b64_char((x % 4) * 16 + y / 16), b64_char((y % 16) * 4)]
            } else {
                let z = bytes[2] as int;
                seq![
                    b64_char(x / 4),
                    b64_char((x % 4) * 16 + y / 16),
                    b64_char((y % 16) * 4 + z / 64),
                    b64_char(z % 64),
                ] + b64_encode(bytes.skip(3))
            }
        }
    }
}

proof fn lemma_b64_char(v: int)
    requires
        0 <= v < 64,
    ensures
        sextet(b64_char(v)) == Some(v),
{
    let c = b64_char(v);
    if v < 26 {
        assert(c as int == v + 65);
    } else if v < 52 {
        assert(c as int == v - 26 + 97);
    } else if v < 62 {
        assert(c as int == v - 52 + 48);
    }
}

proof fn lemma_split_byte(x: int, d: int)
    requires
        0 <= x < 256,
        d == 4 || d == 16 || d == 64,
    ensures
        (x / d) * d + x % d == x,
        0 <= x % d < d,
        0 <= x / d < 256int / d,
{
}

/// Law: decoding what encoding gives yields the bytes back, for any bytes.
pub proof fn lemma_b64_round_trip(bytes: Seq<u8>)
    ensures
        b64_decode(b64_encode(bytes)) == Some(bytes),
    decreases bytes.len(),
{
    if bytes.len() > 0 {
        let s = b64_encode(bytes);
        let x = bytes[0] as int;
        lemma_split_byte(x, 4);
        lemma_b64_char(x / 4);
        if bytes.len() == 1 {
            lemma_b64_char((x % 4) * 16);
            let g = s.take(2);
            assert(g =~= s);
            assert(in_alphabet(g));
            assert(s.skip(2) =~= Seq::<char>::empty());
            assert(group_bytes(g) =~= bytes);
            assert(group_bytes(g) + Seq::<u8>::empty() =~= bytes);
            assert(group_len(s) == 2);
            assert(b64_decode(s.skip(2)) == Some(Seq::<u8>::empty()));
            assert(b64_decode(s) == Some(group_bytes(g) + Seq::<u8>::empty()));
        } else {
            let y = bytes[1] as int;
            lemma_split_byte(y, 16);
            let v1 = (x % 4) * 16 + y / 16;
            lemma_b64_char(v1);
            assert(v1 / 16 == x % 4);
            assert(v1 % 16 == y / 16);
            if bytes.len() == 2 {
                lemma_b64_char((y % 16) * 4);
                let g = s.take(3);
                assert(g =~= s);
                assert(in_alphabet(g));
                assert(s.skip(3) =~= Seq::<char>::empty());
                assert(group_bytes(g) =~= bytes);
                assert(group_bytes(g) + Seq::<u8>::empty() =~= bytes);
                assert(group_len(s) == 3);
                assert(b64_decode(s.skip(3)) == Some(Seq::<u8>::empty()));
                assert(b64_decode(s) == Some(group_bytes(g) + Seq::<u8>::empty()));
            } else {
                let z = bytes[2] as int;
                lemma_split_byte(z, 64);
                let v2 = (y % 16) * 4 + z / 64;
                lemma_b64_char(v2);
                lemma_b64_char(z % 64);
                assert(v2 / 4 == y % 16);
                assert(v2 % 4 == z / 64);
                let rest = bytes.skip(3);
                lemma_b64_round_trip(rest);
                let g = s.take(4);
                assert(s.skip(4) =~= b64_encode(rest));
                assert(in_alphabet(g));
                assert(group_bytes(g) =~= bytes.take(3));
                assert(bytes.take(3) + rest =~= bytes);
                assert(group_len(s) == 4);
                assert(b64_decode(s) == Some(group_bytes(g) + rest));
            }
        }
    }
}

/// Law: text that decodes holds only characters of the alphabet.
pub proof fn lemma_decoded_in_alphabet(s: Seq<char>)
    ensures
        b64_decode(s) is Some ==> in_alphabet(s),
    decreases s.len(),
{
    if s.len() > 0 && b64_decode(s) is Some {
        let k = group_len(s);
        let g = s.take(k);
        let rest = s.skip(k);
        lemma_decoded_in_alphabet(rest);
        assert forall|i: int| 0 <= i < s.len() implies #[trigger] sextet(s[i]) is Some by {
            if i < k {
                assert(s[i] == g[i]);
            } else {
                assert(s[i] == rest[i - k]);
            }
        }
    }
}

} // verus!
