//! Character-level helpers: splitting, finding, collecting and comparing text.
use vstd::prelude::*;

verus! {

/// The pieces of `s` between occurrences of `sep`, as `str::split` with a
/// `char` pattern yields them: always at least one piece, one more than
/// there are separators.
pub open spec fn split(s: Seq<char>, sep: char) -> Seq<Seq<char>>
    decreases s.len(),
{
    if s.len() == 0 {
        seq![Seq::<char>::empty()]
    } else {
        let init = split(s.drop_last(), sep);
        if s.last() == sep {
            init.push(Seq::<char>::empty())
        } else {
            init.update(init.len() - 1, init.last().push(s.last()))
        }
    }
}

/// The index of the first occurrence of `c` in `s`, if any.
pub open spec fn find(s: Seq<char>, c: char) -> Option<int>
    decreases s.len(),
{
    if s.len() == 0 {
        None
    } else if s[0] == c {
        Some(0)
    } else {
        match find(s.drop_first(), c) {
            Some(i) => Some(i + 1),
            None => None,
        }
    }
}

/// The text before the first `c`, or all of `s` when it holds none.
pub open spec fn before_first(s: Seq<char>, c: char) -> Seq<char> {
    match find(s, c) {
        Some(i) => s.take(i),
        None => s,
    }
}

/// The text after the first `c`, if `s` holds one.
pub open spec fn after_first(s: Seq<char>, c: char) -> Option<Seq<char>> {
    match find(s, c) {
        Some(i) => Some(s.skip(i + 1)),
        None => None,
    }
}

pub proof fn lemma_split_nonempty(s: Seq<char>, sep: char)
    ensures
        split(s, sep).len() >= 1,
    decreases s.len(),
{
    if s.len() > 0 {
        lemma_split_nonempty(s.drop_last(), sep);
    }
}

/// What `find` gives, stated by the positions of `c`.
pub proof fn lemma_find(s: Seq<char>, c: char)
    ensures
        match find(s, c) {
            Some(i) => 0 <= i < s.len() && s[i] == c && forall|j: int| 0 <= j < i ==> s[j] != c,
            None => forall|j: int| 0 <= j < s.len() ==> s[j] != c,
        },
    decreases s.len(),
{
    if s.len() > 0 && s[0] != c {
        lemma_find(s.drop_first(), c);
        match find(s.drop_first(), c) {
            Some(i) => {
                assert forall|j: int| 0 <= j < i + 1 implies s[j] != c by {
                    if j > 0 {
                        assert(s[j] == s.drop_first()[j - 1]);
                    }
                }
            },
            None => {
                assert forall|j: int| 0 <= j < s.len() implies s[j] != c by {
                    if j > 0 {
                        assert(s[j] == s.drop_first()[j - 1]);
                    }
                }
            },
        }
    }
}

/// `find` is determined by the positions of `c`.
pub proof fn lemma_find_at(s: Seq<char>, c: char, i: int)
    requires
        0 <= i <= s.len(),
        forall|j: int| 0 <= j < i ==> s[j] != c,
        i == s.len() || s[i] == c,
    ensures
        find(s, c) == (if i == s.len() { None::<int> } else { Some(i) }),
{
    lemma_find(s, c);
    match find(s, c) {
        Some(k) => {
            if k < i {
            } else if k > i {
            }
        },
        None => {},
    }
}


/// The pieces joined with `sep` between each two of them, as `join` on a
/// slice of strings does.
pub open spec fn join(parts: Seq<Seq<char>>, sep: char) -> Seq<char>
    decreases parts.len(),
{
    if parts.len() == 0 {
        Seq::empty()
    } else if parts.len() == 1 {
        parts[0]
    } else {
        join(parts.drop_last(), sep).push(sep) + parts.last()
    }
}

/// Joining one piece more.
pub proof fn lemma_join_push(parts: Seq<Seq<char>>, t: Seq<char>, sep: char)
    ensures
        join(parts.push(t), sep) == if parts.len() == 0 {
            t
        } else {
            join(parts, sep).push(sep) + t
        },
{
    let p = parts.push(t);
    assert(p.drop_last() =~= parts);
}


/// Joining a piece in front of others.
pub proof fn lemma_join_prepend(t: Seq<char>, parts: Seq<Seq<char>>, sep: char)
    ensures
        join(seq![t] + parts, sep) == if parts.len() == 0 {
            t
        } else {
            t.push(sep) + join(parts, sep)
        },
    decreases parts.len(),
{
    let p = seq![t] + parts;
    if parts.len() == 0 {
        assert(p =~= seq![t]);
    } else {
        assert(p.drop_last() =~= seq![t] + parts.drop_last());
        lemma_join_prepend(t, parts.drop_last(), sep);
        if parts.len() == 1 {
            assert(parts.drop_last() =~= Seq::<Seq<char>>::empty());
        } else {
            assert((t.push(sep) + join(parts.drop_last(), sep)).push(sep) + parts.last() =~= t.push(
                sep,
            ) + (join(parts.drop_last(), sep).push(sep) + parts.last()));
        }
    }
}


/// Text without `sep` is a single piece.
pub proof fn lemma_split_single(t: Seq<char>, sep: char)
    requires
        !t.contains(sep),
    ensures
        split(t, sep) == seq![t],
    decreases t.len(),
{
    if t.len() > 0 {
        assert(!t.drop_last().contains(sep)) by {
            if t.drop_last().contains(sep) {
                let i = choose|i: int| 0 <= i < t.drop_last().len() && t.drop_last()[i] == sep;
                assert(t[i] == sep);
            }
        }
        lemma_split_single(t.drop_last(), sep);
        assert(t.last() != sep) by {
            assert(t[t.len() - 1] == t.last());
        }
        assert(t.drop_last().push(t.last()) =~= t);
        let init = split(t.drop_last(), sep);
        assert(split(t, sep) == init.update(init.len() - 1, init.last().push(t.last())));
        assert(init.update(0, t.drop_last().push(t.last())) =~= seq![t]);
    } else {
        assert(t =~= Seq::<char>::empty());
    }
}

/// A separator and text without one, put after `s`, add that text as a
/// piece of its own.
pub proof fn lemma_split_append(s: Seq<char>, t: Seq<char>, sep: char)
    requires
        !t.contains(sep),
    ensures
        split(s.push(sep) + t, sep) == split(s, sep).push(t),
    decreases t.len(),
{
    let whole = s.push(sep) + t;
    if t.len() == 0 {
        assert(whole =~= s.push(sep));
        assert(whole.drop_last() =~= s);
        assert(whole.last() == sep);
        assert(t =~= Seq::<char>::empty());
        assert(split(whole, sep) == split(whole.drop_last(), sep).push(Seq::<char>::empty()));
    } else {
        assert(!t.drop_last().contains(sep)) by {
            if t.drop_last().contains(sep) {
                let i = choose|i: int| 0 <= i < t.drop_last().len() && t.drop_last()[i] == sep;
                assert(t[i] == sep);
            }
        }
        lemma_split_append(s, t.drop_last(), sep);
        assert(whole.drop_last() =~= s.push(sep) + t.drop_last());
        assert(whole.last() == t.last());
        assert(t.last() != sep) by {
            assert(t[t.len() - 1] == t.last());
        }
        assert(t.drop_last().push(t.last()) =~= t);
        let init = split(whole.drop_last(), sep);
        assert(init == split(s, sep).push(t.drop_last()));
        assert(split(whole, sep) == init.update(init.len() - 1, init.last().push(whole.last())));
        assert(split(s, sep).push(t.drop_last()).update(
            split(s, sep).len() as int,
            t.drop_last().push(t.last()),
        ) =~= split(s, sep).push(t));
    }
}

/// Law: pieces that hold no separator, joined with it, split back into
/// the same pieces.
pub proof fn lemma_split_join(parts: Seq<Seq<char>>, sep: char)
    requires
        parts.len() >= 1,
        forall|i: int| 0 <= i < parts.len() ==> !(#[trigger] parts[i]).contains(sep),
    ensures
        split(join(parts, sep), sep) == parts,
    decreases parts.len(),
{
    if parts.len() == 1 {
        lemma_split_single(parts[0], sep);
        assert(seq![parts[0]] =~= parts);
    } else {
        let init = parts.drop_last();
        assert forall|i: int| 0 <= i < init.len() implies !(#[trigger] init[i]).contains(sep) by {
            assert(init[i] == parts[i]);
        }
        lemma_split_join(init, sep);
        assert(!parts.last().contains(sep)) by {
            assert(parts[parts.len() - 1] == parts.last());
        }
        lemma_split_append(join(init, sep), parts.last(), sep);
        assert(init.push(parts.last()) =~= parts);
    }
}

/// Law: no piece of a split holds the separator.
pub proof fn lemma_split_pieces(s: Seq<char>, sep: char)
    ensures
        forall|i: int|
            0 <= i < split(s, sep).len() ==> !(#[trigger] split(s, sep)[i]).contains(sep),
    decreases s.len(),
{
    if s.len() > 0 {
        lemma_split_pieces(s.drop_last(), sep);
        lemma_split_nonempty(s.drop_last(), sep);
        let init = split(s.drop_last(), sep);
        if s.last() != sep {
            let last = init.last().push(s.last());
            assert(!last.contains(sep)) by {
                if last.contains(sep) {
                    let j = choose|j: int| 0 <= j < last.len() && last[j] == sep;
                    if j < init.last().len() {
                        assert(init[init.len() - 1] == init.last());
                        assert(init.last()[j] == sep);
                    }
                }
            }
            assert forall|i: int| 0 <= i < split(s, sep).len() implies !(#[trigger] split(
                s,
                sep,
            )[i]).contains(sep) by {
                if i < init.len() - 1 {
                    assert(split(s, sep)[i] == init[i]);
                }
            }
        } else {
            assert forall|i: int| 0 <= i < split(s, sep).len() implies !(#[trigger] split(
                s,
                sep,
            )[i]).contains(sep) by {
                if i < init.len() {
                    assert(split(s, sep)[i] == init[i]);
                }
            }
        }
    }
}

/// Law: joining the pieces of a split with the same separator gives back
/// the text.
pub proof fn lemma_join_split(s: Seq<char>, sep: char)
    ensures
        join(split(s, sep), sep) == s,
    decreases s.len(),
{
    if s.len() > 0 {
        let init = split(s.drop_last(), sep);
        lemma_join_split(s.drop_last(), sep);
        lemma_split_nonempty(s.drop_last(), sep);
        if s.last() == sep {
            lemma_join_push(init, Seq::<char>::empty(), sep);
            assert(s =~= s.drop_last().push(sep) + Seq::<char>::empty());
        } else {
            let p = init.update(init.len() - 1, init.last().push(s.last()));
            assert(p.drop_last() =~= init.drop_last());
            if init.len() == 1 {
                assert(s =~= s.drop_last().push(s.last()));
            } else {
                assert(init =~= init.drop_last().push(init.last()));
                lemma_join_push(init.drop_last(), init.last(), sep);
                assert(s =~= (join(init.drop_last(), sep).push(sep) + init.last()).push(s.last()));
            }
        }
    }
}

/// The characters of `s`, in order.
pub fn chars_of(s: &str) -> (v: Vec<char>)
    ensures
        v@ == s@,
{
    let mut v: Vec<char> = Vec::new();
    for c in it: s.chars()
        invariant
            v@ == it.seq().take(it.index() as int),
            it.seq() == s@,
    {
        v.push(c);
    }
    v
}

/// Appends one character to a `String` (`String::push`).
#[verifier::external_body]
pub(crate) fn push_char(s: &mut String, c: char)
    ensures
        final(s)@ == old(s)@.push(c),
{
    s.push(c);
}

/// A `String` holding `chars[lo..hi]`.
pub fn string_of_range(chars: &Vec<char>, lo: usize, hi: usize) -> (r: String)
    requires
        lo <= hi <= chars@.len(),
    ensures
        r@ == chars@.subrange(lo as int, hi as int),
{
    let mut r = String::new();
    let mut i = lo;
    while i < hi
        invariant
            lo <= i <= hi <= chars@.len(),
            r@ == chars@.subrange(lo as int, i as int),
        decreases hi - i,
    {
        push_char(&mut r, chars[i]);
        i = i + 1;
        assert(r@ =~= chars@.subrange(lo as int, i as int));
    }
    r
}

/// The index of the first `c` in `chars[lo..hi]`, counted from the start of `chars`.
pub fn find_in_range(chars: &Vec<char>, lo: usize, hi: usize, c: char) -> (r: Option<usize>)
    requires
        lo <= hi <= chars@.len(),
    ensures
        match find(chars@.subrange(lo as int, hi as int), c) {
            Some(k) => 0 <= k < hi - lo && r == Some((lo + k) as usize),
            None => r is None,
        },
        r matches Some(j) ==> lo <= j < hi && chars@[j as int] == c,
{
    let ghost s = chars@.subrange(lo as int, hi as int);
    let mut i = lo;
    while i < hi
        invariant
            lo <= i <= hi <= chars@.len(),
            s == chars@.subrange(lo as int, hi as int),
            forall|j: int| 0 <= j < i - lo ==> s[j] != c,
        decreases hi - i,
    {
        if chars[i] == c {
            proof {
                lemma_find_at(s, c, i - lo);
            }
            return Some(i);
        }
        i = i + 1;
    }
    proof {
        lemma_find_at(s, c, s.len() as int);
    }
    None
}

/// `ranges` marks out `pieces` in `chars`, each range ending at or before `bound`.
pub open spec fn ranges_mark(
    chars: Seq<char>,
    ranges: Seq<(usize, usize)>,
    pieces: Seq<Seq<char>>,
    bound: int,
) -> bool {
    &&& ranges.len() == pieces.len()
    &&& forall|k: int|
        0 <= k < ranges.len() ==> {
            &&& (#[trigger] ranges[k]).0 <= ranges[k].1 <= bound
            &&& chars.subrange(ranges[k].0 as int, ranges[k].1 as int) == pieces[k]
        }
}

/// The bounds `(start, end)` in `chars` of each piece of `split(chars, sep)`.
pub fn split_ranges(chars: &Vec<char>, sep: char) -> (r: Vec<(usize, usize)>)
    ensures
        ranges_mark(chars@, r@, split(chars@, sep), chars@.len() as int),
{
    let mut r: Vec<(usize, usize)> = Vec::new();
    let mut start: usize = 0;
    let mut i: usize = 0;
    let n = chars.len();
    assert(chars@.take(0) =~= Seq::<char>::empty());
    while i < n
        invariant
            n == chars@.len(),
            start <= i <= n,
            split(chars@.take(i as int), sep).len() >= 1,
            ranges_mark(chars@, r@, split(chars@.take(i as int), sep).drop_last(), i as int),
            chars@.subrange(start as int, i as int) == split(chars@.take(i as int), sep).last(),
        decreases n - i,
    {
        let ghost prev = split(chars@.take(i as int), sep);
        let ghost cur = chars@.take(i + 1);
        assert(cur.drop_last() =~= chars@.take(i as int));
        assert(cur.last() == chars@[i as int]);
        if chars[i] == sep {
            assert(split(cur, sep) == prev.push(Seq::<char>::empty()));
            r.push((start, i));
            start = i + 1;
            i = i + 1;
            assert(chars@.subrange(start as int, i as int) =~= Seq::<char>::empty());
            assert(split(cur, sep).drop_last() =~= prev);
            assert(prev =~= prev.drop_last().push(prev.last()));
        } else {
            assert(split(cur, sep) == prev.update(
                prev.len() - 1,
                prev.last().push(chars@[i as int]),
            ));
            i = i + 1;
            assert(chars@.subrange(start as int, i as int) =~= chars@.subrange(
                start as int,
                (i - 1) as int,
            ).push(chars@[i - 1]));
            assert(split(cur, sep).drop_last() =~= prev.drop_last());
        }
    }
    assert(chars@.take(n as int) =~= chars@);
    let ghost all = split(chars@, sep);
    r.push((start, n));
    assert(all =~= all.drop_last().push(all.last()));
    r
}

/// Whether two strings hold the same characters.
pub fn str_eq(a: &str, b: &str) -> (r: bool)
    ensures
        r == (a@ == b@),
{
    let x = chars_of(a);
    let y = chars_of(b);
    if x.len() != y.len() {
        return false;
    }
    let mut i: usize = 0;
    while i < x.len()
        invariant
            x@ == a@,
            y@ == b@,
            x@.len() == y@.len(),
            0 <= i <= x@.len(),
            forall|j: int| 0 <= j < i ==> x@[j] == y@[j],
        decreases x@.len() - i,
    {
        if x[i] != y[i] {
            return false;
        }
        i = i + 1;
    }
    assert(x@ =~= y@);
    true
}

} // verus!
