//! The path and the query parameters of a request URL.
use vstd::prelude::*;
use crate::pairs::{pairs_map, parse_pairs};
use crate::table::Table;
use crate::text::{after_first, before_first, chars_of, find, find_in_range, lemma_find, split};

verus! {

/// The text after the first `?` of `url`, empty when there is none.
pub open spec fn query_string(url: Seq<char>) -> Seq<char> {
    match after_first(url, '?') {
        Some(q) => q,
        None => Seq::empty(),
    }
}

/// The query parameters of `url`: its `&`-separated `key=value` records,
/// a later one overriding an earlier one with the same key.
pub open spec fn queries_of(url: Seq<char>) -> Map<Seq<char>, Seq<char>> {
    pairs_map(split(query_string(url), '&'))
}

/// The path of `url`: all that stands before its first `?`.
pub fn get_path(url: &str) -> (r: &str)
    ensures
        r@ == before_first(url@, '?'),
{
    let chars = chars_of(url);
    let n = chars.len();
    proof {
        assert(chars@.subrange(0, n as int) =~= chars@);
    }
    match find_in_range(&chars, 0, n, '?') {
        Some(i) => {
            assert(find(url@, '?') == Some(i as int));
            url.substring_char(0, i)
        },
        None => {
            assert(find(url@, '?') is None);
            url.substring_char(0, n)
        },
    }
}

/// The query parameters of `url`.
pub fn get_queries(url: &str) -> (r: Table<String>)
    ensures
        r@ == queries_of(url@),
{
    let chars = chars_of(url);
    let n = chars.len();
    proof {
        assert(chars@.subrange(0, n as int) =~= chars@);
    }
    match find_in_range(&chars, 0, n, '?') {
        Some(i) => {
            assert(find(url@, '?') == Some(i as int));
            let rest = url.substring_char(i + 1, n);
            parse_pairs(rest, '&')
        },
        None => {
            assert(find(url@, '?') is None);
            let empty = "";
            proof {
                reveal_strlit("");
            }
            parse_pairs(empty, '&')
        },
    }
}

/// Law: the path, a `?`, and the query string make up the URL again; a
/// URL without `?` is all path, with no query string; the path itself
/// never holds a `?`.
pub proof fn lemma_path_and_query(url: Seq<char>)
    ensures
        !before_first(url, '?').contains('?'),
        find(url, '?') is Some ==> before_first(url, '?') + seq!['?'] + query_string(url) == url,
        find(url, '?') is None ==> before_first(url, '?') == url && query_string(url).len() == 0,
{
    lemma_find(url, '?');
    if let Some(i) = find(url, '?') {
        assert(url.take(i) + seq!['?'] + url.skip(i + 1) =~= url);
        assert forall|j: int| 0 <= j < i implies url.take(i)[j] != '?' by {
            assert(url.take(i)[j] == url[j]);
        }
    }
}

} // verus!
