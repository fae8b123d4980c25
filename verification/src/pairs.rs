//! `key=value` records separated by one character, as in `.env` files and
//! URL query strings.
use vstd::prelude::*;
use crate::table::Table;
use crate::text::{after_first, before_first, chars_of, find_in_range, ranges_mark, split, split_ranges, string_of_range};

verus! {

/// The key and value of one record: the text before and after its first
/// `=`. A record without `=` holds no pair.
pub open spec fn pair_of(record: Seq<char>) -> Option<(Seq<char>, Seq<char>)> {
    match after_first(record, '=') {
        Some(value) => Some((before_first(record, '='), value)),
        None => None,
    }
}

/// The map that a list of records gives, a later record overriding an
/// earlier one with the same key.
pub open spec fn pairs_map(records: Seq<Seq<char>>) -> Map<Seq<char>, Seq<char>>
    decreases records.len(),
{
    if records.len() == 0 {
        Map::empty()
    } else {
        let m = pairs_map(records.drop_last());
        match pair_of(records.last()) {
            Some((k, v)) => m.insert(k, v),
            None => m,
        }
    }
}


/// The value of the last of `records` whose key is `key`, if any.
pub open spec fn last_value(records: Seq<Seq<char>>, key: Seq<char>) -> Option<Seq<char>>
    decreases records.len(),
{
    if records.len() == 0 {
        None
    } else {
        match pair_of(records.last()) {
            Some((k, v)) => if k == key {
                Some(v)
            } else {
                last_value(records.drop_last(), key)
            },
            None => last_value(records.drop_last(), key),
        }
    }
}

/// Law: a key's value in the map is the value of the last record with
/// that key, and a key that no record has is not in the map.
pub proof fn lemma_last_record_wins(records: Seq<Seq<char>>, key: Seq<char>)
    ensures
        match last_value(records, key) {
            Some(v) => pairs_map(records).contains_key(key) && pairs_map(records)[key] == v,
            None => !pairs_map(records).contains_key(key),
        },
    decreases records.len(),
{
    if records.len() > 0 {
        lemma_last_record_wins(records.drop_last(), key);
    }
}

/// Law: a record splits at its first `=`: a key without `=`, an `=` and
/// any value give back that key and that value; a record with no `=` at
/// all holds no pair.
pub proof fn lemma_pair_of(record: Seq<char>, key: Seq<char>, value: Seq<char>)
    ensures
        !key.contains('=') ==> pair_of(key + seq!['='] + value) == Some((key, value)),
        !record.contains('=') ==> pair_of(record) is None,
{
    let r = key + seq!['='] + value;
    if !key.contains('=') {
        assert forall|j: int| 0 <= j < key.len() implies r[j] != '=' by {
            assert(r[j] == key[j]);
        }
        assert(r[key.len() as int] == '=');
        crate::text::lemma_find_at(r, '=', key.len() as int);
        assert(r.take(key.len() as int) =~= key);
        assert(r.skip(key.len() as int + 1) =~= value);
    }
    if !record.contains('=') {
        crate::text::lemma_find_at(record, '=', record.len() as int);
    }
}

/// The `key=value` records of `text`, split at `sep`, collected into a map.
pub fn parse_pairs(text: &str, sep: char) -> (r: Table<String>)
    ensures
        r@ == pairs_map(split(text@, sep)),
{
    let chars = chars_of(text);
    let ranges = split_ranges(&chars, sep);
    let ghost records = split(chars@, sep);
    let mut table: Table<String> = Table::new();
    let mut i: usize = 0;
    assert(records.take(0) =~= Seq::<Seq<char>>::empty());
    while i < ranges.len()
        invariant
            chars@ == text@,
            records == split(chars@, sep),
            ranges_mark(chars@, ranges@, records, chars@.len() as int),
            i <= ranges@.len(),
            table@ == pairs_map(records.take(i as int)),
        decreases ranges@.len() - i,
    {
        let (lo, hi) = ranges[i];
        let ghost rec = chars@.subrange(lo as int, hi as int);
        assert(rec == records[i as int]);
        assert(records.take(i + 1).drop_last() =~= records.take(i as int));
        assert(records.take(i + 1).last() == rec);
        match find_in_range(&chars, lo, hi, '=') {
            Some(eq) => {
                let key = string_of_range(&chars, lo, eq);
                let value = string_of_range(&chars, eq + 1, hi);
                assert(key@ =~= rec.take(eq - lo));
                assert(value@ =~= rec.skip(eq - lo + 1));
                assert(pair_of(rec) == Some((key@, value@)));
                table.insert(key, value);
            },
            None => {
                assert(pair_of(rec) is None);
            },
        }
        i = i + 1;
    }
    assert(records.take(ranges@.len() as int) =~= records);
    table
}

} // verus!
