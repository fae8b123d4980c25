//! The settings file and the list of intranet sites, read from their text.
use vstd::prelude::*;
use crate::host::{SubdomainInfo, SubdomainView};
use crate::number::{decimal, ip_of, ip_string_to_u8_array, is_digit, parse_unsigned, parse_unsigned_range, unsigned_digits};
use crate::pairs::{pairs_map, parse_pairs};
use crate::table::Table;
use crate::text::{chars_of, ranges_mark, split, split_ranges, str_eq};

verus! {

/// The settings of a `.env` text: its lines of `KEY=value`, a later line
/// overriding an earlier one with the same key; lines without `=` are
/// skipped.
pub open spec fn env_of(contents: Seq<char>) -> Map<Seq<char>, Seq<char>> {
    pairs_map(split(contents, '\n'))
}

/// The settings of a `.env` text.
pub fn parse_env(contents: &str) -> (r: Table<String>)
    ensures
        r@ == env_of(contents@),
{
    parse_pairs(contents, '\n')
}

/// The word in the third column that marks a site reached over plain HTTP.
pub open spec fn no_https() -> Seq<char> {
    seq!['n', 'o', 'h', 't', 't', 'p', 's']
}

/// One line of the site list, `name,address[:port][,nohttps]`:
/// `Some(None)` for a line of one column, which is skipped; `None` when
/// the port is not a number from 0 to 65535 or the address is not a dotted
/// IPv4 address.
pub open spec fn site_line(line: Seq<char>) -> Option<Option<(Seq<char>, SubdomainView)>> {
    let parts = split(line, ',');
    if parts.len() == 1 {
        Some(None)
    } else {
        let ip_parts = split(parts[1], ':');
        let port: Option<Option<u16>> = if ip_parts.len() == 1 {
            Some(None)
        } else {
            match parse_unsigned(ip_parts[1], 65535) {
                Some(p) => Some(Some(p as u16)),
                None => None,
            }
        };
        match port {
            None => None,
            Some(port) => match ip_of(ip_parts[0]) {
                None => None,
                Some(ip) => Some(
                    Some(
                        (
                            parts[0],
                            SubdomainView {
                                ip,
                                ip_string: ip_parts[0],
                                port,
                                proxy_use_http: parts.len() > 2 && parts[2] == no_https(),
                            },
                        ),
                    ),
                ),
            },
        }
    }
}

/// The sites of a list of lines, a later line overriding an earlier one
/// with the same name; `None` when a line cannot be read.
pub open spec fn sites_of_lines(lines: Seq<Seq<char>>) -> Option<Map<Seq<char>, SubdomainView>>
    decreases lines.len(),
{
    if lines.len() == 0 {
        Some(Map::empty())
    } else {
        match sites_of_lines(lines.drop_last()) {
            None => None,
            Some(m) => match site_line(lines.last()) {
                None => None,
                Some(None) => Some(m),
                Some(Some((name, site))) => Some(m.insert(name, site)),
            },
        }
    }
}

/// The sites of a site list text, one per line.
pub open spec fn sites_of(contents: Seq<char>) -> Option<Map<Seq<char>, SubdomainView>> {
    sites_of_lines(split(contents, '\n'))
}


/// Every site of a map holds the address that its written address reads
/// as, and its written address holds no `:`.
pub open spec fn addresses_agree(sites: Map<Seq<char>, SubdomainView>) -> bool {
    forall|k: Seq<char>|
        #[trigger] sites.contains_key(k) ==> ip_of(sites[k].ip_string) == Some(sites[k].ip)
            && !sites[k].ip_string.contains(':')
}

proof fn lemma_line_address(line: Seq<char>)
    ensures
        site_line(line) matches Some(Some((name, site))) ==> ip_of(site.ip_string) == Some(site.ip)
            && !site.ip_string.contains(':'),
{
    let parts = split(line, ',');
    if parts.len() != 1 {
        crate::text::lemma_split_nonempty(line, ',');
        crate::text::lemma_split_pieces(parts[1], ':');
        crate::text::lemma_split_nonempty(parts[1], ':');
    }
}

proof fn lemma_lines_addresses(lines: Seq<Seq<char>>)
    ensures
        sites_of_lines(lines) matches Some(m) ==> addresses_agree(m),
    decreases lines.len(),
{
    if lines.len() > 0 {
        lemma_lines_addresses(lines.drop_last());
        lemma_line_address(lines.last());
    }
}

/// Law: each site read from a site list holds the address that its
/// written address reads as, and its written address holds no `:`.
pub proof fn lemma_site_addresses(contents: Seq<char>)
    ensures
        sites_of(contents) matches Some(m) ==> addresses_agree(m),
{
    lemma_lines_addresses(split(contents, '\n'));
}


/// Law: a site read from a line is named by the line's first column, and
/// is marked to be reached over plain HTTP exactly when the line has a
/// third column that is `nohttps`, whatever its address column holds.
pub proof fn lemma_site_line_columns(line: Seq<char>)
    ensures
        site_line(line) matches Some(Some((name, site))) ==> {
            &&& name == split(line, ',')[0]
            &&& site.proxy_use_http <==> (split(line, ',').len() > 2 && split(line, ',')[2]
                == seq!['n', 'o', 'h', 't', 't', 'p', 's'])
        },
{
}

/// The address column of a site line: the address, then a colon and the
/// port's digits when there is a port.
pub open spec fn address_column(addr: Seq<char>, port: Option<nat>) -> Seq<char> {
    match port {
        Some(p) => addr + seq![':'] + decimal(p),
        None => addr,
    }
}

/// A site line written from its parts: the name, the address column and,
/// for a site reached over plain HTTP, a third column `nohttps`.
pub open spec fn written_line(name: Seq<char>, addr: Seq<char>, port: Option<nat>, plain: bool) -> Seq<char> {
    if plain {
        name + seq![','] + address_column(addr, port) + seq![','] + seq!['n', 'o', 'h', 't', 't', 'p', 's']
    } else {
        name + seq![','] + address_column(addr, port)
    }
}

/// Law: a site line written from a name, an address, an optional port and
/// the plain-HTTP mark reads back as that site: the address as the bytes
/// it reads as, the port as written, and the mark as given, whether or
/// not a port is written. A port above 65535, or an address that does not
/// read as one, makes the line unreadable.
pub proof fn lemma_written_line(name: Seq<char>, addr: Seq<char>, port: Option<nat>, plain: bool)
    requires
        !name.contains(','),
        !addr.contains(','),
        !addr.contains(':'),
    ensures
        ({
            let line = written_line(name, addr, port, plain);
            let port_ok = match port {
                Some(p) => p <= 65535,
                None => true,
            };
            &&& port_ok && ip_of(addr) is Some ==> site_line(line) == Some(
                Some(
                    (
                        name,
                        SubdomainView {
                            ip: ip_of(addr)->0,
                            ip_string: addr,
                            port: match port {
                                Some(p) => Some(p as u16),
                                None => None,
                            },
                            proxy_use_http: plain,
                        },
                    ),
                ),
            )
            &&& !(port_ok && ip_of(addr) is Some) ==> site_line(line) is None
        }),
{
    let col = address_column(addr, port);
    let word = seq!['n', 'o', 'h', 't', 't', 'p', 's'];
    let line = written_line(name, addr, port, plain);
    if let Some(p) = port {
        crate::number::lemma_decimal_digits(p);
        let d = decimal(p);
        assert(!d.contains(',') && !d.contains(':')) by {
            if d.contains(',') {
                let j = choose|j: int| 0 <= j < d.len() && d[j] == ',';
                assert(is_digit(d[j]));
            }
            if d.contains(':') {
                let j = choose|j: int| 0 <= j < d.len() && d[j] == ':';
                assert(is_digit(d[j]));
            }
        }
        let cp = seq![addr].push(d);
        assert(crate::text::join(seq![addr], ':') == addr);
        crate::text::lemma_join_push(seq![addr], d, ':');
        assert(crate::text::join(cp, ':') =~= col);
        assert forall|i: int| 0 <= i < cp.len() implies !(#[trigger] cp[i]).contains(':') by {
            if i == 0 {
                assert(cp[i] == addr);
            } else {
                assert(cp[i] == d);
            }
        }
        crate::text::lemma_split_join(cp, ':');
        assert(unsigned_digits(d) == d);
        assert(!col.contains(',')) by {
            if col.contains(',') {
                let j = choose|j: int| 0 <= j < col.len() && col[j] == ',';
                if j < addr.len() {
                    assert(addr[j] == ',');
                } else if j > addr.len() {
                    assert(d[j - addr.len() - 1] == ',');
                }
            }
        }
    } else {
        crate::text::lemma_split_single(addr, ':');
    }
    let parts = if plain {
        seq![name, col, word]
    } else {
        seq![name, col]
    };
    assert(!word.contains(',')) by {
        if word.contains(',') {
            let j = choose|j: int| 0 <= j < word.len() && word[j] == ',';
        }
    }
    assert forall|i: int| 0 <= i < parts.len() implies !(#[trigger] parts[i]).contains(',') by {
        if i == 0 {
            assert(parts[i] == name);
        } else if i == 1 {
            assert(parts[i] == col);
        } else {
            assert(parts[i] == word);
        }
    }
    let p1 = seq![name];
    let p2 = p1.push(col);
    crate::text::lemma_join_push(p1, col, ',');
    if plain {
        crate::text::lemma_join_push(p2, word, ',');
        assert(p2.push(word) =~= parts);
    } else {
        assert(p2 =~= parts);
    }
    assert(crate::text::join(parts, ',') =~= line);
    crate::text::lemma_split_join(parts, ',');
    assert(split(line, ',') == parts);
    assert(split(line, ',')[0] == name);
    assert(split(line, ',')[1] == col);
    if plain {
        assert(split(line, ',')[2] == word);
    }
}

/// The pieces of `s` split at `sep`, as slices of `s`.
fn split_str<'a>(s: &'a str, sep: char) -> (r: Vec<&'a str>)
    ensures
        r@.len() == split(s@, sep).len(),
        forall|k: int| 0 <= k < r@.len() ==> (#[trigger] r@[k])@ == split(s@, sep)[k],
{
    let chars = chars_of(s);
    let ranges = split_ranges(&chars, sep);
    let mut out: Vec<&'a str> = Vec::new();
    let mut i: usize = 0;
    while i < ranges.len()
        invariant
            chars@ == s@,
            ranges_mark(chars@, ranges@, split(s@, sep), chars@.len() as int),
            i <= ranges@.len(),
            out@.len() == i,
            forall|k: int| 0 <= k < i ==> (#[trigger] out@[k])@ == split(s@, sep)[k],
        decreases ranges@.len() - i,
    {
        let (lo, hi) = ranges[i];
        assert(chars@.subrange(lo as int, hi as int) == split(s@, sep)[i as int]);
        out.push(s.substring_char(lo, hi));
        i = i + 1;
    }
    out
}

/// Reads one line of the site list.
fn parse_site_line(line: &str) -> (r: Option<Option<(String, SubdomainInfo)>>)
    ensures
        match site_line(line@) {
            None => r is None,
            Some(None) => r == Some(None::<(String, SubdomainInfo)>),
            Some(Some((name, site))) => r matches Some(Some((n, info))) && n@ == name && info@
                == site,
        },
{
    let parts = split_str(line, ',');
    let ghost sp = split(line@, ',');
    proof {
        crate::text::lemma_split_nonempty(line@, ',');
    }
    if parts.len() == 1 {
        return Some(None);
    }
    let ip_parts = split_str(parts[1], ':');
    let ghost ipp = split(parts@[1]@, ':');
    proof {
        crate::text::lemma_split_nonempty(parts@[1]@, ':');
    }
    assert(parts@[1]@ == sp[1]);
    let port: Option<u16>;
    if ip_parts.len() == 1 {
        port = None;
    } else {
        let chars = chars_of(ip_parts[1]);
        let n = chars.len();
        assert(chars@.subrange(0, n as int) =~= chars@);
        assert(ip_parts@[1]@ == ipp[1]);
        match parse_unsigned_range(&chars, 0, n, 65535) {
            Some(p) => {
                proof {
                    crate::number::lemma_parse_unsigned_bounds(ipp[1], 65535);
                }
                port = Some(p as u16);
            },
            None => {
                return None;
            },
        }
    }
    assert(ip_parts@[0]@ == ipp[0]);
    let ip = match ip_string_to_u8_array(ip_parts[0]) {
        Some(ip) => ip,
        None => {
            return None;
        },
    };
    let ip_string = String::from_str(ip_parts[0]);
    let mut proxy_use_http = false;
    if parts.len() > 2 {
        let word = "nohttps";
        proof {
            reveal_strlit("nohttps");
        }
        assert(word@ =~= no_https());
        assert(parts@[2]@ == sp[2]);
        proxy_use_http = str_eq(parts[2], word);
    }
    assert(parts@[0]@ == sp[0]);
    let name = String::from_str(parts[0]);
    Some(Some((name, SubdomainInfo { ip, ip_string, port, proxy_use_http })))
}

/// The sites of a site list text, one `name,address[:port][,nohttps]` per
/// line; `None` when some line's port or address cannot be read.
pub fn parse_intranet_subdomains(contents: &str) -> (r: Option<Table<SubdomainInfo>>)
    ensures
        match sites_of(contents@) {
            Some(m) => r matches Some(t) && t@ == m,
            None => r is None,
        },
{
    let lines = split_str(contents, '\n');
    let ghost ls = split(contents@, '\n');
    let mut table: Table<SubdomainInfo> = Table::new();
    let mut i: usize = 0;
    assert(ls.take(0) =~= Seq::<Seq<char>>::empty());
    while i < lines.len()
        invariant
            lines@.len() == ls.len(),
            ls == split(contents@, '\n'),
            forall|k: int| 0 <= k < lines@.len() ==> (#[trigger] lines@[k])@ == ls[k],
            i <= lines@.len(),
            sites_of_lines(ls.take(i as int)) == Some(table@),
        decreases lines@.len() - i,
    {
        assert(ls.take(i + 1).drop_last() =~= ls.take(i as int));
        assert(ls.take(i + 1).last() == lines@[i as int]@);
        match parse_site_line(lines[i]) {
            None => {
                proof {
                    lemma_sites_stay_none(ls, i as int + 1);
                }
                assert(ls.take(ls.len() as int) =~= ls);
                return None;
            },
            Some(None) => {},
            Some(Some((name, info))) => {
                table.insert(name, info);
            },
        }
        i = i + 1;
    }
    assert(ls.take(ls.len() as int) =~= ls);
    Some(table)
}

/// Once a line cannot be read, no longer list can be.
proof fn lemma_sites_stay_none(lines: Seq<Seq<char>>, i: int)
    requires
        0 <= i <= lines.len(),
        sites_of_lines(lines.take(i)) is None,
    ensures
        sites_of_lines(lines) is None,
    decreases lines.len() - i,
{
    if i < lines.len() {
        assert(lines.take(i + 1).drop_last() =~= lines.take(i));
        lemma_sites_stay_none(lines, i + 1);
    } else {
        assert(lines.take(i) =~= lines);
    }
}

} // verus!
