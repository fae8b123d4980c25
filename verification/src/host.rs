//! Which address answers a query for a host name: the resolver itself,
//! an intranet site, or nobody here.
use vstd::prelude::*;
use vstd::utf8::{decode_utf8, encode_utf8, is_char_boundary};
use crate::number::{ip_of, ip_string_to_u8_array};
use crate::table::Table;
use crate::text::str_eq;

verus! {

broadcast use vstd::utf8::group_utf8_lib;

/// The length of `s` in bytes of UTF-8.
pub fn byte_len(s: &str) -> (n: usize)
    ensures
        n == encode_utf8(s@).len(),
{
    s.as_bytes().len()
}

/// Whether `s` ends with `suffix`, compared byte by byte in UTF-8 as
/// `str::ends_with` does.
pub open spec fn ends_with(s: Seq<char>, suffix: Seq<char>) -> bool {
    encode_utf8(suffix).is_suffix_of(encode_utf8(s))
}

/// Whether `s` ends with `suffix`.
pub fn str_ends_with(s: &str, suffix: &str) -> (r: bool)
    ensures
        r == ends_with(s@, suffix@),
{
    let a = s.as_bytes();
    let b = suffix.as_bytes();
    let alen = a.len();
    let blen = b.len();
    if blen > alen {
        return false;
    }
    let off = alen - blen;
    let mut i: usize = 0;
    while i < blen
        invariant
            a@ == encode_utf8(s@),
            b@ == encode_utf8(suffix@),
            alen == a@.len(),
            blen == b@.len(),
            off == alen - blen,
            blen <= alen,
            i <= b@.len(),
            forall|j: int| 0 <= j < i ==> b@[j] == a@[off + j],
        decreases b@.len() - i,
    {
        if a[off + i] != b[i] {
            assert(a@.subrange(off as int, a@.len() as int)[i as int] != b@[i as int]);
            return false;
        }
        i = i + 1;
    }
    assert(b@ =~= a@.subrange(off as int, a@.len() as int));
    true
}

/// Where the subdomain part of `host` ends, in bytes, when `host` is a
/// subdomain of `parent`: before the dot that precedes `parent`.
pub open spec fn subdomain_end(host: Seq<char>, parent: Seq<char>) -> int {
    encode_utf8(host).len() - encode_utf8(parent).len() - 1
}

/// Whether the subdomain part of `host` can be cut off before `parent`:
/// there is a byte before `parent`'s length, and the cut falls on a
/// character boundary.
pub open spec fn subdomain_cut_ok(host: Seq<char>, parent: Seq<char>) -> bool {
    &&& encode_utf8(host).len() > encode_utf8(parent).len()
    &&& is_char_boundary(encode_utf8(host), subdomain_end(host, parent))
}

/// The subdomain part of `host`: its text before the last
/// `parent`-length-plus-one bytes.
pub open spec fn subdomain_of(host: Seq<char>, parent: Seq<char>) -> Seq<char> {
    decode_utf8(encode_utf8(host).take(subdomain_end(host, parent)))
}

/// Whether `extract_subdomain` can cut `host` before `intranet_host`.
pub fn can_extract_subdomain(host: &str, intranet_host: &str) -> (r: bool)
    ensures
        r == subdomain_cut_ok(host@, intranet_host@),
{
    let n = byte_len(host);
    let m = byte_len(intranet_host);
    if n <= m {
        return false;
    }
    host.is_char_boundary(n - m - 1)
}

/// The subdomain part of `host`, a subdomain of `intranet_host`: the text
/// before the dot that precedes `intranet_host`.
pub fn extract_subdomain<'a>(host: &'a str, intranet_host: &'a str) -> (r: &'a str)
    requires
        subdomain_cut_ok(host@, intranet_host@),
    ensures
        r@ == subdomain_of(host@, intranet_host@),
        encode_utf8(r@) == encode_utf8(host@).take(subdomain_end(host@, intranet_host@)),
{
    let cut = byte_len(host) - byte_len(intranet_host) - 1;
    let (front, _) = host.split_at(cut);
    assert(encode_utf8(front@) =~= encode_utf8(host@).take(cut as int));
    front
}

/// What is known of one intranet site.
#[derive(Clone, Debug)]
pub struct SubdomainInfo {
    /// The site's address.
    pub ip: [u8; 4],
    /// The site's address as written.
    pub ip_string: String,
    /// The port the site listens on, if not the default.
    pub port: Option<u16>,
    /// Whether the site is reached over plain HTTP rather than HTTPS.
    pub proxy_use_http: bool,
}

/// An intranet site, by plain values.
pub struct SubdomainView {
    pub ip: Seq<u8>,
    pub ip_string: Seq<char>,
    pub port: Option<u16>,
    pub proxy_use_http: bool,
}

impl View for SubdomainInfo {
    type V = SubdomainView;

    open spec fn view(&self) -> SubdomainView {
        SubdomainView {
            ip: self.ip@,
            ip_string: self.ip_string@,
            port: self.port,
            proxy_use_http: self.proxy_use_http,
        }
    }
}

/// Whether `subdomain` is the name of an intranet site.
pub fn is_intranet_subdomain(subdomain: &str, intranet_subdomains: &Table<SubdomainInfo>) -> (r:
    bool)
    ensures
        r == intranet_subdomains@.contains_key(subdomain@),
{
    intranet_subdomains.contains_key(subdomain)
}

/// Why a query gets no address here.
#[derive(Debug, PartialEq, Eq, Structural)]
pub enum QueryError {
    /// A subdomain of the intranet host that names no site.
    NXDomain,
    /// A name outside the intranet, for another resolver to answer.
    NonIntranet,
}

/// The name under which the resolver itself answers: `dns.` before the
/// intranet host.
pub open spec fn resolver_name(intranet_host: Seq<char>) -> Seq<char> {
    seq!['d', 'n', 's', '.'] + intranet_host
}

/// The address that answers a query for `host`:
/// - the resolver's own name gives the resolver's address;
/// - another name ending with the intranet host gives the address of the
///   site its subdomain part names, or `NXDomain`;
/// - the bare name of a site gives the resolver's address, which redirects
///   to the site's intranet name;
/// - anything else is `NonIntranet`.
pub open spec fn dns_answer(
    host: Seq<char>,
    internal_ip: Seq<char>,
    intranet_host: Seq<char>,
    sites: Map<Seq<char>, SubdomainView>,
) -> Result<Seq<u8>, QueryError> {
    if host == resolver_name(intranet_host) {
        Ok(ip_of(internal_ip)->0)
    } else if ends_with(host, intranet_host) {
        let sub = subdomain_of(host, intranet_host);
        if sites.contains_key(sub) {
            Ok(sites[sub].ip)
        } else {
            Err(QueryError::NXDomain)
        }
    } else if sites.contains_key(host) {
        Ok(ip_of(internal_ip)->0)
    } else {
        Err(QueryError::NonIntranet)
    }
}

/// Whether the answer for `host` is the resolver's own address: for the
/// resolver's name, and for the bare name of a site.
pub open spec fn answers_with_own_ip(
    host: Seq<char>,
    intranet_host: Seq<char>,
    sites: Map<Seq<char>, SubdomainView>,
) -> bool {
    host == resolver_name(intranet_host) || (!ends_with(host, intranet_host) && sites.contains_key(
        host,
    ))
}

/// What `do_dns_query` needs to give an answer without failing: where the
/// answer is the resolver's own address, that address is a dotted IPv4
/// address; and a name under the intranet host other than the resolver's
/// own can be cut before it.
pub open spec fn dns_query_ok(
    host: Seq<char>,
    internal_ip: Seq<char>,
    intranet_host: Seq<char>,
    sites: Map<Seq<char>, SubdomainView>,
) -> bool {
    &&& answers_with_own_ip(host, intranet_host, sites) ==> ip_of(internal_ip) is Some
    &&& (host != resolver_name(intranet_host) && ends_with(host, intranet_host))
        ==> subdomain_cut_ok(host, intranet_host)
}

/// Whether `do_dns_query` can answer for `host`.
pub fn can_do_dns_query(
    host: &str,
    internal_ip: &str,
    intranet_host: &str,
    intranet_subdomains: &Table<SubdomainInfo>,
) -> (r: bool)
    ensures
        r == dns_query_ok(host@, internal_ip@, intranet_host@, intranet_subdomains@),
{
    if is_resolver_name(host, intranet_host) {
        return ip_string_to_u8_array(internal_ip).is_some();
    }
    if str_ends_with(host, intranet_host) {
        can_extract_subdomain(host, intranet_host)
    } else if intranet_subdomains.contains_key(host) {
        ip_string_to_u8_array(internal_ip).is_some()
    } else {
        true
    }
}

/// Whether `host` is `dns.` followed by `intranet_host`.
fn is_resolver_name(host: &str, intranet_host: &str) -> (r: bool)
    ensures
        r == (host@ == resolver_name(intranet_host@)),
{
    let prefix = "dns.";
    proof {
        reveal_strlit("dns.");
    }
    let mut name = String::from_str(prefix);
    name.append(intranet_host);
    assert(name@ =~= resolver_name(intranet_host@));
    str_eq(host, name.as_str())
}

/// The address that answers a query for `host` (only A records are
/// answered).
pub fn do_dns_query(
    host: &str,
    internal_ip: String,
    intranet_host: &String,
    intranet_subdomains: &Table<SubdomainInfo>,
) -> (r: Result<[u8; 4], QueryError>)
    requires
        dns_query_ok(host@, internal_ip@, intranet_host@, intranet_subdomains@),
    ensures
        match r {
            Ok(ip) => dns_answer(host@, internal_ip@, intranet_host@, intranet_subdomains@)
                == Ok::<Seq<u8>, QueryError>(ip@),
            Err(e) => dns_answer(host@, internal_ip@, intranet_host@, intranet_subdomains@)
                == Err::<Seq<u8>, QueryError>(e),
        },
{
    if is_resolver_name(host, intranet_host.as_str()) {
        match ip_string_to_u8_array(internal_ip.as_str()) {
            Some(ip) => Ok(ip),
            None => vstd::pervasive::unreached(),
        }
    } else if str_ends_with(host, intranet_host.as_str()) {
        let sub = extract_subdomain(host, intranet_host.as_str());
        match intranet_subdomains.get(sub) {
            Some(info) => Ok(info.ip),
            None => Err(QueryError::NXDomain),
        }
    } else if is_intranet_subdomain(host, intranet_subdomains) {
        match ip_string_to_u8_array(internal_ip.as_str()) {
            Some(ip) => Ok(ip),
            None => vstd::pervasive::unreached(),
        }
    } else {
        Err(QueryError::NonIntranet)
    }
}


/// The UTF-8 bytes of `suffix` are the last bytes of those of `s`, each
/// one compared.
pub open spec fn bytes_end_with(s: Seq<char>, suffix: Seq<char>) -> bool {
    let a = encode_utf8(s);
    let b = encode_utf8(suffix);
    b.len() <= a.len() && forall|j: int| 0 <= j < b.len() ==> #[trigger] b[j] == a[a.len() - b.len() + j]
}

/// Law: `ends_with` holds exactly when every UTF-8 byte of the suffix
/// equals the byte in the same place from the end of the text.
pub proof fn lemma_ends_with_bytes(s: Seq<char>, suffix: Seq<char>)
    ensures
        ends_with(s, suffix) <==> bytes_end_with(s, suffix),
{
    let a = encode_utf8(s);
    let b = encode_utf8(suffix);
    if bytes_end_with(s, suffix) {
        assert(b =~= a.subrange(a.len() - b.len(), a.len() as int));
    }
    if ends_with(s, suffix) {
        assert forall|j: int| 0 <= j < b.len() implies #[trigger] b[j] == a[a.len() - b.len() + j] by {
            assert(b[j] == a.subrange(a.len() - b.len(), a.len() as int)[j]);
        }
    }
}

/// Law: how the kind of a name decides its answer. The resolver's name is
/// answered with the resolver's address. Any other name whose UTF-8 bytes
/// end with those of the intranet host is an intranet name: it gets the
/// address of a site or `NXDomain`, never `NonIntranet`. A name whose
/// bytes do not end so gets the resolver's address when it is a site's
/// bare name, and `NonIntranet` otherwise.
pub proof fn lemma_answer_by_kind(
    host: Seq<char>,
    internal_ip: Seq<char>,
    intranet_host: Seq<char>,
    sites: Map<Seq<char>, SubdomainView>,
)
    ensures
        host == resolver_name(intranet_host) ==> dns_answer(host, internal_ip, intranet_host, sites)
            == Ok::<Seq<u8>, QueryError>(ip_of(internal_ip)->0),
        host != resolver_name(intranet_host) && bytes_end_with(host, intranet_host) ==> (
        dns_answer(host, internal_ip, intranet_host, sites) matches Ok(ip) ==> exists|k: Seq<char>|
            sites.contains_key(k) && sites[k].ip == ip) && dns_answer(
            host,
            internal_ip,
            intranet_host,
            sites,
        ) != Err::<Seq<u8>, QueryError>(QueryError::NonIntranet),
        host != resolver_name(intranet_host) && !bytes_end_with(host, intranet_host) ==> dns_answer(
            host,
            internal_ip,
            intranet_host,
            sites,
        ) == if sites.contains_key(host) {
            Ok::<Seq<u8>, QueryError>(ip_of(internal_ip)->0)
        } else {
            Err(QueryError::NonIntranet)
        },
{
    lemma_ends_with_bytes(host, intranet_host);
}

/// The UTF-8 encoding of two texts one after the other is their encodings
/// one after the other.
pub proof fn lemma_encode_utf8_concat(a: Seq<char>, b: Seq<char>)
    ensures
        encode_utf8(a + b) == encode_utf8(a) + encode_utf8(b),
    decreases a.len(),
{
    if a.len() > 0 {
        lemma_encode_utf8_concat(a.drop_first(), b);
        assert((a + b).drop_first() =~= a.drop_first() + b);
        assert((a + b)[0] == a[0]);
        let e = vstd::utf8::encode_scalar(a[0] as u32);
        assert(e + (encode_utf8(a.drop_first()) + encode_utf8(b)) =~= (e + encode_utf8(
            a.drop_first(),
        )) + encode_utf8(b));
    } else {
        assert(a + b =~= b);
        assert(encode_utf8(a) + encode_utf8(b) =~= encode_utf8(b));
    }
}

/// The intranet name of a site: its name, a dot, and the intranet host.
pub open spec fn site_host(site: Seq<char>, intranet_host: Seq<char>) -> Seq<char> {
    site + seq!['.'] + intranet_host
}

/// Law: the intranet name of a site ends with the intranet host, can be
/// cut before it, and its subdomain part is the site's name.
pub proof fn lemma_site_host(site: Seq<char>, intranet_host: Seq<char>)
    ensures
        ends_with(site_host(site, intranet_host), intranet_host),
        subdomain_cut_ok(site_host(site, intranet_host), intranet_host),
        subdomain_of(site_host(site, intranet_host), intranet_host) == site,
{
    let host = site_host(site, intranet_host);
    lemma_encode_utf8_concat(site + seq!['.'], intranet_host);
    lemma_encode_utf8_concat(site, seq!['.']);
    let es = encode_utf8(site);
    let dot = encode_utf8(seq!['.']);
    let ei = encode_utf8(intranet_host);
    assert(dot =~= seq![46u8]) by {
        assert(seq!['.'].drop_first() =~= Seq::<char>::empty());
        assert(('.' as u32) == 46);
        assert((46u32 & 0x7Fu32) as u8 == 46u8) by (bit_vector);
        assert(vstd::utf8::encode_scalar(46u32) =~= seq![46u8]);
        assert(seq!['.'][0] == '.');
        assert(encode_utf8(Seq::<char>::empty()) =~= Seq::<u8>::empty());
        assert(encode_utf8(seq!['.']) == vstd::utf8::encode_scalar(46u32) + encode_utf8(
            seq!['.'].drop_first(),
        ));
    }
    let eh = encode_utf8(host);
    assert(eh == es + dot + ei);
    assert(ei =~= eh.subrange(eh.len() - ei.len(), eh.len() as int));
    let cut = es.len() as int;
    assert(subdomain_end(host, intranet_host) == cut);
    assert(eh[cut] == 46u8);
    vstd::utf8::is_char_boundary_iff_not_is_continuation_byte(eh, cut);
    assert(!vstd::utf8::is_continuation_byte(46u8)) by (bit_vector);
    assert(eh.take(cut) =~= es);
}

/// Law: a query for a name of the form `<sub>.<intranet host>` (with
/// `sub` other than `dns`, which gives the resolver's name) can be
/// answered without failing, whatever the resolver's own address, and is
/// answered with the address of the site named `sub`, or `NXDomain` when
/// there is none.
pub proof fn lemma_site_answer(
    site: Seq<char>,
    internal_ip: Seq<char>,
    intranet_host: Seq<char>,
    sites: Map<Seq<char>, SubdomainView>,
)
    requires
        site != seq!['d', 'n', 's'],
    ensures
        dns_answer(site_host(site, intranet_host), internal_ip, intranet_host, sites) == if sites.contains_key(site) {
            Ok::<Seq<u8>, QueryError>(sites[site].ip)
        } else {
            Err(QueryError::NXDomain)
        },
        dns_query_ok(site_host(site, intranet_host), internal_ip, intranet_host, sites),
{
    let host = site_host(site, intranet_host);
    lemma_site_host(site, intranet_host);
    if host == resolver_name(intranet_host) {
        assert(host.len() == site.len() + 1 + intranet_host.len());
        assert(site =~= host.take(site.len() as int));
        assert(resolver_name(intranet_host).take(3) =~= seq!['d', 'n', 's']);
    }
}

} // verus!
