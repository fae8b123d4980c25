//! What the server does with a request: the DNS-over-HTTPS endpoint of
//! the resolver, the reverse proxy to intranet sites, and redirects from
//! bare site names. The sending and receiving is left to the caller, which
//! performs the step chosen here and hands back what it got.
use vstd::prelude::*;
use crate::base64::{b64_decode, b64_url_to_u8_vec};
use crate::host::{
    dns_answer, dns_query_ok, do_dns_query, ends_with, extract_subdomain, resolver_name,
    str_ends_with, subdomain_cut_ok, subdomain_of, can_do_dns_query, can_extract_subdomain,
    QueryError, SubdomainInfo, SubdomainView,
};
use crate::name::{
    extract_host_from_dns_query, label_bytes, query_hostname_to_label_bytes, walk,
    Walk, POINTER_DEPTH, QUESTION_START,
};
use crate::number::{decimal, ip_of, ip_string_to_u8_array, push_decimal};
use crate::table::Table;
use crate::text::{join, push_char, str_eq};
use crate::url::{get_path, get_queries, queries_of};
use vstd::string::StringExecFns;

verus! {

/// The port the server listens on.
pub const PORT: u16 = 443;

/// The first twelve bytes of a reply that answers the question: no id,
/// a response that recursion was available for, one question, one answer.
pub open spec fn answer_header() -> Seq<u8> {
    seq![0u8, 0u8, 129u8, 128u8, 0u8, 1u8, 0u8, 1u8, 0u8, 0u8, 0u8, 0u8]
}

/// The reply to a query for `host` with the address `ip`: the header, the
/// question repeated (type A, class IN), and one answer whose name points
/// back at the question's, of type A, class IN, valid for 600 seconds,
/// holding the four bytes of `ip`.
pub open spec fn answer_reply(host: Seq<char>, ip: Seq<u8>) -> Seq<u8> {
    answer_header() + label_bytes(host) + seq![
        0u8,
        1u8,
        0u8,
        1u8,
        192u8,
        12u8,
        0u8,
        1u8,
        0u8,
        1u8,
        0u8,
        0u8,
        2u8,
        88u8,
        0u8,
        4u8,
    ] + ip
}

/// The reply that says the name does not exist (NXDOMAIN, no answer).
pub open spec fn nxdomain_reply() -> Seq<u8> {
    seq![0u8, 0u8, 3u8, 128u8, 0u8, 0u8, 0u8, 0u8, 0u8, 0u8, 0u8, 0u8]
}

/// The reply that says the server failed (SERVFAIL, no answer).
pub open spec fn servfail_reply() -> Seq<u8> {
    seq![0u8, 0u8, 2u8, 128u8, 0u8, 0u8, 0u8, 0u8, 0u8, 0u8, 0u8, 0u8]
}

/// The address given out for `ip`: browsers refuse DNS-over-HTTPS answers
/// in 192.168.0.0/16, so those sites are given the resolver's own address
/// and reached through its proxy.
pub open spec fn given_ip(ip: Seq<u8>, internal: Seq<u8>) -> Seq<u8> {
    if ip[0] == 192 && ip[1] == 168 {
        internal
    } else {
        ip
    }
}

/// The reply to a query for `host` with the address `ip`.
pub fn answer_bytes(host: &str, ip: [u8; 4]) -> (r: Vec<u8>)
    ensures
        r@ == answer_reply(host@, ip@),
{
    let mut out: Vec<u8> = vec![0, 0, 129, 128, 0, 1, 0, 1, 0, 0, 0, 0];
    let mut labels = query_hostname_to_label_bytes(host);
    out.append(&mut labels);
    let tail: [u8; 16] = [0, 1, 0, 1, 192, 12, 0, 1, 0, 1, 0, 0, 2, 88, 0, 4];
    let mut i: usize = 0;
    let ghost base = out@;
    while i < 16
        invariant
            i <= 16,
            out@ == base + tail@.take(i as int),
        decreases 16 - i,
    {
        out.push(tail[i]);
        i = i + 1;
        assert(out@ =~= base + tail@.take(i as int));
    }
    let mut j: usize = 0;
    let ghost base2 = out@;
    while j < 4
        invariant
            j <= 4,
            out@ == base2 + ip@.take(j as int),
        decreases 4 - j,
    {
        out.push(ip[j]);
        j = j + 1;
        assert(out@ =~= base2 + ip@.take(j as int));
    }
    assert(tail@.take(16) =~= seq![0u8, 1, 0, 1, 192, 12, 0, 1, 0, 1, 0, 0, 2, 88, 0, 4]);
    assert(ip@.take(4) =~= ip@);
    assert(out@ =~= answer_reply(host@, ip@));
    out
}

/// The NXDOMAIN reply.
pub fn nxdomain_bytes() -> (r: Vec<u8>)
    ensures
        r@ == nxdomain_reply(),
{
    let r: Vec<u8> = vec![0, 0, 3, 128, 0, 0, 0, 0, 0, 0, 0, 0];
    assert(r@ =~= nxdomain_reply());
    r
}

/// The SERVFAIL reply, sent when the resolver for other names cannot be
/// reached.
pub fn servfail_bytes() -> (r: Vec<u8>)
    ensures
        r@ == servfail_reply(),
{
    let r: Vec<u8> = vec![0, 0, 2, 128, 0, 0, 0, 0, 0, 0, 0, 0];
    assert(r@ =~= servfail_reply());
    r
}

/// The server's settings: the intranet's domain, the resolver's own
/// address, and the intranet sites.
pub struct Config {
    pub intranet_host: String,
    pub internal_ip: String,
    pub subdomains: Table<SubdomainInfo>,
}

/// The server's settings, by plain values.
pub struct ConfigView {
    pub intranet_host: Seq<char>,
    pub internal_ip: Seq<char>,
    pub subdomains: Map<Seq<char>, SubdomainView>,
}

impl View for Config {
    type V = ConfigView;

    open spec fn view(&self) -> ConfigView {
        ConfigView {
            intranet_host: self.intranet_host@,
            internal_ip: self.internal_ip@,
            subdomains: self.subdomains@,
        }
    }
}

/// What becomes of a DNS query.
pub enum DnsAction {
    /// The query names no host that can be read: 400 Bad Request.
    Reject,
    /// Send these bytes back as the DNS reply.
    Reply(Vec<u8>),
    /// Pass the query on to the resolver for names outside the intranet,
    /// and send back its reply (SERVFAIL when it cannot be reached).
    Forward,
}

/// What becomes of a DNS query, by plain values.
pub enum DnsActionView {
    Reject,
    Reply(Seq<u8>),
    Forward,
}

impl View for DnsAction {
    type V = DnsActionView;

    open spec fn view(&self) -> DnsActionView {
        match self {
            DnsAction::Reject => DnsActionView::Reject,
            DnsAction::Reply(b) => DnsActionView::Reply(b@),
            DnsAction::Forward => DnsActionView::Forward,
        }
    }
}

/// What becomes of a query for `host`.
pub open spec fn host_action(cfg: ConfigView, host: Seq<char>) -> DnsActionView {
    match dns_answer(host, cfg.internal_ip, cfg.intranet_host, cfg.subdomains) {
        Ok(ip) => DnsActionView::Reply(answer_reply(host, given_ip(ip, ip_of(cfg.internal_ip)->0))),
        Err(QueryError::NXDomain) => DnsActionView::Reply(nxdomain_reply()),
        Err(QueryError::NonIntranet) => DnsActionView::Forward,
    }
}

/// The host name a DNS query asks for, if it can be read.
pub open spec fn query_host(query: Seq<u8>) -> Option<Seq<char>> {
    match walk(query, QUESTION_START as int, POINTER_DEPTH as nat) {
        Walk::Labels(labels) => Some(join(labels, '.')),
        _ => None,
    }
}

/// What becomes of a DNS query: rejected when no host name can be read
/// from it, else as `host_action` says.
pub open spec fn dns_action(cfg: ConfigView, query: Seq<u8>) -> DnsActionView {
    match query_host(query) {
        Some(host) => host_action(cfg, host),
        None => DnsActionView::Reject,
    }
}

/// What `answer_host` needs: `do_dns_query` can answer for `host`, and
/// where it answers with an address in 192.168.0.0/16, which is replaced
/// by the resolver's own, that address is a dotted IPv4 address.
pub open spec fn host_answer_ok(cfg: ConfigView, host: Seq<char>) -> bool {
    &&& dns_query_ok(host, cfg.internal_ip, cfg.intranet_host, cfg.subdomains)
    &&& (dns_answer(host, cfg.internal_ip, cfg.intranet_host, cfg.subdomains) matches Ok(ip) && ip[0]
        == 192 && ip[1] == 168) ==> ip_of(cfg.internal_ip) is Some
}

/// What `answer_query` needs: a host name read from the query can be
/// answered without failing.
pub open spec fn answer_query_ok(cfg: ConfigView, query: Seq<u8>) -> bool {
    query_host(query) matches Some(host) ==> host_answer_ok(cfg, host)
}

/// Whether `answer_host` can answer for `host`.
pub fn can_answer_host(cfg: &Config, host: &str) -> (r: bool)
    ensures
        r == host_answer_ok(cfg@, host@),
{
    if !can_do_dns_query(host, cfg.internal_ip.as_str(), cfg.intranet_host.as_str(), &cfg.subdomains) {
        return false;
    }
    match do_dns_query(host, cfg.internal_ip.clone(), &cfg.intranet_host, &cfg.subdomains) {
        Ok(ip) => {
            if ip[0] == 192 && ip[1] == 168 {
                ip_string_to_u8_array(cfg.internal_ip.as_str()).is_some()
            } else {
                true
            }
        },
        Err(_) => true,
    }
}

/// The reply to a query for `host`.
pub fn answer_host(cfg: &Config, host: &str) -> (r: DnsAction)
    requires
        host_answer_ok(cfg@, host@),
    ensures
        r@ == host_action(cfg@, host@),
{
    match do_dns_query(host, cfg.internal_ip.clone(), &cfg.intranet_host, &cfg.subdomains) {
        Ok(ip) => {
            let mut given = ip;
            if ip[0] == 192 && ip[1] == 168 {
                match ip_string_to_u8_array(cfg.internal_ip.as_str()) {
                    Some(own) => {
                        given = own;
                    },
                    None => {
                        return vstd::pervasive::unreached();
                    },
                }
            }
            DnsAction::Reply(answer_bytes(host, given))
        },
        Err(QueryError::NXDomain) => DnsAction::Reply(nxdomain_bytes()),
        Err(QueryError::NonIntranet) => DnsAction::Forward,
    }
}

/// Whether `answer_query` can handle `query`.
pub fn can_answer_query(cfg: &Config, query: &[u8]) -> (r: bool)
    ensures
        r == answer_query_ok(cfg@, query@),
{
    match extract_host_from_dns_query(query, None) {
        Ok(host) => can_answer_host(cfg, host.as_str()),
        Err(_) => true,
    }
}

/// What becomes of a DNS query.
pub fn answer_query(cfg: &Config, query: &[u8]) -> (r: DnsAction)
    requires
        answer_query_ok(cfg@, query@),
    ensures
        r@ == dns_action(cfg@, query@),
{
    match extract_host_from_dns_query(query, None) {
        Ok(host) => answer_host(cfg, host.as_str()),
        Err(_) => DnsAction::Reject,
    }
}

/// A header of a request: its field name as sent, and its value.
pub struct Header {
    pub field: String,
    pub value: String,
}

/// The value of the first header whose field is exactly `name`.
pub open spec fn header_value(headers: Seq<Header>, name: Seq<char>) -> Option<Seq<char>>
    decreases headers.len(),
{
    if headers.len() == 0 {
        None
    } else if headers[0].field@ == name {
        Some(headers[0].value@)
    } else {
        header_value(headers.drop_first(), name)
    }
}

/// The value of the first header whose field is exactly `find_header`.
pub fn get_header(find_header: String, headers: &[Header]) -> (r: Option<String>)
    ensures
        match header_value(headers@, find_header@) {
            Some(v) => r matches Some(s) && s@ == v,
            None => r is None,
        },
{
    let mut i: usize = 0;
    assert(headers@.skip(0) =~= headers@);
    while i < headers.len()
        invariant
            i <= headers@.len(),
            header_value(headers@, find_header@) == header_value(
                headers@.skip(i as int),
                find_header@,
            ),
        decreases headers@.len() - i,
    {
        let ghost rest = headers@.skip(i as int);
        assert(rest[0] == headers@[i as int]);
        assert(rest.drop_first() =~= headers@.skip(i + 1));
        if str_eq(headers[i].field.as_str(), find_header.as_str()) {
            return Some(headers[i].value.clone());
        }
        i = i + 1;
    }
    None
}

/// Law: the value found for a field is that of the first header with
/// exactly that field, and there is none when no header has it.
pub proof fn lemma_first_header(headers: Seq<Header>, name: Seq<char>, i: int)
    ensures
        0 <= i < headers.len() && headers[i].field@ == name && (forall|j: int|
            0 <= j < i ==> (#[trigger] headers[j]).field@ != name) ==> header_value(headers, name)
            == Some(headers[i].value@),
        (forall|j: int| 0 <= j < headers.len() ==> (#[trigger] headers[j]).field@ != name)
            ==> header_value(headers, name) is None,
    decreases headers.len(),
{
    if headers.len() > 0 {
        let rest = headers.drop_first();
        if 0 < i < headers.len() && headers[i].field@ == name && (forall|j: int|
            0 <= j < i ==> (#[trigger] headers[j]).field@ != name) {
            assert(headers[0].field@ != name);
            assert(rest[i - 1] == headers[i]);
            assert forall|j: int| 0 <= j < i - 1 implies (#[trigger] rest[j]).field@ != name by {
                assert(rest[j] == headers[j + 1]);
            }
        }
        lemma_first_header(rest, name, i - 1);
        if forall|j: int| 0 <= j < headers.len() ==> (#[trigger] headers[j]).field@ != name {
            assert(headers[0].field@ != name);
            assert forall|j: int| 0 <= j < rest.len() implies (#[trigger] rest[j]).field@ != name by {
                assert(rest[j] == headers[j + 1]);
            }
        }
    }
}

/// The request methods that the server tells apart.
#[derive(Clone, Copy, Debug, PartialEq, Eq, Structural)]
pub enum Method {
    Get,
    Post,
    Options,
    Other,
}

/// The next step for a request.
pub enum Route {
    /// Send an empty response with this status.
    Empty(u16),
    /// Send an empty 200 response with the DNS message content headers.
    DnsOptions,
    /// Answer this DNS query (from a GET request) as `answer_query` says.
    Answer(Vec<u8>),
    /// Read the request's body and answer it as a DNS query.
    ReadBody,
    /// Send a 301 response that moves the client to this location.
    Redirect(String),
    /// Pass the request on to this URL and send back the site's response.
    Proxy(String),
}

/// The next step for a request, by plain values.
pub enum RouteView {
    Empty(u16),
    DnsOptions,
    Answer(Seq<u8>),
    ReadBody,
    Redirect(Seq<char>),
    Proxy(Seq<char>),
}

impl View for Route {
    type V = RouteView;

    open spec fn view(&self) -> RouteView {
        match self {
            Route::Empty(s) => RouteView::Empty(*s),
            Route::DnsOptions => RouteView::DnsOptions,
            Route::Answer(q) => RouteView::Answer(q@),
            Route::ReadBody => RouteView::ReadBody,
            Route::Redirect(l) => RouteView::Redirect(l@),
            Route::Proxy(u) => RouteView::Proxy(u@),
        }
    }
}

/// The name under which the resolver is asked for, with or without the
/// port.
pub open spec fn is_resolver_host(host: Seq<char>, intranet_host: Seq<char>) -> bool {
    host == resolver_name(intranet_host) || host == resolver_name(intranet_host) + seq![
        ':',
        '4',
        '4',
        '3',
    ]
}

/// The DNS-over-HTTPS path.
pub open spec fn dns_query_path() -> Seq<char> {
    seq!['/', 'd', 'n', 's', '-', 'q', 'u', 'e', 'r', 'y']
}

/// The media type of a DNS message.
pub open spec fn dns_message_type() -> Seq<char> {
    "application/dns-message"@
}

/// The URL at which a request for `path` reaches `site`.
pub open spec fn site_url(site: SubdomainView, path: Seq<char>) -> Seq<char> {
    let protocol = if site.proxy_use_http {
        "http://"@
    } else {
        "https://"@
    };
    let port = match site.port {
        Some(p) => seq![':'] + decimal(p as nat),
        None => Seq::empty(),
    };
    protocol + site.ip_string + port + path
}


/// How many characters the scheme of a site's URL takes: `http://` or
/// `https://`.
pub open spec fn scheme_len(site: SubdomainView) -> int {
    if site.proxy_use_http {
        7
    } else {
        8
    }
}

/// Law: the URL at which a site is reached begins with `http://` when
/// the site is marked to be reached over plain HTTP, and with `https://`
/// otherwise, whether or not it has a port; then come the site's written
/// address and, when the site has a port, a colon and its digits, and the
/// URL ends with the request's path.
pub proof fn lemma_site_url(site: SubdomainView, path: Seq<char>)
    ensures
        site.proxy_use_http ==> site_url(site, path).take(7) == seq!['h', 't', 't', 'p', ':', '/', '/'],
        !site.proxy_use_http ==> site_url(site, path).take(8) == seq![
            'h',
            't',
            't',
            'p',
            's',
            ':',
            '/',
            '/',
        ],
        site_url(site, path).subrange(
            scheme_len(site),
            scheme_len(site) + site.ip_string.len(),
        ) == site.ip_string,
        site.port matches Some(p) ==> site_url(site, path)[scheme_len(site) + site.ip_string.len()] == ':',
        site.port matches Some(p) ==> crate::number::parse_unsigned(
            site_url(site, path).subrange(
                scheme_len(site) + site.ip_string.len() + 1,
                site_url(site, path).len() - path.len(),
            ),
            65535,
        ) == Some(p as int),
        site.port is None ==> site_url(site, path).len() == scheme_len(site) + site.ip_string.len() + path.len(),
        site_url(site, path).skip(site_url(site, path).len() - path.len()) == path,
{
    reveal_strlit("http://");
    reveal_strlit("https://");
    let u = site_url(site, path);
    let n: int = scheme_len(site);
    let scheme = if site.proxy_use_http {
        "http://"@
    } else {
        "https://"@
    };
    let port = match site.port {
        Some(p) => seq![':'] + decimal(p as nat),
        None => Seq::empty(),
    };
    assert(u == scheme + site.ip_string + port + path);
    assert(scheme.len() == n);
    assert(u.take(n) =~= scheme);
    assert(u.subrange(n, n + site.ip_string.len()) =~= site.ip_string);
    assert(u.skip(u.len() - path.len()) =~= path);
    if let Some(p) = site.port {
        assert(u[n + site.ip_string.len()] == port[0]);
        crate::number::lemma_decimal_round_trip(p as nat, 65535);
        assert(u.subrange(n + site.ip_string.len() + 1, u.len() - path.len()) =~= decimal(p as nat));
    }
}

/// The next step for a request:
/// - without a `Host` header: 400;
/// - for the resolver's own name: at `/dns-query`, a GET answers the query
///   in its base64 `dns` parameter (400 without one that decodes), a POST
///   of a DNS message answers its body (400 for another content type), an
///   OPTIONS gets the DNS message headers and another method 405; at any
///   other path, 404;
/// - for a name under the intranet host: the site its subdomain part
///   names gets the request passed on, an unknown one 421;
/// - for the bare name of a site: a redirect to its intranet name;
/// - for anything else: 421.
pub open spec fn route_of(
    cfg: ConfigView,
    method: Method,
    url: Seq<char>,
    headers: Seq<Header>,
) -> RouteView {
    let path = crate::text::before_first(url, '?');
    match header_value(headers, "Host"@) {
        None => RouteView::Empty(400),
        Some(host) => if is_resolver_host(host, cfg.intranet_host) {
            if path == dns_query_path() {
                match method {
                    Method::Get => match queries_of(url).get("dns"@) {
                        Some(encoded) => match b64_decode(encoded) {
                            Some(query) => RouteView::Answer(query),
                            None => RouteView::Empty(400),
                        },
                        None => RouteView::Empty(400),
                    },
                    Method::Post => if header_value(headers, "Content-Type"@) == Some(
                        dns_message_type(),
                    ) {
                        RouteView::ReadBody
                    } else {
                        RouteView::Empty(400)
                    },
                    Method::Options => RouteView::DnsOptions,
                    Method::Other => RouteView::Empty(405),
                }
            } else {
                RouteView::Empty(404)
            }
        } else if ends_with(host, cfg.intranet_host) {
            let sub = subdomain_of(host, cfg.intranet_host);
            if cfg.subdomains.contains_key(sub) {
                RouteView::Proxy(site_url(cfg.subdomains[sub], path))
            } else {
                RouteView::Empty(421)
            }
        } else if cfg.subdomains.contains_key(host) {
            RouteView::Redirect("https://"@ + host + seq!['.'] + cfg.intranet_host)
        } else {
            RouteView::Empty(421)
        },
    }
}

/// What `route` needs: a `Host` under the intranet host, other than the
/// resolver's, can be cut before it.
pub open spec fn route_ok(cfg: ConfigView, headers: Seq<Header>) -> bool {
    header_value(headers, "Host"@) matches Some(host) ==> (!is_resolver_host(
        host,
        cfg.intranet_host,
    ) && ends_with(host, cfg.intranet_host) ==> subdomain_cut_ok(host, cfg.intranet_host))
}


/// Whether `route` can handle a request with these headers.
pub fn can_route(cfg: &Config, headers: &[Header]) -> (r: bool)
    ensures
        r == route_ok(cfg@, headers@),
{
    proof {
        reveal_strlit("Host");
        reveal_strlit(":443");
        reveal_strlit("dns.");
    }
    let host = match get_header(String::from_str("Host"), headers) {
        Some(h) => h,
        None => {
            return true;
        },
    };
    let mut resolver = String::from_str("dns.");
    resolver.append(cfg.intranet_host.as_str());
    assert(resolver@ =~= resolver_name(cfg.intranet_host@));
    let mut resolver_port = resolver.clone();
    resolver_port.append(":443");
    assert(":443"@ =~= seq![':', '4', '4', '3']);
    if str_eq(host.as_str(), resolver.as_str()) || str_eq(host.as_str(), resolver_port.as_str()) {
        true
    } else if str_ends_with(host.as_str(), cfg.intranet_host.as_str()) {
        can_extract_subdomain(host.as_str(), cfg.intranet_host.as_str())
    } else {
        true
    }
}

/// The next step for a request.
pub fn route(cfg: &Config, method: Method, url: &str, headers: &[Header]) -> (r: Route)
    requires
        route_ok(cfg@, headers@),
    ensures
        r@ == route_of(cfg@, method, url@, headers@),
{
    let host_field = "Host";
    let content_type = "Content-Type";
    let dns_type = "application/dns-message";
    let dns_path = "/dns-query";
    let dns_param = "dns";
    let port_suffix = ":443";
    proof {
        reveal_strlit("Host");
        reveal_strlit("Content-Type");
        reveal_strlit("application/dns-message");
        reveal_strlit("/dns-query");
        reveal_strlit("dns");
        reveal_strlit(":443");
    }
    let path = get_path(url);
    let host = match get_header(String::from_str(host_field), headers) {
        Some(h) => h,
        None => {
            return Route::Empty(400);
        },
    };
    let mut resolver = String::from_str("dns.");
    proof {
        reveal_strlit("dns.");
    }
    resolver.append(cfg.intranet_host.as_str());
    assert(resolver@ =~= resolver_name(cfg.intranet_host@));
    let mut resolver_port = resolver.clone();
    resolver_port.append(port_suffix);
    assert(port_suffix@ =~= seq![':', '4', '4', '3']);
    if str_eq(host.as_str(), resolver.as_str()) || str_eq(host.as_str(), resolver_port.as_str()) {
        assert(dns_path@ =~= dns_query_path());
        if !str_eq(path, dns_path) {
            return Route::Empty(404);
        }
        match method {
            Method::Get => {
                let queries = get_queries(url);
                match queries.get(dns_param) {
                    Some(encoded) => match b64_url_to_u8_vec(encoded.as_str()) {
                        Ok(query) => Route::Answer(query),
                        Err(_) => Route::Empty(400),
                    },
                    None => Route::Empty(400),
                }
            },
            Method::Post => {
                match get_header(String::from_str(content_type), headers) {
                    Some(ct) => {
                        if str_eq(ct.as_str(), dns_type) {
                            Route::ReadBody
                        } else {
                            Route::Empty(400)
                        }
                    },
                    None => Route::Empty(400),
                }
            },
            Method::Options => Route::DnsOptions,
            Method::Other => Route::Empty(405),
        }
    } else if str_ends_with(host.as_str(), cfg.intranet_host.as_str()) {
        let sub = extract_subdomain(host.as_str(), cfg.intranet_host.as_str());
        match cfg.subdomains.get(sub) {
            Some(info) => {
                let mut url_out = if info.proxy_use_http {
                    proof {
                        reveal_strlit("http://");
                    }
                    String::from_str("http://")
                } else {
                    proof {
                        reveal_strlit("https://");
                    }
                    String::from_str("https://")
                };
                url_out.append(info.ip_string.as_str());
                match info.port {
                    Some(p) => {
                        push_char(&mut url_out, ':');
                        push_decimal(&mut url_out, p as u64);
                    },
                    None => {},
                }
                url_out.append(path);
                assert(url_out@ =~= site_url(cfg.subdomains@[subdomain_of(host@, cfg.intranet_host@)], path@));
                Route::Proxy(url_out)
            },
            None => Route::Empty(421),
        }
    } else if cfg.subdomains.contains_key(host.as_str()) {
        proof {
            reveal_strlit("https://");
        }
        let mut location = String::from_str("https://");
        location.append(host.as_str());
        push_char(&mut location, '.');
        location.append(cfg.intranet_host.as_str());
        assert(location@ =~= "https://"@ + host@ + seq!['.'] + cfg.intranet_host@);
        Route::Redirect(location)
    } else {
        Route::Empty(421)
    }
}

/// The address the resolver gives for a site: the site's own, or the
/// resolver's for a site in 192.168.0.0/16.
pub open spec fn site_reply(cfg: ConfigView, site: Seq<char>) -> Seq<u8> {
    answer_reply(
        crate::host::site_host(site, cfg.intranet_host),
        given_ip(cfg.subdomains[site].ip, ip_of(cfg.internal_ip)->0),
    )
}

/// Law: a DNS query for the intranet name of a site, written as a header,
/// the name's labels and whatever follows, can be answered, and is
/// answered with the site's address (the resolver's for a site in
/// 192.168.0.0/16), whenever the name's labels read back as written, the
/// site is not named `dns`, and, for a site in 192.168.0.0/16, the
/// resolver's own address is a dotted IPv4 address.
pub proof fn lemma_site_query(cfg: ConfigView, site: Seq<char>, header: Seq<u8>, tail: Seq<u8>)
    requires
        cfg.subdomains.contains_key(site),
        site != seq!['d', 'n', 's'],
        (cfg.subdomains[site].ip[0] == 192 && cfg.subdomains[site].ip[1] == 168) ==> ip_of(
            cfg.internal_ip,
        ) is Some,
        crate::name::plain_host(crate::host::site_host(site, cfg.intranet_host)),
        header.len() == QUESTION_START,
    ensures
        answer_query_ok(
            cfg,
            header + label_bytes(crate::host::site_host(site, cfg.intranet_host)) + tail,
        ),
        dns_action(
            cfg,
            header + label_bytes(crate::host::site_host(site, cfg.intranet_host)) + tail,
        ) == DnsActionView::Reply(site_reply(cfg, site)),
{
    let host = crate::host::site_host(site, cfg.intranet_host);
    let query = header + label_bytes(host) + tail;
    crate::name::lemma_host_round_trip(header, host, tail, POINTER_DEPTH as nat);
    crate::host::lemma_site_answer(site, cfg.internal_ip, cfg.intranet_host, cfg.subdomains);
    assert(query_host(query) == Some(host));
}

/// Where the answer's name stands in a reply for `host`: after the header,
/// the question's name, type and class.
pub open spec fn answer_name_start(host: Seq<char>) -> int {
    QUESTION_START + label_bytes(host).len() + 4
}

/// Law: the reply to a query repeats the question, so the host name read
/// from the reply is the host name asked for, whenever its labels read
/// back as written; and the answer's name, a pointer to the question's,
/// reads as the same host name.
pub proof fn lemma_reply_repeats_question(host: Seq<char>, ip: Seq<u8>)
    requires
        crate::name::plain_host(host),
    ensures
        query_host(answer_reply(host, ip)) == Some(host),
        crate::name::name_outcome(
            walk(answer_reply(host, ip), answer_name_start(host), POINTER_DEPTH as nat),
        ) == Ok::<Seq<char>, crate::name::NameError>(host),
{
    let tail = seq![0u8, 1u8, 0u8, 1u8, 192u8, 12u8, 0u8, 1u8, 0u8, 1u8, 0u8, 0u8, 2u8, 88u8, 0u8, 4u8]
        + ip;
    let reply = answer_reply(host, ip);
    assert(reply =~= answer_header() + label_bytes(host) + tail);
    crate::name::lemma_host_round_trip(answer_header(), host, tail, POINTER_DEPTH as nat);
    crate::name::lemma_host_round_trip(answer_header(), host, tail, (POINTER_DEPTH - 1) as nat);
    let p = answer_name_start(host);
    assert(reply[p] == 192u8);
    assert(reply[p + 1] == 12u8);
    assert(crate::name::pointer_target(192u8, 12u8) == 12);
    let inner = walk(reply, 12, (POINTER_DEPTH - 1) as nat);
    assert(walk(reply, p, POINTER_DEPTH as nat) == crate::name::as_label(inner));
    if let crate::name::Walk::Labels(ls) = inner {
        assert(join(seq![join(ls, '.')], '.') == join(ls, '.'));
    }
}

/// Law: a GET request to the resolver's DNS path whose only parameter
/// `dns` is a query written in unpadded URL-safe base64 is answered with
/// that query, whatever its bytes.
pub proof fn lemma_get_query_answered(cfg: ConfigView, query: Seq<u8>, headers: Seq<Header>)
    requires
        header_value(headers, "Host"@) matches Some(host) && is_resolver_host(
            host,
            cfg.intranet_host,
        ),
    ensures
        route_ok(cfg, headers),
        route_of(
            cfg,
            Method::Get,
            dns_query_path() + seq!['?', 'd', 'n', 's', '='] + crate::base64::b64_encode(query),
            headers,
        ) == RouteView::Answer(query),
{
    reveal_strlit("dns");
    let enc = crate::base64::b64_encode(query);
    let url = dns_query_path() + seq!['?', 'd', 'n', 's', '='] + enc;
    let q = seq!['d', 'n', 's', '='] + enc;
    let n = dns_query_path().len() as int;
    assert(url[n] == '?');
    assert forall|j: int| 0 <= j < n implies url[j] != '?' by {
        assert(url[j] == dns_query_path()[j]);
    }
    crate::text::lemma_find_at(url, '?', n);
    assert(crate::text::before_first(url, '?') =~= dns_query_path());
    assert(url.skip(n + 1) =~= q);
    assert(crate::url::query_string(url) == q);
    crate::base64::lemma_b64_round_trip(query);
    crate::base64::lemma_decoded_in_alphabet(enc);
    assert(!q.contains('&')) by {
        if q.contains('&') {
            let j = choose|j: int| 0 <= j < q.len() && q[j] == '&';
            if j >= 4 {
                assert(q[j] == enc[j - 4]);
                assert(crate::base64::sextet(enc[j - 4]) is Some);
            }
        }
    }
    crate::text::lemma_split_single(q, '&');
    assert(!seq!['d', 'n', 's'].contains('=')) by {
        if seq!['d', 'n', 's'].contains('=') {
            let j = choose|j: int| 0 <= j < 3 && seq!['d', 'n', 's'][j] == '=';
        }
    }
    crate::pairs::lemma_pair_of(q, seq!['d', 'n', 's'], enc);
    assert(seq!['d', 'n', 's'] + seq!['='] + enc =~= q);
    let records = seq![q];
    assert(records.drop_last() =~= Seq::<Seq<char>>::empty());
    assert(records.last() == q);
    assert(crate::pairs::pair_of(q) == Some((seq!['d', 'n', 's'], enc)));
    assert(crate::pairs::pairs_map(records.drop_last()) == Map::<Seq<char>, Seq<char>>::empty());
    assert(crate::pairs::pairs_map(records) =~= Map::<Seq<char>, Seq<char>>::empty().insert(
        seq!['d', 'n', 's'],
        enc,
    ));
    assert("dns"@ =~= seq!['d', 'n', 's']);
    assert(queries_of(url).get("dns"@) == Some(enc));
}

/// Law: a request whose `Host` is the intranet name of a site (and not
/// one of the resolver's names) can be routed, and is passed on to that
/// site at the request's path.
pub proof fn lemma_site_request_proxied(
    cfg: ConfigView,
    site: Seq<char>,
    method: Method,
    url: Seq<char>,
    headers: Seq<Header>,
)
    requires
        cfg.subdomains.contains_key(site),
        header_value(headers, "Host"@) == Some(crate::host::site_host(site, cfg.intranet_host)),
        !is_resolver_host(crate::host::site_host(site, cfg.intranet_host), cfg.intranet_host),
    ensures
        route_ok(cfg, headers),
        route_of(cfg, method, url, headers) == RouteView::Proxy(
            site_url(cfg.subdomains[site], crate::text::before_first(url, '?')),
        ),
{
    crate::host::lemma_site_host(site, cfg.intranet_host);
}

/// Law: a request whose `Host` is the bare name of a site (not under the
/// intranet host, and not one of the resolver's names) is redirected to
/// the site's intranet name, which a DNS query answers with the site's
/// address.
pub proof fn lemma_bare_site_redirected(
    cfg: ConfigView,
    site: Seq<char>,
    method: Method,
    url: Seq<char>,
    headers: Seq<Header>,
)
    requires
        cfg.subdomains.contains_key(site),
        site != seq!['d', 'n', 's'],
        header_value(headers, "Host"@) == Some(site),
        !is_resolver_host(site, cfg.intranet_host),
        !ends_with(site, cfg.intranet_host),
    ensures
        route_ok(cfg, headers),
        route_of(cfg, method, url, headers) == RouteView::Redirect(
            "https://"@ + crate::host::site_host(site, cfg.intranet_host),
        ),
        dns_answer(
            crate::host::site_host(site, cfg.intranet_host),
            cfg.internal_ip,
            cfg.intranet_host,
            cfg.subdomains,
        ) == Ok::<Seq<u8>, QueryError>(cfg.subdomains[site].ip),
{
    crate::host::lemma_site_answer(site, cfg.internal_ip, cfg.intranet_host, cfg.subdomains);
    assert("https://"@ + site + seq!['.'] + cfg.intranet_host =~= "https://"@
        + crate::host::site_host(site, cfg.intranet_host));
}

/// Law: a reply never gives out an address in 192.168.0.0/16 other than
/// the resolver's own: such sites are reached through the resolver. Any
/// other address is given out as it is.
pub proof fn lemma_no_private_answers(cfg: ConfigView, host: Seq<char>)
    ensures
        dns_answer(host, cfg.internal_ip, cfg.intranet_host, cfg.subdomains) matches Ok(ip) ==> {
            let given = given_ip(ip, ip_of(cfg.internal_ip)->0);
            &&& host_action(cfg, host) == DnsActionView::Reply(answer_reply(host, given))
            &&& (given[0] == 192 && given[1] == 168) ==> given == ip_of(cfg.internal_ip)->0
            &&& (ip[0] == 192 && ip[1] == 168) ==> host_action(cfg, host) == DnsActionView::Reply(
                answer_reply(host, ip_of(cfg.internal_ip)->0),
            )
            &&& !(ip[0] == 192 && ip[1] == 168) ==> host_action(cfg, host) == DnsActionView::Reply(
                answer_reply(host, ip),
            )
        },
{
}

} // verus!
