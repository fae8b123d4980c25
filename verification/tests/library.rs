use elintranet_doh_and_resolver::base64::b64_url_to_u8_vec;
use elintranet_doh_and_resolver::host::{
    can_do_dns_query, can_extract_subdomain, do_dns_query, extract_subdomain,
    is_intranet_subdomain, str_ends_with, QueryError, SubdomainInfo,
};
use elintranet_doh_and_resolver::load::{parse_env, parse_intranet_subdomains};
use elintranet_doh_and_resolver::name::{extract_host_from_dns_query, query_hostname_to_label_bytes};
use elintranet_doh_and_resolver::number::ip_string_to_u8_array;
use elintranet_doh_and_resolver::range::{forwarded_header_value, limit_open_ended_range};
use elintranet_doh_and_resolver::server::{
    answer_bytes, answer_query, can_answer_query, can_route, get_header, nxdomain_bytes, route,
    servfail_bytes, Config, DnsAction, Header, Method, Route,
};
use elintranet_doh_and_resolver::table::Table;
use elintranet_doh_and_resolver::url::{get_path, get_queries};

fn value(t: &Table<String>, key: &str) -> Option<String> {
    t.get(key).cloned()
}

fn sites() -> Table<SubdomainInfo> {
    parse_intranet_subdomains(
        "wiki,192.168.1.5:8080\nblog,10.0.0.3,nohttps\nmail,10.0.0.4:25,https\n",
    )
    .unwrap()
}

fn config() -> Config {
    Config {
        intranet_host: "elintra.net".to_string(),
        internal_ip: "10.0.0.1".to_string(),
        subdomains: sites(),
    }
}

fn query_for(host: &str) -> Vec<u8> {
    let mut q = vec![0, 0, 1, 0, 0, 1, 0, 0, 0, 0, 0, 0];
    q.extend(query_hostname_to_label_bytes(host));
    q.extend([0, 1, 0, 1]);
    q
}

fn headers(pairs: &[(&str, &str)]) -> Vec<Header> {
    pairs
        .iter()
        .map(|(f, v)| Header { field: f.to_string(), value: v.to_string() })
        .collect()
}

#[test]
fn path_is_text_before_first_question_mark() {
    assert_eq!(get_path("/dns-query?dns=abc"), "/dns-query");
    assert_eq!(get_path("/"), "/");
    assert_eq!(get_path("a?b?c"), "a");
    assert_eq!(get_path(""), "");
    assert_eq!(get_path("?x=1"), "");
}

#[test]
fn queries_split_at_ampersand_and_first_equals() {
    let q = get_queries("/x?dns=AAAB&b=c=d&e");
    assert_eq!(value(&q, "dns").as_deref(), Some("AAAB"));
    assert_eq!(value(&q, "b").as_deref(), Some("c=d"));
    assert_eq!(value(&q, "e"), None);
    assert_eq!(q.entries().len(), 2);
}

#[test]
fn queries_keep_the_rest_of_the_url_after_first_question_mark() {
    let q = get_queries("/p?a=1?2&c=");
    assert_eq!(value(&q, "a").as_deref(), Some("1?2"));
    assert_eq!(value(&q, "c").as_deref(), Some(""));
}

#[test]
fn queries_later_key_wins() {
    let q = get_queries("?a=1&a=2");
    assert_eq!(value(&q, "a").as_deref(), Some("2"));
    assert_eq!(q.entries().len(), 1);
}

#[test]
fn queries_of_url_without_question_mark_are_empty() {
    assert_eq!(get_queries("/dns-query").entries().len(), 0);
    assert_eq!(get_queries("/dns-query?").entries().len(), 0);
}

#[test]
fn env_lines_are_key_value_pairs() {
    let env = parse_env("INTRANET_HOST=elintra.net\nX=a=b\nJUNK\n\nINTERNAL_IP=10.0.0.1");
    assert_eq!(value(&env, "INTRANET_HOST").as_deref(), Some("elintra.net"));
    assert_eq!(value(&env, "X").as_deref(), Some("a=b"));
    assert_eq!(value(&env, "INTERNAL_IP").as_deref(), Some("10.0.0.1"));
    assert_eq!(value(&env, "JUNK"), None);
    assert_eq!(env.entries().len(), 3);
}

#[test]
fn env_keeps_carriage_returns() {
    let env = parse_env("A=1\r\n");
    assert_eq!(value(&env, "A").as_deref(), Some("1\r"));
}

#[test]
fn site_list_reads_address_port_and_scheme() {
    let t = sites();
    let wiki = t.get("wiki").unwrap();
    assert_eq!(wiki.ip, [192, 168, 1, 5]);
    assert_eq!(wiki.ip_string, "192.168.1.5");
    assert_eq!(wiki.port, Some(8080));
    assert!(!wiki.proxy_use_http);
    let blog = t.get("blog").unwrap();
    assert_eq!(blog.ip, [10, 0, 0, 3]);
    assert_eq!(blog.port, None);
    assert!(blog.proxy_use_http);
    let mail = t.get("mail").unwrap();
    assert_eq!(mail.port, Some(25));
    assert!(!mail.proxy_use_http);
    assert_eq!(t.entries().len(), 3);
}

#[test]
fn site_list_with_bad_port_or_address_is_refused() {
    assert!(parse_intranet_subdomains("wiki,10.0.0.1:http\n").is_none());
    assert!(parse_intranet_subdomains("wiki,10.0.0.1:65536\n").is_none());
    assert!(parse_intranet_subdomains("wiki,10.0.0\n").is_none());
    assert!(parse_intranet_subdomains("wiki,localhost\n").is_none());
    assert!(parse_intranet_subdomains("just-a-name\n\n").unwrap().entries().is_empty());
    assert!(parse_intranet_subdomains("").unwrap().entries().is_empty());
}

#[test]
fn site_list_port_of_first_colon_piece() {
    let t = parse_intranet_subdomains("a,10.0.0.9:+81:90").unwrap();
    assert_eq!(t.get("a").unwrap().port, Some(81));
}

#[test]
fn ip_strings_are_four_numbers_up_to_255() {
    assert_eq!(ip_string_to_u8_array("10.0.0.7"), Some([10, 0, 0, 7]));
    assert_eq!(ip_string_to_u8_array("255.255.255.255"), Some([255, 255, 255, 255]));
    assert_eq!(ip_string_to_u8_array("+1.02.3.4"), Some([1, 2, 3, 4]));
    assert_eq!(ip_string_to_u8_array("256.0.0.1"), None);
    assert_eq!(ip_string_to_u8_array("1.2.3"), None);
    assert_eq!(ip_string_to_u8_array("1.2.3.4.5"), None);
    assert_eq!(ip_string_to_u8_array("1.2..4"), None);
    assert_eq!(ip_string_to_u8_array("1.2.3.-4"), None);
    assert_eq!(ip_string_to_u8_array("1.2.3.+"), None);
}

#[test]
fn host_is_read_from_question() {
    let q = vec![
        0, 0, 1, 0, 0, 1, 0, 0, 0, 0, 0, 0, 3, 119, 119, 119, 7, 101, 120, 97, 109, 112, 108, 101, 3,
        99, 111, 109, 0, 0, 1, 0, 1,
    ];
    assert_eq!(extract_host_from_dns_query(&q, None), Ok("www.example.com".to_string()));
    assert_eq!(extract_host_from_dns_query(&q, Some(16)), Ok("example.com".to_string()));
}

#[test]
fn host_reading_fails_on_truncated_message() {
    let q = vec![0, 0, 1, 0, 0, 1, 0, 0, 0, 0, 0, 0, 3, 119, 119, 119];
    assert_eq!(extract_host_from_dns_query(&q, None), Err(()));
    let ends = vec![0, 0, 1, 0, 0, 1, 0, 0, 0, 0, 0, 0, 3, 119, 119, 119, 0];
    assert_eq!(extract_host_from_dns_query(&ends, None), Ok("www".to_string()));
    let short = vec![0, 0, 1, 0];
    assert_eq!(extract_host_from_dns_query(&short, None), Err(()));
    let cut = vec![0, 0, 1, 0, 0, 1, 0, 0, 0, 0, 0, 0, 5, 119, 119];
    assert_eq!(extract_host_from_dns_query(&cut, None), Err(()));
}

#[test]
fn host_reading_follows_two_byte_pointer() {
    // Bytes 192,12 are a pointer (two high bits set) to offset 12, where
    // "com" is written; the pointer ends the name.
    let q = vec![0, 0, 0, 0, 0, 0, 0, 0, 0, 0, 0, 0, 3, 99, 111, 109, 0, 3, 119, 119, 119, 192, 12, 0];
    assert_eq!(extract_host_from_dns_query(&q, Some(17)), Ok("www.com".to_string()));
    // The pointer needs only its two bytes before the end of the message.
    assert_eq!(extract_host_from_dns_query(&q[..23], Some(17)), Ok("www.com".to_string()));
    assert_eq!(extract_host_from_dns_query(&q[..22], Some(17)), Err(()));
    // A pointer straight at the start of a name.
    let p = vec![0, 0, 0, 0, 0, 0, 0, 0, 0, 0, 0, 0, 0xC0, 17, 0, 0, 0, 2, 97, 98, 0];
    assert_eq!(extract_host_from_dns_query(&p, None), Ok("ab".to_string()));
    // The offset takes fourteen bits: 0xC1,0x00 is offset 256.
    let mut far = vec![0u8; 260];
    far[12] = 0xC1;
    far[13] = 0;
    far[256] = 1;
    far[257] = 120;
    far[258] = 0;
    assert_eq!(extract_host_from_dns_query(&far, None), Ok("x".to_string()));
    // A pointer to a name that cannot be read.
    let bad = vec![0, 0, 0, 0, 0, 0, 0, 0, 0, 0, 0, 0, 0xC0, 200];
    assert_eq!(extract_host_from_dns_query(&bad, None), Err(()));
}

#[test]
fn pointer_to_empty_name_adds_empty_label() {
    let q = vec![0, 0, 0, 0, 0, 0, 0, 0, 0, 0, 0, 0, 1, 97, 0xC0, 16, 0];
    assert_eq!(extract_host_from_dns_query(&q, None), Ok("a.".to_string()));
}

#[test]
fn host_reading_stops_on_pointer_cycle() {
    let mut q = vec![0xC0, 0, 0, 0, 0, 0, 0, 0, 0, 0, 0, 0];
    q.resize(300, 0);
    assert_eq!(extract_host_from_dns_query(&q, Some(0)), Err(()));
    let two = vec![0, 0, 0, 0, 0, 0, 0, 0, 0, 0, 0, 0, 1, 97, 0xC0, 16, 1, 98, 0xC0, 12];
    assert_eq!(extract_host_from_dns_query(&two, None), Err(()));
}

#[test]
fn empty_name_reads_as_empty_host() {
    let q = vec![0, 0, 1, 0, 0, 1, 0, 0, 0, 0, 0, 0, 0, 0, 1];
    assert_eq!(extract_host_from_dns_query(&q, None), Ok(String::new()));
}

#[test]
fn host_name_written_as_labels() {
    assert_eq!(
        query_hostname_to_label_bytes("www.example.com"),
        vec![3, 119, 119, 119, 7, 101, 120, 97, 109, 112, 108, 101, 3, 99, 111, 109, 0]
    );
    assert_eq!(query_hostname_to_label_bytes(""), vec![0, 0]);
    assert_eq!(query_hostname_to_label_bytes("a."), vec![1, 97, 0, 0]);
    // A character outside ASCII counts its UTF-8 bytes in the length, and
    // is written as its code cut to a byte.
    assert_eq!(query_hostname_to_label_bytes("\u{e9}"), vec![2, 0xe9, 0]);
}

#[test]
fn label_bytes_read_back_as_host() {
    let q = query_for("wiki.elintra.net");
    assert_eq!(extract_host_from_dns_query(&q, None), Ok("wiki.elintra.net".to_string()));
}

#[test]
fn subdomain_is_cut_before_intranet_host() {
    assert_eq!(extract_subdomain("wiki.elintra.net", "elintra.net"), "wiki");
    assert_eq!(extract_subdomain("a.b.elintra.net", "elintra.net"), "a.b");
    assert!(can_extract_subdomain("wiki.elintra.net", "elintra.net"));
    assert!(!can_extract_subdomain("elintra.net", "elintra.net"));
    assert!(!can_extract_subdomain("\u{e9}elintra.net", "elintra.net"));
    assert!(str_ends_with("wiki.elintra.net", "elintra.net"));
    assert!(!str_ends_with("net", "elintra.net"));
}

#[test]
fn queries_are_answered_by_kind_of_name() {
    let s = sites();
    let ih = "elintra.net".to_string();
    let own = "10.0.0.1".to_string();
    assert_eq!(do_dns_query("dns.elintra.net", own.clone(), &ih, &s), Ok([10, 0, 0, 1]));
    assert_eq!(do_dns_query("wiki.elintra.net", own.clone(), &ih, &s), Ok([192, 168, 1, 5]));
    assert_eq!(do_dns_query("blog.elintra.net", own.clone(), &ih, &s), Ok([10, 0, 0, 3]));
    assert_eq!(do_dns_query("nope.elintra.net", own.clone(), &ih, &s), Err(QueryError::NXDomain));
    assert_eq!(do_dns_query("wiki", own.clone(), &ih, &s), Ok([10, 0, 0, 1]));
    assert_eq!(do_dns_query("example.com", own.clone(), &ih, &s), Err(QueryError::NonIntranet));
    assert!(is_intranet_subdomain("blog", &s));
    assert!(!is_intranet_subdomain("blog.elintra.net", &s));
    assert!(can_do_dns_query("wiki.elintra.net", &own, &ih, &s));
    assert!(!can_do_dns_query("elintra.net", &own, &ih, &s));
    assert!(!can_do_dns_query("wiki", "not-an-ip", &ih, &s));
    assert!(!can_do_dns_query("dns.elintra.net", "localhost", &ih, &s));
    // Answers that do not give the resolver's own address need no IPv4
    // address for it.
    assert!(can_do_dns_query("example.com", "localhost", &ih, &s));
    assert!(can_do_dns_query("blog.elintra.net", "localhost", &ih, &s));
    assert!(can_do_dns_query("nope.elintra.net", "localhost", &ih, &s));
    let host = "localhost".to_string();
    assert_eq!(do_dns_query("example.com", host.clone(), &ih, &s), Err(QueryError::NonIntranet));
    assert_eq!(do_dns_query("blog.elintra.net", host.clone(), &ih, &s), Ok([10, 0, 0, 3]));
    assert_eq!(do_dns_query("nope.elintra.net", host.clone(), &ih, &s), Err(QueryError::NXDomain));
}

#[test]
fn answer_reply_layout() {
    let r = answer_bytes("ab", [1, 2, 3, 4]);
    assert_eq!(
        r,
        vec![
            0, 0, 129, 128, 0, 1, 0, 1, 0, 0, 0, 0, 2, 97, 98, 0, 0, 1, 0, 1, 192, 12, 0, 1, 0, 1, 0,
            0, 2, 88, 0, 4, 1, 2, 3, 4
        ]
    );
    assert_eq!(extract_host_from_dns_query(&r, None), Ok("ab".to_string()));
    // The answer's name points back at the question's.
    assert_eq!(extract_host_from_dns_query(&r, Some(20)), Ok("ab".to_string()));
    assert_eq!(nxdomain_bytes(), vec![0, 0, 3, 128, 0, 0, 0, 0, 0, 0, 0, 0]);
    assert_eq!(servfail_bytes(), vec![0, 0, 2, 128, 0, 0, 0, 0, 0, 0, 0, 0]);
}

fn reply_of(a: DnsAction) -> Option<Vec<u8>> {
    match a {
        DnsAction::Reply(b) => Some(b),
        _ => None,
    }
}

#[test]
fn dns_queries_get_replies() {
    let cfg = config();
    let q = query_for("blog.elintra.net");
    assert!(can_answer_query(&cfg, &q));
    assert_eq!(reply_of(answer_query(&cfg, &q)), Some(answer_bytes("blog.elintra.net", [10, 0, 0, 3])));
    // A site in 192.168.0.0/16 is given the resolver's own address.
    let q = query_for("wiki.elintra.net");
    assert_eq!(reply_of(answer_query(&cfg, &q)), Some(answer_bytes("wiki.elintra.net", [10, 0, 0, 1])));
    let q = query_for("nope.elintra.net");
    assert_eq!(reply_of(answer_query(&cfg, &q)), Some(nxdomain_bytes()));
    let q = query_for("example.com");
    assert!(matches!(answer_query(&cfg, &q), DnsAction::Forward));
    assert!(matches!(answer_query(&cfg, &[1, 2, 3]), DnsAction::Reject));
    let q = query_for("elintra.net");
    assert!(!can_answer_query(&cfg, &q));
    // With a resolver address that is not IPv4, queries that do not need
    // it are still answered; a 192.168 site, which needs it, is not.
    let named = Config {
        intranet_host: "elintra.net".to_string(),
        internal_ip: "localhost".to_string(),
        subdomains: sites(),
    };
    assert!(can_answer_query(&named, &query_for("example.com")));
    assert!(matches!(answer_query(&named, &query_for("example.com")), DnsAction::Forward));
    assert!(can_answer_query(&named, &query_for("blog.elintra.net")));
    assert!(!can_answer_query(&named, &query_for("wiki.elintra.net")));
    assert!(!can_answer_query(&named, &query_for("blog")));
}

#[test]
fn question_bytes_re_encode_from_extracted_host() {
    let q = query_for("wiki.elintra.net");
    let host = extract_host_from_dns_query(&q, None).unwrap();
    assert_eq!(query_hostname_to_label_bytes(&host), q[12..q.len() - 4].to_vec());
}

#[test]
fn site_addresses_agree_with_written_addresses() {
    let t = sites();
    for (_, info) in t.entries() {
        assert_eq!(ip_string_to_u8_array(&info.ip_string), Some(info.ip));
        assert!(!info.ip_string.contains(':'));
    }
}

#[test]
fn open_ended_ranges_are_limited() {
    assert_eq!(forwarded_header_value("Range", "bytes=100-"), "bytes=100-10485859");
    assert_eq!(forwarded_header_value("Range", "bytes=0-"), "bytes=0-10485759");
    assert_eq!(forwarded_header_value("Range", "bytes=0-499"), "bytes=0-499");
    assert_eq!(forwarded_header_value("Range", "bytes=-500"), "bytes=-500");
    assert_eq!(forwarded_header_value("Range", "bytes=-"), "bytes=-");
    assert_eq!(forwarded_header_value("Range", "bytes=0-9,20-"), "bytes=0-9,20-");
    assert_eq!(forwarded_header_value("range", "bytes=100-"), "bytes=100-");
    assert_eq!(forwarded_header_value("Accept", "text/html"), "text/html");
    assert_eq!(limit_open_ended_range("bytes=7-"), "bytes=7-10485766");
    assert_eq!(limit_open_ended_range("items=7-"), "items=7-");
}

#[test]
fn base64_url_decodes_groups() {
    assert_eq!(b64_url_to_u8_vec(""), Ok(vec![]));
    assert_eq!(b64_url_to_u8_vec("AAEC"), Ok(vec![0, 1, 2]));
    assert_eq!(b64_url_to_u8_vec("AAE"), Ok(vec![0, 1]));
    assert_eq!(b64_url_to_u8_vec("AA"), Ok(vec![0]));
    assert_eq!(b64_url_to_u8_vec("-_-_"), Ok(vec![0xfb, 0xff, 0xbf]));
    assert_eq!(b64_url_to_u8_vec("aGVsbG8"), Ok(b"hello".to_vec()));
    assert_eq!(b64_url_to_u8_vec("A"), Err(()));
    assert_eq!(b64_url_to_u8_vec("AAAAA"), Err(()));
    assert_eq!(b64_url_to_u8_vec("AA=="), Err(()));
    assert_eq!(b64_url_to_u8_vec("AA+/"), Err(()));
}

#[test]
fn first_matching_header_wins() {
    let h = headers(&[("host", "x"), ("Host", "a"), ("Host", "b")]);
    assert_eq!(get_header("Host".to_string(), &h), Some("a".to_string()));
    assert_eq!(get_header("Accept".to_string(), &h), None);
}

fn route_of(method: Method, url: &str, hs: &[(&str, &str)]) -> Route {
    let cfg = config();
    let h = headers(hs);
    assert!(can_route(&cfg, &h));
    route(&cfg, method, url, &h)
}

#[test]
fn resolver_requests_are_routed() {
    assert!(matches!(route_of(Method::Get, "/dns-query", &[]), Route::Empty(400)));
    let r = route_of(Method::Get, "/dns-query?dns=AAEC", &[("Host", "dns.elintra.net")]);
    assert!(matches!(r, Route::Answer(ref q) if q == &vec![0, 1, 2]));
    let r = route_of(Method::Get, "/dns-query?dns=AAEC", &[("Host", "dns.elintra.net:443")]);
    assert!(matches!(r, Route::Answer(_)));
    let r = route_of(Method::Get, "/dns-query?dns=A", &[("Host", "dns.elintra.net")]);
    assert!(matches!(r, Route::Empty(400)));
    let r = route_of(Method::Get, "/dns-query?x=1", &[("Host", "dns.elintra.net")]);
    assert!(matches!(r, Route::Empty(400)));
    let r = route_of(
        Method::Post,
        "/dns-query",
        &[("Host", "dns.elintra.net"), ("Content-Type", "application/dns-message")],
    );
    assert!(matches!(r, Route::ReadBody));
    let r = route_of(Method::Post, "/dns-query", &[("Host", "dns.elintra.net")]);
    assert!(matches!(r, Route::Empty(400)));
    let r = route_of(Method::Options, "/dns-query", &[("Host", "dns.elintra.net")]);
    assert!(matches!(r, Route::DnsOptions));
    let r = route_of(Method::Other, "/dns-query", &[("Host", "dns.elintra.net")]);
    assert!(matches!(r, Route::Empty(405)));
    let r = route_of(Method::Get, "/other", &[("Host", "dns.elintra.net")]);
    assert!(matches!(r, Route::Empty(404)));
}

#[test]
fn site_requests_are_proxied_or_redirected() {
    let r = route_of(Method::Get, "/page?q=1", &[("Host", "wiki.elintra.net")]);
    assert!(matches!(r, Route::Proxy(ref u) if u == "https://192.168.1.5:8080/page"));
    let r = route_of(Method::Post, "/", &[("Host", "blog.elintra.net")]);
    assert!(matches!(r, Route::Proxy(ref u) if u == "http://10.0.0.3/"));
    let r = route_of(Method::Get, "/", &[("Host", "nope.elintra.net")]);
    assert!(matches!(r, Route::Empty(421)));
    let r = route_of(Method::Get, "/", &[("Host", "blog")]);
    assert!(matches!(r, Route::Redirect(ref l) if l == "https://blog.elintra.net"));
    let r = route_of(Method::Get, "/", &[("Host", "example.com")]);
    assert!(matches!(r, Route::Empty(421)));
    let cfg = config();
    assert!(!can_route(&cfg, &headers(&[("Host", "elintra.net")])));
}
