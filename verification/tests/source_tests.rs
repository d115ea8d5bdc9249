use lease_dns::addr::{ipv4_from_octets, ipv4_octets, parse_ipv4};
use lease_dns::loader::{load_records, parse_dhcp_leases};
use lease_dns::name::{make_fqdn, make_wildcard_pattern, normalize_name};
use lease_dns::resolver::{resolve, Question, Rcode, QTYPE_A};
use lease_dns::sources::{build_from_sources, hosts_file_contribs};

fn b_src(s: &str) -> Vec<u8> {
    s.as_bytes().to_vec()
}

#[test]
fn fqdn_is_lowercase_dot_terminated() {
    assert_eq!(make_fqdn(&b_src("PrInTeR"), &b_src("lan")), b_src("printer.lan."));
    assert_eq!(make_fqdn(&b_src("printer"), &b_src(".lan")), b_src("printer.lan."));
    assert_eq!(make_fqdn(&b_src("printer"), &b_src("")), b_src("printer."));
    assert_eq!(make_fqdn(&b_src("Host"), &b_src("Example.COM")), b_src("host.example.com."));
}

#[test]
fn wildcard_pattern_from_fqdn() {
    assert_eq!(make_wildcard_pattern(&b_src("printer.lan.")), b_src("*.printer.lan."));
    assert_eq!(make_wildcard_pattern(&b_src("printer.lan")), b_src("*.printer.lan."));
}

#[test]
fn names_normalize_to_lowercase_with_dot() {
    assert_eq!(normalize_name(&b_src("FOO.Example.Com")), b_src("foo.example.com."));
    assert_eq!(normalize_name(&b_src("foo.example.com.")), b_src("foo.example.com."));
    assert_eq!(normalize_name(&b_src("")), b_src("."));
}

#[test]
fn dotted_quad_parsing() {
    assert_eq!(parse_ipv4(&b_src("10.0.0.9")), Some(ipv4_from_octets(10, 0, 0, 9)));
    assert_eq!(parse_ipv4(&b_src("255.255.255.255")), Some(u32::MAX));
    assert_eq!(parse_ipv4(&b_src("0.0.0.0")), Some(0));
    assert_eq!(parse_ipv4(&b_src("256.0.0.1")), None);
    assert_eq!(parse_ipv4(&b_src("01.2.3.4")), None);
    assert_eq!(parse_ipv4(&b_src("1.2.3")), None);
    assert_eq!(parse_ipv4(&b_src("1.2.3.4.5")), None);
    assert_eq!(parse_ipv4(&b_src("1.2.3.x")), None);
    assert_eq!(parse_ipv4(&b_src("")), None);
}

#[test]
fn ipv4_octets_roundtrip() {
    let ip = ipv4_from_octets(192, 168, 7, 1);
    assert_eq!(ipv4_octets(ip), (192, 168, 7, 1));
}

#[test]
fn hosts_lines_comments_and_blanks_skipped() {
    let text = "# full comment\n\n10.0.0.9 box\n   # indented comment\n10.0.0.8 shelf # trailing\n";
    let (exact, wild) = hosts_file_contribs(&b_src(text));
    assert_eq!(exact.len(), 2);
    assert!(wild.is_empty());
    assert_eq!(exact[0].name, b_src("box."));
    assert_eq!(exact[0].addr, ipv4_from_octets(10, 0, 0, 9));
    assert_eq!(exact[1].name, b_src("shelf."));
}

#[test]
fn hosts_line_multiple_hostnames() {
    let (exact, wild) = hosts_file_contribs(&b_src("10.0.0.4 one two.lan. *.Three"));
    assert_eq!(exact.len(), 2);
    assert_eq!(exact[0].name, b_src("one."));
    assert_eq!(exact[1].name, b_src("two.lan."));
    assert_eq!(wild.len(), 1);
    assert_eq!(wild[0].name, b_src("*.three."));
}

#[test]
fn hosts_malformed_address_line_skipped() {
    let text = "10.0.0 broken\nnot-an-ip host\n10.0.0.2 good\n";
    let (exact, wild) = hosts_file_contribs(&b_src(text));
    assert_eq!(exact.len(), 1);
    assert!(wild.is_empty());
    assert_eq!(exact[0].name, b_src("good."));
}

#[test]
fn hosts_comment_token_ends_line() {
    let (exact, _) = hosts_file_contribs(&b_src("10.0.0.2 before #stop after"));
    assert_eq!(exact.len(), 1);
    assert_eq!(exact[0].name, b_src("before."));
}

#[test]
fn dhcp_document_parses_leases() {
    let doc = br#"{"Leases":[{"Address":[10,0,0,5],"Hostname":"printer"},{"Address":[10,0,0,6],"Hostname":"Scanner"}]}"#;
    let leases = parse_dhcp_leases(&doc.to_vec()).expect("well-formed document");
    assert_eq!(leases.len(), 2);
    assert_eq!(leases[0].addr, ipv4_from_octets(10, 0, 0, 5));
    assert_eq!(leases[0].hostname, b_src("printer"));
    assert_eq!(leases[1].hostname, b_src("Scanner"));
}

#[test]
fn dhcp_document_rejected_when_malformed() {
    assert!(parse_dhcp_leases(&b_src("not json")).is_none());
    assert!(parse_dhcp_leases(&b_src("{}")).is_none());
    assert!(parse_dhcp_leases(&b_src(r#"{"Leases":[{"Address":[10,0,0],"Hostname":"x"}]}"#)).is_none());
    assert!(parse_dhcp_leases(&b_src(r#"{"Leases":[{"Address":[10,0,0,300],"Hostname":"x"}]}"#)).is_none());
    assert!(parse_dhcp_leases(&b_src(r#"{"Leases":[{"Address":[10,0,0,1]}]}"#)).is_none());
}

#[test]
fn empty_hostname_lease_contributes_nothing() {
    let doc = br#"{"Leases":[{"Address":[10,0,0,5],"Hostname":""}]}"#;
    let st = load_records(&doc.to_vec(), &Vec::new(), &b_src("lan"));
    assert!(st.exact.is_empty());
    assert!(st.wildcards.is_empty());
}

#[test]
fn load_records_end_to_end() {
    let doc = br#"{"Leases":[{"Address":[10,0,0,5],"Hostname":"printer"}]}"#;
    let hosts = "10.0.0.9 *.example.com\n10.0.0.2 pinned.example.com";
    let st = load_records(&doc.to_vec(), &b_src(hosts), &b_src("lan"));
    let ask = |name: &str| {
        resolve(&vec![Question { qname: b_src(name), qtype: QTYPE_A }], &st)
    };
    let a = ask("printer.lan.");
    assert_eq!(a.code, Rcode::NoError);
    assert_eq!(a.answers, vec![ipv4_from_octets(10, 0, 0, 5)]);
    let b = ask("pinned.example.com.");
    assert_eq!(b.code, Rcode::NoError);
    assert_eq!(
        b.answers,
        vec![ipv4_from_octets(10, 0, 0, 2), ipv4_from_octets(10, 0, 0, 9)]
    );
    let c = ask("gone.lan.");
    assert_eq!(c.code, Rcode::NxDomain);
}

#[test]
fn unusable_dhcp_document_still_serves_hosts() {
    let st = load_records(&b_src("garbage"), &b_src("10.0.0.2 good"), &b_src("lan"));
    let out = resolve(&vec![Question { qname: b_src("good."), qtype: QTYPE_A }], &st);
    assert_eq!(out.code, Rcode::NoError);
    assert_eq!(out.answers, vec![ipv4_from_octets(10, 0, 0, 2)]);
}

#[test]
fn empty_sources_build_empty_store() {
    let st = build_from_sources(&Vec::new(), &Vec::new(), &b_src("lan"));
    assert!(st.exact.is_empty());
    assert!(st.wildcards.is_empty());
}
