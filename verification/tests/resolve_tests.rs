use lease_dns::resolver::{resolve, Outcome, Question, Rcode, QTYPE_A};
use lease_dns::sources::{build_from_sources, Lease};
use lease_dns::store::RecordStore;

fn b_res(s: &str) -> Vec<u8> {
    s.as_bytes().to_vec()
}

fn ip4(a: u8, b: u8, c: u8, d: u8) -> u32 {
    lease_dns::addr::ipv4_from_octets(a, b, c, d)
}

fn lease_store(addr: u32, hostname: &str, suffix: &str) -> RecordStore {
    let leases = vec![Lease { addr, hostname: b_res(hostname) }];
    build_from_sources(&leases, &Vec::new(), &b_res(suffix))
}

fn ask(st: &RecordStore, name: &str, qtype: u16) -> Outcome {
    let qs = vec![Question { qname: b_res(name), qtype }];
    resolve(&qs, st)
}

#[test]
fn dhcp_lease_exact_answer() {
    let st = lease_store(ip4(10, 0, 0, 5), "printer", "lan");
    let out = ask(&st, "printer.lan.", QTYPE_A);
    assert_eq!(out.code, Rcode::NoError);
    assert_eq!(out.answers, vec![ip4(10, 0, 0, 5)]);
}

#[test]
fn dhcp_lease_wildcard_subdomain_answer() {
    let st = lease_store(ip4(10, 0, 0, 5), "printer", "lan");
    let out = ask(&st, "x.printer.lan.", QTYPE_A);
    assert_eq!(out.code, Rcode::NoError);
    assert_eq!(out.answers, vec![ip4(10, 0, 0, 5)]);
}

#[test]
fn unrelated_name_is_nxdomain() {
    let st = lease_store(ip4(10, 0, 0, 5), "printer", "lan");
    let out = ask(&st, "other.lan.", QTYPE_A);
    assert_eq!(out.code, Rcode::NxDomain);
    assert!(out.answers.is_empty());
}

#[test]
fn query_name_case_is_folded() {
    let st = lease_store(ip4(10, 0, 0, 5), "Printer", "LAN");
    let out = ask(&st, "PRINTER.lan.", QTYPE_A);
    assert_eq!(out.code, Rcode::NoError);
    assert_eq!(out.answers, vec![ip4(10, 0, 0, 5)]);
}

#[test]
fn hosts_wildcard_matches_subdomain_not_apex() {
    let st = build_from_sources(&Vec::new(), &b_res("10.0.0.9 *.example.com"), &Vec::new());
    let sub = ask(&st, "foo.example.com.", QTYPE_A);
    assert_eq!(sub.code, Rcode::NoError);
    assert_eq!(sub.answers, vec![ip4(10, 0, 0, 9)]);
    let apex = ask(&st, "example.com.", QTYPE_A);
    assert_eq!(apex.code, Rcode::NxDomain);
    assert!(apex.answers.is_empty());
}

#[test]
fn exact_and_wildcard_same_address_deduplicated() {
    let leases = vec![Lease { addr: ip4(10, 0, 0, 1), hostname: b_res("host") }];
    let st = build_from_sources(&leases, &b_res("10.0.0.1 *.lan"), &b_res("lan"));
    let out = ask(&st, "host.lan.", QTYPE_A);
    assert_eq!(out.code, Rcode::NoError);
    assert_eq!(out.answers, vec![ip4(10, 0, 0, 1)]);
}

#[test]
fn merged_answers_are_sorted_ascending() {
    let hosts = "9.9.9.9 host.lan\n1.1.1.1 host.lan\n5.5.5.5 *.lan";
    let st = build_from_sources(&Vec::new(), &b_res(hosts), &Vec::new());
    let out = ask(&st, "host.lan.", QTYPE_A);
    assert_eq!(out.code, Rcode::NoError);
    assert_eq!(
        out.answers,
        vec![ip4(1, 1, 1, 1), ip4(5, 5, 5, 5), ip4(9, 9, 9, 9)]
    );
}

#[test]
fn zero_questions_is_formerr() {
    let st = lease_store(ip4(10, 0, 0, 5), "printer", "lan");
    let out = resolve(&Vec::new(), &st);
    assert_eq!(out.code, Rcode::FormErr);
    assert!(out.answers.is_empty());
}

#[test]
fn non_address_type_on_existing_name_is_noerror_without_data() {
    let st = lease_store(ip4(10, 0, 0, 5), "printer", "lan");
    let out = ask(&st, "printer.lan.", 28);
    assert_eq!(out.code, Rcode::NoError);
    assert!(out.answers.is_empty());
}

#[test]
fn non_address_type_on_wildcard_matched_name_is_noerror() {
    let st = lease_store(ip4(10, 0, 0, 5), "printer", "lan");
    let out = ask(&st, "x.printer.lan.", 28);
    assert_eq!(out.code, Rcode::NoError);
    assert!(out.answers.is_empty());
}

#[test]
fn non_address_type_on_missing_name_is_nxdomain() {
    let st = lease_store(ip4(10, 0, 0, 5), "printer", "lan");
    let out = ask(&st, "nope.lan.", 28);
    assert_eq!(out.code, Rcode::NxDomain);
    assert!(out.answers.is_empty());
}

#[test]
fn two_wildcards_same_pattern_both_contribute() {
    let hosts = "10.0.0.7 *.lan\n10.0.0.3 *.lan";
    let st = build_from_sources(&Vec::new(), &b_res(hosts), &Vec::new());
    assert_eq!(st.wildcards.len(), 2);
    let out = ask(&st, "box.lan.", QTYPE_A);
    assert_eq!(out.code, Rcode::NoError);
    assert_eq!(out.answers, vec![ip4(10, 0, 0, 3), ip4(10, 0, 0, 7)]);
}
