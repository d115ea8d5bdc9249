use lease_dns::default_ttl;
use lease_dns::addr::ipv4_from_octets;
use lease_dns::reload::{reload_interval_secs, settle_reload, watch_step, WatchState};
use lease_dns::sources::{build_from_sources, Lease};
use lease_dns::store::{build, Binding, RecordStore};

fn b_sto(s: &str) -> Vec<u8> {
    s.as_bytes().to_vec()
}

fn stores_identical(a: &RecordStore, b: &RecordStore) -> bool {
    a.exact.len() == b.exact.len()
        && a.wildcards.len() == b.wildcards.len()
        && a
            .exact
            .iter()
            .zip(b.exact.iter())
            .all(|(x, y)| x.name == y.name && x.addrs == y.addrs)
        && a
            .wildcards
            .iter()
            .zip(b.wildcards.iter())
            .all(|(x, y)| x.name == y.name && x.addr == y.addr)
}

#[test]
fn exact_addresses_sorted_and_deduplicated() {
    let mk = |name: &str, a: u8| Binding { name: b_sto(name), addr: ipv4_from_octets(10, 0, 0, a) };
    let exact = vec![
        mk("host.lan.", 9),
        mk("host.lan.", 3),
        mk("host.lan.", 9),
        mk("host.lan.", 6),
        mk("other.lan.", 1),
    ];
    let st = build(&exact, &Vec::new());
    assert_eq!(st.exact.len(), 2);
    assert_eq!(st.exact[0].name, b_sto("host.lan."));
    assert_eq!(
        st.exact[0].addrs,
        vec![
            ipv4_from_octets(10, 0, 0, 3),
            ipv4_from_octets(10, 0, 0, 6),
            ipv4_from_octets(10, 0, 0, 9)
        ]
    );
    assert_eq!(st.exact[1].name, b_sto("other.lan."));
    for entry in &st.exact {
        for w in entry.addrs.windows(2) {
            assert!(w[0] < w[1]);
        }
    }
}

#[test]
fn wildcard_entries_keep_order_and_duplicates() {
    let mk = |name: &str, a: u8| Binding { name: b_sto(name), addr: ipv4_from_octets(10, 0, 0, a) };
    let wild = vec![mk("*.lan.", 9), mk("*.lan.", 9), mk("*.other.", 1)];
    let st = build(&Vec::new(), &wild);
    assert_eq!(st.wildcards.len(), 3);
    assert_eq!(st.wildcards[0].name, b_sto("*.lan."));
    assert_eq!(st.wildcards[1].name, b_sto("*.lan."));
    assert_eq!(st.wildcards[0].addr, st.wildcards[1].addr);
}

#[test]
fn rebuild_from_unchanged_sources_is_identical() {
    let leases = vec![
        Lease { addr: ipv4_from_octets(10, 0, 0, 5), hostname: b_sto("printer") },
        Lease { addr: ipv4_from_octets(10, 0, 0, 6), hostname: b_sto("scanner") },
    ];
    let hosts = b_sto("10.0.0.9 *.example.com box\n10.0.0.2 box");
    let suffix = b_sto("lan");
    let first = build_from_sources(&leases, &hosts, &suffix);
    let second = build_from_sources(&leases, &hosts, &suffix);
    assert!(stores_identical(&first, &second));
}

#[test]
fn watch_step_fires_only_on_changed_stamps() {
    let st = WatchState { dhcp_stamp: Some(7), hosts_stamp: None };
    let (same, st2) = watch_step(&st, Some(7), None);
    assert!(!same);
    let (dhcp_changed, _) = watch_step(&st2, Some(8), None);
    assert!(dhcp_changed);
    let (hosts_appeared, st3) = watch_step(&st2, Some(7), Some(1));
    assert!(hosts_appeared);
    let (dhcp_vanished, _) = watch_step(&st3, None, Some(1));
    assert!(dhcp_vanished);
}

#[test]
fn failed_reload_keeps_previous_store() {
    let prev = build_from_sources(
        &vec![Lease { addr: ipv4_from_octets(10, 0, 0, 5), hostname: b_sto("printer") }],
        &Vec::new(),
        &b_sto("lan"),
    );
    let kept = settle_reload(prev, None);
    assert_eq!(kept.exact.len(), 1);
    assert_eq!(kept.exact[0].name, b_sto("printer.lan."));
    let fresh = build_from_sources(&Vec::new(), &Vec::new(), &b_sto("lan"));
    let swapped = settle_reload(kept, Some(fresh));
    assert!(swapped.exact.is_empty());
}

#[test]
fn default_constants() {
    assert_eq!(default_ttl(), 60);
    assert_eq!(reload_interval_secs(), 5);
}
