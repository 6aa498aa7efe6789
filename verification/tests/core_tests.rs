use netscan_core::device::{dedupe_devices, DeviceRecord};
use netscan_core::ip::{
    expand_cidr, expand_cidr_hosts, expand_ip_range, format_ipv4, is_private_ip, parse_cidr,
    parse_ipv4, sort_ips,
};
use netscan_core::mac::{extract_oui, normalize_mac, normalize_macs};
use netscan_core::oui::{parse_oui_line, VendorDatabase};
use netscan_core::parse::{arp_parse_line, parse_arp_output, parse_pipe_lines, split_on};
use netscan_core::scan::{
    aggregate_host, build_scan_results, get_common_ports, probe_step, ProbeEvent, ProbeState,
    ScanGate,
};
use netscan_core::NetError;

fn strs(v: &[&str]) -> Vec<String> {
    v.iter().map(|s| s.to_string()).collect()
}

#[test]
fn normalize_mac_hyphenated() {
    assert_eq!(normalize_mac("aa-bb-cc-dd-ee-ff"), "AA:BB:CC:DD:EE:FF");
}

#[test]
fn normalize_mac_already_canonical() {
    assert_eq!(normalize_mac("AA:BB:CC:DD:EE:FF"), "AA:BB:CC:DD:EE:FF");
}

#[test]
fn normalize_mac_canonical_lowercase() {
    assert_eq!(normalize_mac("aa:bb:cc:dd:ee:ff"), "AA:BB:CC:DD:EE:FF");
}

#[test]
fn normalize_mac_degraded_fallback() {
    assert_eq!(normalize_mac("xyz"), "XYZ");
}

#[test]
fn normalize_mac_plain_hex() {
    assert_eq!(normalize_mac("aabbccddeeff"), "AA:BB:CC:DD:EE:FF");
    assert_eq!(normalize_mac("0011.2233.4455"), "00:11:22:33:44:55");
}

#[test]
fn normalize_mac_idempotent_samples() {
    for input in [
        "aa-bb-cc-dd-ee-ff",
        "xyz",
        "AA:BB:CC:DD:EE:FF",
        "a b c",
        "0123456789a",
        "",
        "deadbeefcafebabe",
    ] {
        let once = normalize_mac(input);
        assert_eq!(normalize_mac(&once), once);
    }
}

#[test]
fn normalize_macs_batch_keeps_order() {
    let out = normalize_macs(&strs(&["aa-bb-cc-dd-ee-ff", "zz", "001122334455"]));
    assert_eq!(out, strs(&["AA:BB:CC:DD:EE:FF", "ZZ", "00:11:22:33:44:55"]));
}

#[test]
fn extract_oui_canonical() {
    assert_eq!(extract_oui("AA:BB:CC:DD:EE:FF"), "AA:BB:CC");
}

#[test]
fn extract_oui_short_input() {
    assert_eq!(extract_oui("ab"), "AB");
}

#[test]
fn vendor_database_lookup() {
    let db = VendorDatabase::from_lines(&strs(&[
        "AA:BB:CC   (hex)   Example Corp",
        "garbage line",
        "00-11-22   (hex)   Other Inc",
    ]));
    assert_eq!(db.len(), 2);
    assert_eq!(
        db.lookup_oui("AA:BB:CC:11:22:33"),
        Some("Example Corp".to_string())
    );
    assert_eq!(db.lookup_oui("aa-bb-cc-99-88-77"), Some("Example Corp".to_string()));
    assert_eq!(db.lookup_oui("00:11:22:33:44:55"), Some("Other Inc".to_string()));
    assert_eq!(db.lookup_oui("DE:AD:BE:EF:00:11"), None);
}

#[test]
fn vendor_database_last_line_wins() {
    let db = VendorDatabase::from_lines(&strs(&[
        "AA:BB:CC (hex) First",
        "AA:BB:CC (hex) Second",
    ]));
    assert_eq!(db.len(), 1);
    assert_eq!(db.lookup_oui("AA:BB:CC:00:00:00"), Some("Second".to_string()));
}

#[test]
fn oui_line_variants() {
    assert_eq!(
        parse_oui_line("AABBCC (hex) Compact Vendor"),
        Some((0xAABBCC, "Compact Vendor".to_string()))
    );
    assert_eq!(
        parse_oui_line("aa-bb-cc\t(hex)\tTabbed  "),
        Some((0xAABBCC, "Tabbed".to_string()))
    );
    assert_eq!(parse_oui_line("AA:BB:CC Example Corp"), None);
    assert_eq!(parse_oui_line("AA:BB (hex) Too Short"), None);
    assert_eq!(parse_oui_line("AA:BB:CC (hex)    "), None);
}

#[test]
fn lookup_ouis_batch() {
    let db = VendorDatabase::from_lines(&strs(&["AA:BB:CC (hex) Example Corp"]));
    let got = db.lookup_ouis(&strs(&[
        "aa:bb:cc:01:02:03",
        "11:22:33:44:55:66",
        "AABBCC000000",
    ]));
    assert_eq!(
        got,
        vec![
            ("aa:bb:cc:01:02:03".to_string(), "Example Corp".to_string()),
            ("AABBCC000000".to_string(), "Example Corp".to_string()),
        ]
    );
}

#[test]
fn expand_cidr_small_block() {
    let got = expand_cidr("192.168.1.0/30").unwrap();
    assert_eq!(
        got,
        strs(&["192.168.1.0", "192.168.1.1", "192.168.1.2", "192.168.1.3"])
    );
}

#[test]
fn expand_cidr_masks_host_bits() {
    let got = expand_cidr("10.0.0.9/30").unwrap();
    assert_eq!(got, strs(&["10.0.0.8", "10.0.0.9", "10.0.0.10", "10.0.0.11"]));
}

#[test]
fn expand_cidr_bare_address() {
    assert_eq!(expand_cidr("10.0.0.1").unwrap(), strs(&["10.0.0.1"]));
}

#[test]
fn expand_cidr_netmask_form() {
    let got = expand_cidr("192.168.5.0/255.255.255.252").unwrap();
    assert_eq!(got.len(), 4);
    assert_eq!(got[0], "192.168.5.0");
}

#[test]
fn parse_cidr_prefix_forms() {
    assert_eq!(parse_cidr("10.0.0.0/24"), Some(((10 << 24), 24)));
    assert_eq!(parse_cidr("10.0.0.0/08"), Some(((10 << 24), 8)));
    assert_eq!(parse_cidr("10.0.0.0/+24"), Some(((10 << 24), 24)));
    assert_eq!(parse_cidr("1.2.3.4/0"), Some((0x01020304, 0)));
    assert_eq!(parse_cidr("10.0.0.0/255.0.0.0"), Some(((10 << 24), 8)));
    assert_eq!(parse_cidr("10.0.0.0/255.0.255.0"), None);
    assert_eq!(parse_cidr("10.0.0.0/"), None);
    assert_eq!(parse_cidr("10.0.0.0/24 "), None);
}

#[test]
fn expand_cidr_invalid() {
    assert_eq!(expand_cidr("10.0.0.0/33"), Err(NetError::InvalidInput));
    assert_eq!(expand_cidr("abc/24"), Err(NetError::InvalidInput));
    assert_eq!(expand_cidr("1.2.3.4/8/9"), Err(NetError::InvalidInput));
    assert_eq!(expand_cidr("10.0.0.256/24"), Err(NetError::InvalidInput));
}

#[test]
fn expand_cidr_hosts_drops_edges() {
    let all = expand_cidr("192.168.1.0/29").unwrap();
    let hosts = expand_cidr_hosts("192.168.1.0/29").unwrap();
    assert_eq!(all.len(), 8);
    assert_eq!(hosts.len(), 6);
    assert_eq!(hosts[0], "192.168.1.1");
    assert_eq!(hosts[5], "192.168.1.6");
    for h in &hosts {
        assert!(all.contains(h));
    }
    assert!(!hosts.contains(&"192.168.1.0".to_string()));
    assert!(!hosts.contains(&"192.168.1.7".to_string()));
}

#[test]
fn expand_cidr_hosts_tiny_blocks_unchanged() {
    assert_eq!(
        expand_cidr_hosts("10.0.0.4/31").unwrap(),
        strs(&["10.0.0.4", "10.0.0.5"])
    );
    assert_eq!(expand_cidr_hosts("10.0.0.4/32").unwrap(), strs(&["10.0.0.4"]));
}

#[test]
fn expand_range_single() {
    assert_eq!(
        expand_ip_range("10.0.0.5", "10.0.0.5").unwrap(),
        strs(&["10.0.0.5"])
    );
}

#[test]
fn expand_range_backwards_fails() {
    assert_eq!(
        expand_ip_range("10.0.0.5", "10.0.0.2"),
        Err(NetError::InvalidRange)
    );
}

#[test]
fn expand_range_bad_endpoint_fails() {
    assert_eq!(
        expand_ip_range("10.0.0.x", "10.0.0.2"),
        Err(NetError::InvalidInput)
    );
    assert_eq!(
        expand_ip_range("10.0.0.1", "10.0.0"),
        Err(NetError::InvalidInput)
    );
}

#[test]
fn expand_range_spans_octets() {
    let got = expand_ip_range("10.0.0.254", "10.0.1.1").unwrap();
    assert_eq!(got, strs(&["10.0.0.254", "10.0.0.255", "10.0.1.0", "10.0.1.1"]));
}

#[test]
fn parse_and_format_ipv4() {
    assert_eq!(parse_ipv4("0.0.0.0"), Some(0));
    assert_eq!(parse_ipv4("255.255.255.255"), Some(u32::MAX));
    assert_eq!(parse_ipv4("10.0.0.1"), Some((10 << 24) | 1));
    assert_eq!(parse_ipv4("10.0.0.01"), None);
    assert_eq!(parse_ipv4("10.0.0"), None);
    assert_eq!(parse_ipv4("10.0.0.0.0"), None);
    assert_eq!(parse_ipv4("256.0.0.1"), None);
    assert_eq!(format_ipv4((10 << 24) | (0 << 16) | (2 << 8) | 17), "10.0.2.17");
}

#[test]
fn is_private_classification() {
    assert!(is_private_ip("10.1.2.3"));
    assert!(is_private_ip("172.16.0.1"));
    assert!(is_private_ip("172.31.255.255"));
    assert!(!is_private_ip("172.32.0.1"));
    assert!(is_private_ip("192.168.0.1"));
    assert!(is_private_ip("127.0.0.1"));
    assert!(is_private_ip("169.254.10.20"));
    assert!(!is_private_ip("8.8.8.8"));
    assert!(!is_private_ip("not an ip"));
}

#[test]
fn sort_ips_numeric_drops_malformed() {
    let got = sort_ips(strs(&["10.0.0.10", "10.0.0.2", "bad"]));
    assert_eq!(got, strs(&["10.0.0.2", "10.0.0.10"]));
}

#[test]
fn sort_ips_is_stable() {
    let got = sort_ips(strs(&["9.0.0.1", "1.2.3.4", "9.0.0.1", "1.2.3.4"]));
    assert_eq!(got, strs(&["1.2.3.4", "1.2.3.4", "9.0.0.1", "9.0.0.1"]));
}

#[test]
fn split_on_keeps_empty_pieces() {
    assert_eq!(split_on("a|b||c", '|'), strs(&["a", "b", "", "c"]));
    assert_eq!(split_on("", '|'), strs(&[""]));
}

#[test]
fn pipe_file_records() {
    let recs = parse_pipe_lines(&strs(&[
        "ip|mac|hostname",
        "10.0.0.1|AA:BB:CC:DD:EE:FF|gateway",
        "10.0.0.2|11:22:33:44:55:66",
    ]));
    assert_eq!(recs.len(), 2);
    assert_eq!(recs[0].get("ip"), Some("10.0.0.1".to_string()));
    assert_eq!(recs[0].get("hostname"), Some("gateway".to_string()));
    assert_eq!(recs[1].get("mac"), Some("11:22:33:44:55:66".to_string()));
    assert_eq!(recs[1].get("hostname"), None);
}

#[test]
fn pipe_file_empty_input() {
    assert_eq!(parse_pipe_lines(&strs(&[])).len(), 0);
    assert_eq!(parse_pipe_lines(&strs(&["ip|mac"])).len(), 0);
}

#[test]
fn arp_output_parsing() {
    let out = parse_arp_output(
        "gateway (192.168.1.1) at aa:bb:cc:dd:ee:ff on en0\nnot a match\n? (10.0.0.7) at 0:1:2:3:4:5 [ether]\n",
    );
    assert_eq!(out.len(), 2);
    assert_eq!(
        out[0],
        (
            "192.168.1.1".to_string(),
            "AA:BB:CC:DD:EE:FF".to_string(),
            "gateway".to_string()
        )
    );
    assert_eq!(out[1].0, "10.0.0.7");
    assert_eq!(out[1].2, "?");
}

#[test]
fn arp_line_rejects_shapes() {
    assert!(arp_parse_line("(1.2.3.4) at aa:bb").is_none());
    assert!(arp_parse_line("host 1.2.3.4 at aa:bb").is_none());
    assert!(arp_parse_line("host (1.2.3) at aa:bb").is_none());
    assert!(arp_parse_line("host (1.2.3.4) aa:bb").is_none());
}

#[test]
fn dedupe_merges_partial_records() {
    let mut a = DeviceRecord::new();
    a.set("ip".to_string(), "10.0.0.1".to_string());
    a.set("mac".to_string(), "AA:BB:CC:DD:EE:FF".to_string());
    a.set("hostname".to_string(), String::new());
    let mut b = DeviceRecord::new();
    b.set("ip".to_string(), "10.0.0.1".to_string());
    b.set("mac".to_string(), String::new());
    b.set("hostname".to_string(), "host1".to_string());

    for (first, second) in [(&a, &b), (&b, &a)] {
        let merged = dedupe_devices(&vec![first.duplicate(), second.duplicate()]);
        assert_eq!(merged.len(), 1);
        assert_eq!(merged[0].get("ip"), Some("10.0.0.1".to_string()));
        assert_eq!(merged[0].get("mac"), Some("AA:BB:CC:DD:EE:FF".to_string()));
        assert_eq!(merged[0].get("hostname"), Some("host1".to_string()));
    }
}

#[test]
fn record_field_names_cover_fields() {
    let mut r = DeviceRecord::new();
    r.set("ip".to_string(), "10.0.0.1".to_string());
    r.set("mac".to_string(), "AA:BB:CC:DD:EE:FF".to_string());
    let mut names = r.field_names();
    names.sort();
    assert_eq!(names, vec!["ip".to_string(), "mac".to_string()]);
}

#[test]
fn dedupe_higher_score_replaces() {
    let mut a = DeviceRecord::new();
    a.set("ip".to_string(), "10.0.0.1".to_string());
    let mut b = DeviceRecord::new();
    b.set("ip".to_string(), "10.0.0.1".to_string());
    b.set("mac".to_string(), "AA:BB:CC:DD:EE:FF".to_string());
    b.set("vendor".to_string(), "Example".to_string());
    let merged = dedupe_devices(&vec![a, b]);
    assert_eq!(merged.len(), 1);
    assert_eq!(merged[0].get("vendor"), Some("Example".to_string()));
}

#[test]
fn dedupe_drops_records_without_ip() {
    let mut a = DeviceRecord::new();
    a.set("mac".to_string(), "AA:BB:CC:DD:EE:FF".to_string());
    let mut b = DeviceRecord::new();
    b.set("ip".to_string(), "10.0.0.9".to_string());
    let merged = dedupe_devices(&vec![a, b]);
    assert_eq!(merged.len(), 1);
    assert_eq!(merged[0].get("ip"), Some("10.0.0.9".to_string()));
}

#[test]
fn scan_aggregation_no_open_ports() {
    let (ports, latency) = aggregate_host(&vec![(22, None), (80, None)]);
    assert!(ports.is_empty());
    assert_eq!(latency, 0);
    let results = build_scan_results(vec![("10.0.0.1".to_string(), ports, latency)]);
    assert!(results.is_empty());
}

#[test]
fn scan_aggregation_one_open_port() {
    let (ports, latency) = aggregate_host(&vec![(22, None), (80, Some(12)), (443, None)]);
    assert_eq!(ports, vec![80]);
    assert_eq!(latency, 12);
    let results = build_scan_results(vec![("10.0.0.1".to_string(), ports, latency)]);
    assert_eq!(results.len(), 1);
    assert_eq!(results[0].ip, "10.0.0.1");
    assert_eq!(results[0].open_ports, vec![80]);
    assert_eq!(results[0].status, "up");
    assert_eq!(results[0].response_time_ms, 12);
}

#[test]
fn scan_aggregation_minimum_latency() {
    let (ports, latency) = aggregate_host(&vec![(22, Some(30)), (80, Some(7)), (443, Some(19))]);
    assert_eq!(ports, vec![22, 80, 443]);
    assert_eq!(latency, 7);
}

#[test]
fn scan_gate_never_exceeds_ceiling() {
    let mut gate = ScanGate::new(2);
    let mut outstanding = 0u32;
    assert!(gate.try_acquire());
    outstanding += 1;
    assert!(gate.try_acquire());
    outstanding += 1;
    assert!(!gate.try_acquire());
    assert!(outstanding <= 2);
    gate.release();
    assert!(gate.try_acquire());
    let mut gate2 = ScanGate::new(3);
    let mut peak = 0;
    let mut held = 0;
    for step in 0..100 {
        if step % 3 == 2 && held > 0 {
            gate2.release();
            held -= 1;
        } else if gate2.try_acquire() {
            held += 1;
        }
        if held > peak {
            peak = held;
        }
    }
    assert!(peak <= 3);
}

#[test]
fn probe_state_machine_paths() {
    let s = probe_step(ProbeState::Pending, ProbeEvent::Admitted);
    assert_eq!(s, ProbeState::InFlight);
    assert_eq!(probe_step(s, ProbeEvent::Connected), ProbeState::Succeeded);
    assert_eq!(probe_step(s, ProbeEvent::Expired), ProbeState::TimedOut);
    assert_eq!(probe_step(ProbeState::Pending, ProbeEvent::Connected), ProbeState::Pending);
    assert_eq!(
        probe_step(ProbeState::Succeeded, ProbeEvent::Expired),
        ProbeState::Succeeded
    );
}

#[test]
fn common_ports_table() {
    let ports = get_common_ports();
    assert_eq!(
        ports,
        vec![
            21, 22, 23, 25, 53, 80, 110, 111, 135, 139, 143, 443, 445, 993, 995, 1723, 3306, 3389,
            5432, 5900, 8080, 8443
        ]
    );
    let mut sorted = ports.clone();
    sorted.sort();
    assert_eq!(sorted, ports);
}

#[test]
fn error_variants_are_distinct() {
    assert_ne!(NetError::InvalidInput, NetError::InvalidRange);
    assert_ne!(NetError::IoError, NetError::EncodingError);
}
