use zone_prefix_sync::address::{
    change_ipv6_prefix, compare_prefixes, decompose, format_address, parse_address, parse_prefix,
    recombine, Ipv6Address,
};
use zone_prefix_sync::interface::Interface;
use zone_prefix_sync::record::{
    get_ipv6_address_from_record_db_line, update_ipv6_address_in_record_db_line,
};
use zone_prefix_sync::run::{dry_run_report, read_config, write_config};
use zone_prefix_sync::address::HostAddress;
use zone_prefix_sync::zone::{get_ipv6_addresses_from_config, update_config, ZoneError};

fn addr(text: &str) -> Ipv6Address {
    parse_address(text).expect("test literal parses")
}

fn hosts(names: &[&str]) -> Vec<String> {
    names.iter().map(|n| n.to_string()).collect()
}

const LINE_A: &str = "foo.example.com. 3600 IN AAAA 2001:db8:1111:2222:3333:4444:5555:6666";

#[test]
fn stale_record_is_moved() {
    let rec = update_config(LINE_A, &hosts(&["foo.example.com"]), 64, &addr("2001:db8:aaaa:bbbb::"))
        .unwrap();
    assert_eq!(
        rec.new_text,
        "foo.example.com. 3600 IN AAAA 2001:db8:aaaa:bbbb:3333:4444:5555:6666"
    );
    assert_eq!(rec.plan.len(), 1);
    assert_eq!(rec.plan[0].line_index, 0);
    assert_eq!(rec.plan[0].old_line, LINE_A);
    assert_eq!(write_config(&rec, false), Some(rec.new_text.clone()));
}

#[test]
fn current_record_is_kept() {
    let rec = update_config(LINE_A, &hosts(&["foo.example.com"]), 64, &addr("2001:db8:1111:2222::"))
        .unwrap();
    assert!(rec.plan.is_empty());
    assert_eq!(rec.new_text, LINE_A);
    assert_eq!(write_config(&rec, false), None);
}

#[test]
fn missing_host_is_an_error() {
    let r = update_config(LINE_A, &hosts(&["bar.example.com"]), 64, &addr("2001:db8:aaaa:bbbb::"));
    assert_eq!(r, Err(ZoneError::RecordNotFound { host: "bar.example.com".to_string() }));
}

#[test]
fn dry_run_reports_and_writes_nothing() {
    let rec = update_config(LINE_A, &hosts(&["foo.example.com"]), 64, &addr("2001:db8:aaaa:bbbb::"))
        .unwrap();
    assert_eq!(write_config(&rec, true), None);
    let report = dry_run_report(&rec.plan);
    assert_eq!(
        report,
        vec![(
            LINE_A.to_string(),
            "foo.example.com. 3600 IN AAAA 2001:db8:aaaa:bbbb:3333:4444:5555:6666".to_string()
        )]
    );
}

#[test]
fn literal_round_trips_through_text() {
    for text in ["2001:db8:1111:2222:3333:4444:5555:6666", "2001:0DB8:0:0:0:0:0:1", "::", "fe80::1:2", "::ffff:1.2.3.4"] {
        let a = addr(text);
        let formatted = format_address(&a);
        assert_eq!(parse_address(&formatted), Some(a));
    }
}

#[test]
fn format_is_canonical() {
    assert_eq!(format_address(&addr("2001:0DB8:0000:0000:0000:0000:0000:0001")), "2001:db8::1");
    assert_eq!(
        format_address(&Ipv6Address { segments: [0x2001, 0xdb8, 0, 1, 0, 0, 0, 0] }),
        "2001:db8:0:1::"
    );
}

#[test]
fn parse_rejects_bad_literals() {
    assert_eq!(parse_address("2001:db8::g"), None);
    assert_eq!(parse_address(""), None);
    assert_eq!(parse_address("1:2:3:4:5:6:7:8:9"), None);
    assert_eq!(parse_address("2001:db8::/64"), None);
}

#[test]
fn parse_reads_prefix() {
    assert_eq!(parse_prefix("2001:db8:aaaa:bbbb::/64"), Some((addr("2001:db8:aaaa:bbbb::"), 64)));
    assert_eq!(parse_prefix("2001:db8::/129"), None);
    assert_eq!(parse_prefix("2001:db8::"), None);
}

#[test]
fn decompose_then_recombine_keeps_host() {
    let a = addr("2001:db8:1111:2222:3333:4444:5555:6666");
    let (network, host) = decompose(&a, 64);
    assert_eq!(network, addr("2001:db8:1111:2222::"));
    assert_eq!(host, addr("::3333:4444:5555:6666"));
    assert_eq!(recombine(&network, &host, 64), a);
    let moved = recombine(&addr("fd00:1:2:3::"), &host, 64);
    assert_eq!(moved, addr("fd00:1:2:3:3333:4444:5555:6666"));
    let (_, moved_host) = decompose(&moved, 64);
    assert_eq!(moved_host, host);
    let (n48, h48) = decompose(&a, 48);
    assert_eq!(n48, addr("2001:db8:1111::"));
    assert_eq!(h48, addr("0:0:0:2222:3333:4444:5555:6666"));
    let (n0, h0) = decompose(&a, 0);
    assert_eq!(n0, addr("::"));
    assert_eq!(h0, a);
    let (n128, h128) = decompose(&a, 128);
    assert_eq!(n128, a);
    assert_eq!(h128, addr("::"));
}

#[test]
fn prefixes_compare_by_network_segments() {
    let a = addr("2001:db8:1111:2222:3333:4444:5555:6666");
    assert!(compare_prefixes(&a, &addr("2001:db8:1111:2222::"), 64));
    assert!(!compare_prefixes(&a, &addr("2001:db8:1111:2223::"), 64));
    assert!(compare_prefixes(&a, &addr("2001:db8:1111:9999::"), 48));
    assert!(compare_prefixes(&a, &addr("::"), 0));
}

#[test]
fn change_prefix_replaces_network_only() {
    let a = addr("2001:db8:1111:2222:3333:4444:5555:6666");
    assert_eq!(
        change_ipv6_prefix(&a, &addr("2001:db8:aaaa:bbbb::"), 64),
        addr("2001:db8:aaaa:bbbb:3333:4444:5555:6666")
    );
    assert_eq!(
        change_ipv6_prefix(&a, &addr("fd00:ffff:eeee:dddd:cccc::"), 48),
        addr("fd00:ffff:eeee:2222:3333:4444:5555:6666")
    );
}

#[test]
fn second_run_changes_nothing() {
    let zone = "$TTL 3600\nfoo.example.com. IN AAAA 2001:db8:1111:2222::10\nbar IN AAAA 2001:db8:1111:2222:0:0:0:20 ; web\n";
    let listed = hosts(&["foo.example.com", "bar"]);
    let d = addr("2001:db8:aaaa:bbbb::");
    let first = update_config(zone, &listed, 64, &d).unwrap();
    assert_eq!(first.plan.len(), 2);
    assert_eq!(
        first.new_text,
        "$TTL 3600\nfoo.example.com. IN AAAA 2001:db8:aaaa:bbbb::10\nbar IN AAAA 2001:db8:aaaa:bbbb::20 ; web\n"
    );
    let second = update_config(&first.new_text, &listed, 64, &d).unwrap();
    assert!(second.plan.is_empty());
    assert_eq!(second.new_text, first.new_text);
}

#[test]
fn only_listed_stale_lines_change() {
    let zone = "; foo.example.com. IN AAAA 2001:db8:1111:2222::1\n\
foo.example.com. IN AAAA 2001:db8:1111:2222::1\n\
other.example.com. IN AAAA 2001:db8:1111:2222::2\n\
www IN A 192.0.2.1\n\
kept.example.com.\t300\tIN\tAAAA\t2001:db8:aaaa:bbbb::3\n";
    let listed = hosts(&["foo.example.com", "kept.example.com"]);
    let rec = update_config(zone, &listed, 64, &addr("2001:db8:aaaa:bbbb::")).unwrap();
    let old: Vec<&str> = zone.split('\n').collect();
    let new: Vec<&str> = rec.new_text.split('\n').collect();
    assert_eq!(old.len(), new.len());
    for (i, (o, n)) in old.iter().zip(new.iter()).enumerate() {
        if i == 1 {
            assert_eq!(*n, "foo.example.com. IN AAAA 2001:db8:aaaa:bbbb::1");
        } else {
            assert_eq!(o, n);
        }
    }
    assert_eq!(rec.plan.len(), 1);
    assert_eq!(rec.plan[0].line_index, 1);
}

#[test]
fn last_record_of_a_host_wins() {
    let zone = "foo IN AAAA 2001:db8:1111:2222::1\nfoo IN AAAA 2001:db8:1111:2222::2";
    let rec = update_config(zone, &hosts(&["foo"]), 64, &addr("2001:db8:aaaa:bbbb::")).unwrap();
    assert_eq!(rec.new_text, "foo IN AAAA 2001:db8:1111:2222::1\nfoo IN AAAA 2001:db8:aaaa:bbbb::2");
}

#[test]
fn line_terminators_are_kept() {
    let zone = "foo IN AAAA 2001:db8:1111:2222::1\r\nbar IN AAAA 2001:db8:1111:2222::2\r\n";
    let rec = update_config(zone, &hosts(&["foo"]), 64, &addr("2001:db8:aaaa:bbbb::")).unwrap();
    assert_eq!(
        rec.new_text,
        "foo IN AAAA 2001:db8:aaaa:bbbb::1\r\nbar IN AAAA 2001:db8:1111:2222::2\r\n"
    );
}

#[test]
fn record_without_literal_is_malformed() {
    let zone = "x IN A 192.0.2.1\nfoo IN AAAA\n";
    let r = update_config(zone, &hosts(&["foo"]), 64, &addr("2001:db8::"));
    assert_eq!(r, Err(ZoneError::MalformedRecord { host: "foo".to_string(), line_index: 1 }));
    let zone = "foo IN AAAA not-an-address\n";
    let r = update_config(zone, &hosts(&["foo"]), 64, &addr("2001:db8::"));
    assert_eq!(r, Err(ZoneError::MalformedRecord { host: "foo".to_string(), line_index: 0 }));
}

#[test]
fn first_failing_host_is_reported() {
    let r = update_config(LINE_A, &hosts(&["foo.example.com", "a", "b"]), 64, &addr("2001:db8::"));
    assert_eq!(r, Err(ZoneError::RecordNotFound { host: "a".to_string() }));
}

#[test]
fn unaligned_prefix_length_is_refused() {
    let r = update_config(LINE_A, &hosts(&["foo.example.com"]), 60, &addr("2001:db8::"));
    assert_eq!(r, Err(ZoneError::InvalidPrefixLength { prefix_len: 60 }));
    let r = update_config(LINE_A, &hosts(&["foo.example.com"]), 144, &addr("2001:db8::"));
    assert_eq!(r, Err(ZoneError::InvalidPrefixLength { prefix_len: 144 }));
}

#[test]
fn empty_zone_has_no_records() {
    let r = update_config("", &hosts(&["foo"]), 64, &addr("2001:db8::"));
    assert_eq!(r, Err(ZoneError::RecordNotFound { host: "foo".to_string() }));
    let rec = update_config("", &hosts(&[]), 64, &addr("2001:db8::")).unwrap();
    assert_eq!(rec.new_text, "");
    assert!(rec.plan.is_empty());
}

#[test]
fn record_line_address_is_read() {
    let h = get_ipv6_address_from_record_db_line(LINE_A, 64).unwrap();
    assert_eq!(h.address, addr("2001:db8:1111:2222:3333:4444:5555:6666"));
    assert_eq!(h.prefix_len, 64);
    assert_eq!(get_ipv6_address_from_record_db_line("www IN A 192.0.2.1", 64), None);
    assert_eq!(get_ipv6_address_from_record_db_line("foo IN AAAA", 64), None);
}

#[test]
fn record_line_address_is_rewritten() {
    let old = addr("2001:db8:1111:2222:3333:4444:5555:6666");
    let new = addr("2001:db8::1");
    assert_eq!(
        update_ipv6_address_in_record_db_line("foo 60 IN AAAA 2001:db8:1111:2222:3333:4444:5555:6666 ; c", &old, &new),
        Some("foo 60 IN AAAA 2001:db8::1 ; c".to_string())
    );
    assert_eq!(update_ipv6_address_in_record_db_line(LINE_A, &new, &old), None);
}

#[test]
fn config_prefix_length_is_checked() {
    let c = read_config(hosts(&["foo"]), 48, "db.zone".to_string()).unwrap();
    assert_eq!(c.prefix_size, 48);
    assert_eq!(c.hosts, hosts(&["foo"]));
    assert_eq!(
        read_config(hosts(&["foo"]), 50, "db.zone".to_string()),
        Err(ZoneError::InvalidPrefixLength { prefix_len: 50 })
    );
}

#[test]
fn interface_address_is_chosen_by_name() {
    let ifaces = vec![
        Interface { name: "lo".to_string(), addresses: vec![addr("::1")] },
        Interface { name: "eth0".to_string(), addresses: vec![] },
        Interface { name: "eth0".to_string(), addresses: vec![addr("2001:db8::5"), addr("fe80::5")] },
    ];
    assert_eq!(Interface::get_ipv6_address(&ifaces, "eth0"), Some(addr("2001:db8::5")));
    assert_eq!(Interface::get_ipv6_address(&ifaces, "lo"), Some(addr("::1")));
    assert_eq!(Interface::get_ipv6_address(&ifaces, "wlan0"), None);
}

#[test]
fn all_record_addresses_are_collected() {
    let zone = "$ORIGIN example.com.\n; old IN AAAA 2001:db8::99\nfoo IN AAAA 2001:db8::1\nwww IN A 192.0.2.1\nbar 60 IN AAAA 2001:db8:1:2::2\n";
    let mut found = vec![HostAddress { address: addr("::1"), prefix_len: 128 }];
    assert_eq!(get_ipv6_addresses_from_config(zone, &mut found, 64), Ok(()));
    assert_eq!(
        found,
        vec![
            HostAddress { address: addr("::1"), prefix_len: 128 },
            HostAddress { address: addr("2001:db8::1"), prefix_len: 64 },
            HostAddress { address: addr("2001:db8:1:2::2"), prefix_len: 64 },
        ]
    );
    let mut none = Vec::new();
    assert_eq!(get_ipv6_addresses_from_config("a IN AAAA 1::1\nb IN AAAA x\n", &mut none, 64), Err(1));
    assert!(none.is_empty());
}
