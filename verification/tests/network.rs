use sysfacts::components::network::{
    build_fqdn, build_network_facts, build_network_facts_macos, extract_addrs, netmask_to_prefix,
    opt_str, parse_domain, parse_ifconfig_output, parse_network_output_windows, parse_resolv_conf,
    AddrInfo, IPDevice, NetworkComponent, NetworkError,
};

fn addr(family: &str, local: &str, prefixlen: u32, scope: &str) -> AddrInfo {
    AddrInfo {
        family: family.to_string(),
        local: local.to_string(),
        prefixlen,
        scope: scope.to_string(),
    }
}

/// The two devices of a sample `ip -j addr show` output: a loopback and an Ethernet device.
fn sample_devices() -> Vec<IPDevice> {
    vec![
        IPDevice {
            ifname: "lo".to_string(),
            mtu: 65536,
            operstate: "UNKNOWN".to_string(),
            link_type: "loopback".to_string(),
            address: "00:00:00:00:00:00".to_string(),
            addr_info: vec![addr("inet", "127.0.0.1", 8, "host"), addr("inet6", "::1", 128, "host")],
        },
        IPDevice {
            ifname: "enp0s1".to_string(),
            mtu: 1500,
            operstate: "UP".to_string(),
            link_type: "ether".to_string(),
            address: "56:a5:fa:dc:80:45".to_string(),
            addr_info: vec![
                addr("inet", "192.168.64.8", 24, "global"),
                addr("inet6", "fd08:b294:739c:b65:54a5:faff:fedc:8045", 64, "global"),
                addr("inet6", "fe80::54a5:faff:fedc:8045", 64, "link"),
            ],
        },
    ]
}

#[test]
fn test_parse_domain_none() {
    assert!(parse_domain("(none)").is_none());
}

#[test]
fn test_parse_domain_empty() {
    assert!(parse_domain("").is_none());
}

#[test]
fn test_parse_domain_valid() {
    assert_eq!(parse_domain("example.com"), Some("example.com".to_string()));
}

#[test]
fn test_build_fqdn_with_domain() {
    assert_eq!(
        build_fqdn("web01", &Some("example.com".to_string())),
        Some("web01.example.com".to_string())
    );
}

#[test]
fn test_build_fqdn_without_domain() {
    assert_eq!(build_fqdn("web01", &None), None);
}

#[test]
fn fqdn_follows_domain() {
    assert_eq!(build_fqdn("h", &parse_domain("(none)")), None);
    assert_eq!(build_fqdn("h", &parse_domain("d")), Some("h.d".to_string()));
}

#[test]
fn test_extract_addrs() {
    let devices = sample_devices();
    let eth = &devices[1];
    let (ip, prefix, ip6, prefix6) = extract_addrs(&eth.addr_info);
    assert_eq!(ip.as_deref(), Some("192.168.64.8"));
    assert_eq!(prefix, Some(24));
    assert_eq!(ip6.as_deref(), Some("fd08:b294:739c:b65:54a5:faff:fedc:8045"));
    assert_eq!(prefix6, Some(64));

    // loopback scope=host addresses should be included (only scope=link is skipped)
    let lo = &devices[0];
    let (lo_ip, _, lo_ip6, _) = extract_addrs(&lo.addr_info);
    assert_eq!(lo_ip.as_deref(), Some("127.0.0.1"));
    assert_eq!(lo_ip6.as_deref(), Some("::1"));
}

#[test]
fn extract_addrs_keeps_the_last() {
    let infos = vec![addr("inet", "10.0.0.1", 8, "global"), addr("inet", "10.0.0.2", 16, "global"), addr("inet", "10.0.0.3", 24, "link")];
    let (ip, prefix, ip6, prefix6) = extract_addrs(&infos);
    assert_eq!(ip.as_deref(), Some("10.0.0.2"));
    assert_eq!(prefix, Some(16));
    assert_eq!(ip6, None);
    assert_eq!(prefix6, None);
}

#[test]
fn network_facts_from_devices() {
    let _ = NetworkComponent::new();
    let facts = build_network_facts("web01".to_string(), "(none)", sample_devices());
    assert_eq!(facts.hostname, "web01");
    assert_eq!(facts.domain, None);
    assert_eq!(facts.fqdn, None);
    assert_eq!(facts.primary.as_deref(), Some("enp0s1"));
    assert_eq!(facts.ip.as_deref(), Some("192.168.64.8"));
    assert_eq!(facts.ip6.as_deref(), Some("fd08:b294:739c:b65:54a5:faff:fedc:8045"));
    assert_eq!(facts.mac.as_deref(), Some("56:a5:fa:dc:80:45"));
    assert_eq!(facts.mtu, Some(1500));
    assert_eq!(facts.interfaces.len(), 2);
    let lo = facts.interfaces.get("lo").unwrap();
    assert_eq!(lo.mtu, Some(65536));
    assert_eq!(lo.operational_state, "UNKNOWN");
    assert_eq!(lo.link_type, "loopback");
}

#[test]
fn test_netmask_to_prefix() {
    assert_eq!(netmask_to_prefix("0xffffff00"), Some(24));
    assert_eq!(netmask_to_prefix("0xffff0000"), Some(16));
    assert_eq!(netmask_to_prefix("0xff000000"), Some(8));
    assert_eq!(netmask_to_prefix("0xffffffff"), Some(32));
}

#[test]
fn netmask_edge_cases() {
    assert_eq!(netmask_to_prefix("0x0xff"), Some(8));
    assert_eq!(netmask_to_prefix("ff"), Some(8));
    assert_eq!(netmask_to_prefix("0x"), None);
    assert_eq!(netmask_to_prefix("0x1ffffffff"), None);
    assert_eq!(netmask_to_prefix("0xFFFF0000"), Some(16));
}

#[test]
fn test_parse_ifconfig_output() {
    let input = "\
lo0: flags=8049<LOOPBACK,UP,LOWER_UP> mtu 16384
\tinet 127.0.0.1 netmask 0xff000000
\tinet6 ::1 prefixlen 128
\tinet6 fe80::1%lo0 prefixlen 64 scopeid 0x1
en0: flags=8863<UP,BROADCAST,MULTICAST> mtu 1500
\tether 70:88:6b:8a:1b:3c
\tinet 192.168.1.5 netmask 0xffffff00 broadcast 192.168.1.255
\tinet6 fe80::7288:6bff:fe8a:1b3c%en0 prefixlen 64 scopeid 0x6
\tinet6 2001:db8::1 prefixlen 64
\tstatus: active
";
    let entries = parse_ifconfig_output(input);
    assert_eq!(entries.len(), 2);

    let lo = &entries[0];
    assert_eq!(lo.name, "lo0");
    assert_eq!(lo.link_type, "loopback");
    assert_eq!(lo.mtu, Some(16384));
    assert_eq!(lo.ip.as_deref(), Some("127.0.0.1"));
    assert_eq!(lo.prefix, Some(8));
    assert_eq!(lo.ip6.as_deref(), Some("::1"));
    assert_eq!(lo.prefix6, Some(128));

    let en = &entries[1];
    assert_eq!(en.name, "en0");
    assert_eq!(en.link_type, "ether");
    assert_eq!(en.mac.as_deref(), Some("70:88:6b:8a:1b:3c"));
    assert_eq!(en.ip.as_deref(), Some("192.168.1.5"));
    assert_eq!(en.prefix, Some(24));
    // fe80 should be skipped; 2001:db8::1 is the global address
    assert_eq!(en.ip6.as_deref(), Some("2001:db8::1"));
    assert_eq!(en.prefix6, Some(64));
    assert_eq!(en.operational_state, "UP");
}

#[test]
fn ifconfig_states_and_unnamed_headers() {
    let input = "gif0: flags=8010<POINTOPOINT,MULTICAST> mtu 1280\n\tstatus: inactive\nnonsense\n\tinet 1.2.3.4\n";
    let entries = parse_ifconfig_output(input);
    assert_eq!(entries.len(), 1);
    assert_eq!(entries[0].name, "gif0");
    assert_eq!(entries[0].operational_state, "DOWN");
    assert_eq!(entries[0].link_type, "other");
    assert_eq!(entries[0].ip, None);
}

#[test]
fn macos_primary_needs_an_address() {
    let input = "\
en1: flags=8863<UP> mtu 1500
\tether 11:22:33:44:55:66
en0: flags=8863<UP> mtu 1400
\tether aa:bb:cc:dd:ee:ff
\tinet 10.1.2.3 netmask 0xffff0000
";
    let facts = build_network_facts_macos("mac".to_string(), Some("lan".to_string()), parse_ifconfig_output(input));
    assert_eq!(facts.fqdn.as_deref(), Some("mac.lan"));
    assert_eq!(facts.primary.as_deref(), Some("en0"));
    assert_eq!(facts.ip.as_deref(), Some("10.1.2.3"));
    assert_eq!(facts.mac.as_deref(), Some("aa:bb:cc:dd:ee:ff"));
    assert_eq!(facts.mtu, Some(1400));
    assert_eq!(facts.interfaces.get("en0").unwrap().prefix, Some(16));
    assert_eq!(facts.interfaces.len(), 2);
}

#[test]
fn test_parse_resolv_conf_domain() {
    let input = "nameserver 8.8.8.8\ndomain example.com\n";
    assert_eq!(parse_resolv_conf(input), Some("example.com".to_string()));
}

#[test]
fn test_parse_resolv_conf_search_takes_first() {
    let input = "nameserver 8.8.8.8\nsearch example.com other.com\n";
    assert_eq!(parse_resolv_conf(input), Some("example.com".to_string()));
}

#[test]
fn test_parse_resolv_conf_no_domain() {
    let input = "nameserver 8.8.8.8\n";
    assert_eq!(parse_resolv_conf(input), None);
}

#[test]
fn resolv_conf_first_directive_decides() {
    assert_eq!(parse_resolv_conf("  search   \ndomain a.b\n"), Some("a.b".to_string()));
    assert_eq!(parse_resolv_conf("domain (none)\ndomain a.b\n"), None);
    assert_eq!(parse_resolv_conf("  domain (none)\n"), None);
    assert_eq!(parse_resolv_conf("search x.y\ndomain a.b\n"), Some("x.y".to_string()));
}

#[test]
fn test_parse_network_output_windows() {
    let input = "myhost\nexample.com\nEthernet\t00-11-22-33-44-55\t10.0.0.5\t24\t2001:db8::1\t64\t1500\tUP\tether\n";
    let facts = parse_network_output_windows(input).unwrap();
    assert_eq!(facts.hostname, "myhost");
    assert_eq!(facts.domain.as_deref(), Some("example.com"));
    assert_eq!(facts.fqdn.as_deref(), Some("myhost.example.com"));
    assert_eq!(facts.primary.as_deref(), Some("Ethernet"));
    assert_eq!(facts.ip.as_deref(), Some("10.0.0.5"));
    assert_eq!(facts.mtu, Some(1500));
    assert_eq!(facts.interfaces.len(), 1);
}

#[test]
fn network_output_windows_short_lines() {
    let input = "h\n\nWi-Fi\t\t\tx\n\t\tignored\n";
    let facts = parse_network_output_windows(input).unwrap();
    assert_eq!(facts.domain, None);
    assert_eq!(facts.primary, None);
    let w = facts.interfaces.get("Wi-Fi").unwrap();
    assert_eq!(w.mac, None);
    assert_eq!(w.prefix, None);
    assert_eq!(w.link_type, "");
    assert_eq!(facts.interfaces.len(), 1);
    assert_eq!(parse_network_output_windows("").err(), Some(NetworkError::MissingHostname));
    assert_eq!(parse_network_output_windows("h").err(), Some(NetworkError::MissingDomain));
}

#[test]
fn opt_str_empty() {
    assert_eq!(opt_str(""), None);
    assert_eq!(opt_str("a"), Some("a".to_string()));
}

#[test]
fn primary_is_first_ethernet_and_is_an_interface() {
    let mut devices = sample_devices();
    let mut second = sample_devices().remove(1);
    second.ifname = "enp0s2".to_string();
    second.mtu = 9000;
    devices.push(second);
    let facts = build_network_facts("h".to_string(), "corp.example", devices);
    assert_eq!(facts.primary.as_deref(), Some("enp0s1"));
    assert_eq!(facts.mtu, Some(1500));
    assert!(facts.interfaces.get("enp0s1").is_some());
    assert_eq!(facts.fqdn.as_deref(), Some("h.corp.example"));
    let none = build_network_facts("h".to_string(), "", vec![sample_devices().remove(0)]);
    assert_eq!(none.primary, None);
    assert_eq!(none.ip, None);
    assert_eq!(none.mac, None);
    assert_eq!(none.fqdn, None);
}

#[test]
fn ifconfig_never_keeps_link_local_ipv6() {
    let out = "en1: flags=8863<UP> mtu 1500\n\tinet6 fe80::1%en1 prefixlen 64\n\tether aa:bb:cc:dd:ee:ff\nen2: flags=8863<UP> mtu 1500\n\tinet6 fe80::2%en2 prefixlen 64\n\tinet6 2001:db8::5 prefixlen 48\n\tinet6 2001:db8::6 prefixlen 64\n";
    let entries = parse_ifconfig_output(out);
    assert_eq!(entries.len(), 2);
    assert_eq!(entries[0].ip6, None);
    assert_eq!(entries[1].ip6.as_deref(), Some("2001:db8::5"));
    assert_eq!(entries[1].prefix6, Some(48));
}
