use screen_mirror::discovery::advertiser::{lan_ipv4_addrs, service_plan, IfAddr, NetInterface};
use screen_mirror::discovery::browser::{dedup_by_name, receivers_from_service, DiscoveredReceiver};
use screen_mirror::text::decimal_string;

fn iface(name: &str, addrs: Vec<IfAddr>) -> NetInterface {
    NetInterface { name: name.to_string(), addrs }
}

#[test]
fn lan_addresses_skip_virtual_interfaces_and_local_ranges() {
    let ifaces = vec![
        iface("lo0", vec![IfAddr::V4([127, 0, 0, 1])]),
        iface("en0", vec![IfAddr::V6, IfAddr::V4([192, 168, 1, 20]), IfAddr::V4([169, 254, 3, 4])]),
        iface("utun3", vec![IfAddr::V4([10, 8, 0, 2])]),
        iface("tun0", vec![IfAddr::V4([10, 9, 0, 2])]),
        iface("ppp0", vec![IfAddr::V4([10, 10, 0, 2])]),
        iface("bridge100", vec![IfAddr::V4([192, 168, 64, 1])]),
        iface("eth1", vec![IfAddr::V4([10, 0, 0, 5]), IfAddr::V4([127, 1, 1, 1]), IfAddr::V4([169, 253, 0, 1])]),
    ];
    assert_eq!(
        lan_ipv4_addrs(&ifaces),
        vec![[192, 168, 1, 20], [10, 0, 0, 5], [169, 253, 0, 1]]
    );
    assert_eq!(lan_ipv4_addrs(&vec![]), Vec::<[u8; 4]>::new());
}

#[test]
fn service_plan_lists_addresses_and_properties() {
    let p = service_plan("Living Room", "mac-mini", 40000, 8080, &vec![[192, 168, 1, 20], [10, 0, 0, 5]]);
    assert_eq!(p.instance_name, "Living Room");
    assert_eq!(p.host_name, "mac-mini.local.");
    assert_eq!(p.addresses, "192.168.1.20,10.0.0.5");
    assert!(!p.addr_auto);
    assert_eq!(p.port, 40000);
    assert_eq!(
        p.properties,
        vec![
            ("device_name".to_string(), "Living Room".to_string()),
            ("http_port".to_string(), "8080".to_string()),
        ]
    );
}

#[test]
fn service_plan_without_name_or_addresses() {
    let p = service_plan("", "host", 1, 0, &vec![]);
    assert_eq!(p.instance_name, "host");
    assert_eq!(p.addresses, "");
    assert!(p.addr_auto);
    assert_eq!(p.properties[0].1, "");
    assert_eq!(p.properties[1].1, "0");
}

#[test]
fn decimal_text() {
    assert_eq!(decimal_string(0), "0");
    assert_eq!(decimal_string(7), "7");
    assert_eq!(decimal_string(10), "10");
    assert_eq!(decimal_string(65535), "65535");
    assert_eq!(decimal_string(u64::MAX), "18446744073709551615");
}

#[test]
fn resolved_service_gives_one_receiver_per_address() {
    let addrs = vec![[192, 168, 1, 20], [10, 0, 0, 5]];
    let r = receivers_from_service("tv._screen._tcp.local.", Some("TV"), 9000, &addrs);
    assert_eq!(r.len(), 2);
    assert_eq!(r[0].name, "TV");
    assert_eq!(r[0].addr, ([192, 168, 1, 20], 9000));
    assert_eq!(r[1].addr, ([10, 0, 0, 5], 9000));

    let r = receivers_from_service("tv._screen._tcp.local.", Some(""), 9000, &addrs);
    assert_eq!(r[0].name, "tv._screen._tcp.local.");
    let r = receivers_from_service("full", None, 1, &vec![[1, 2, 3, 4]]);
    assert_eq!(r[0].name, "full");
    assert!(receivers_from_service("full", None, 1, &vec![]).is_empty());
}

fn dev(name: &str, addr: u32) -> DiscoveredReceiver<u32> {
    DiscoveredReceiver { name: name.to_string(), addr }
}

#[test]
fn duplicate_names_keep_the_first_receiver() {
    let devices = vec![dev("A", 1), dev("B", 2), dev("A", 3), dev("C", 4), dev("B", 5)];
    let out = dedup_by_name(devices);
    let got: Vec<(String, u32)> = out.into_iter().map(|d| (d.name, d.addr)).collect();
    assert_eq!(got, vec![("A".to_string(), 1), ("B".to_string(), 2), ("C".to_string(), 4)]);
    assert!(dedup_by_name(Vec::<DiscoveredReceiver<u32>>::new()).is_empty());
}
