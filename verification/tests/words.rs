use udpcast::addr::{Ipv4Addr, SocketAddrV4};
use udpcast::process::child_status;
use udpcast::socklib::{
    bind_address, choose_interface, clear_ip, get_broadcast_address, get_default_mcast_address,
    get_mcast_all_address, get_my_address, ip_is_zero, is_mcast_address, make_sock_addr,
    parse_size, port_is_ours, set_ip_from_string, set_port, AddrType, InvalidAddress, NetIf,
    SizeError,
};
use udpcast::util::{parse_command, parse_tz_offset, time_of_day, TimeOfDay};

fn ip(a: u8, b: u8, c: u8, d: u8) -> Ipv4Addr {
    Ipv4Addr::new(a, b, c, d)
}

fn net_if(name: &str, addr: Ipv4Addr, bcast: Ipv4Addr) -> NetIf {
    NetIf {
        name: name.to_string(),
        addr,
        bcast,
        index: 0,
    }
}

#[test]
fn sizes() {
    assert_eq!(parse_size("4096"), Ok(4096));
    assert_eq!(parse_size(" 64k "), Ok(65536));
    assert_eq!(parse_size("64 K"), Ok(65536));
    assert_eq!(parse_size("3M"), Ok(3 << 20));
    assert_eq!(parse_size("+5"), Ok(5));
    assert_eq!(parse_size("x5"), Err(SizeError::Unit));
    assert_eq!(parse_size("5q"), Err(SizeError::Unit));
    assert_eq!(parse_size("18446744073709551615"), Ok(u64::MAX));
    assert_eq!(parse_size("18446744073709551615K"), Err(SizeError::TooLarge));
}

#[test]
fn letters_beyond_ascii_are_units() {
    assert_eq!(parse_size("5\u{3b1}"), Err(SizeError::Unit));
    assert_eq!(parse_size("5\u{20ac}"), Ok(0));
}

#[test]
fn addresses() {
    assert_eq!(
        make_sock_addr("10.0.0.1", 7),
        Ok(SocketAddrV4 { ip: ip(10, 0, 0, 1), port: 7 })
    );
    assert_eq!(make_sock_addr("10.0.0.256", 7), Err(InvalidAddress));
    assert_eq!(make_sock_addr("10.0.0", 7), Err(InvalidAddress));
    assert_eq!(make_sock_addr("10.0.0.01", 7), Err(InvalidAddress));
    assert_eq!(make_sock_addr("a.b.c.d", 7), Err(InvalidAddress));
    assert_eq!(set_ip_from_string("1.2.3.4").ip, ip(1, 2, 3, 4));
    assert_eq!(set_ip_from_string("nonsense"), clear_ip());
}

#[test]
fn interface_addresses() {
    let lo = net_if("lo", ip(127, 0, 0, 1), ip(0, 0, 0, 0));
    let eth = net_if("eth0", ip(192, 168, 1, 5), ip(192, 168, 1, 255));
    assert_eq!(get_my_address(&eth).ip, ip(192, 168, 1, 5));
    assert_eq!(get_broadcast_address(&eth, 9).ip, ip(192, 168, 1, 255));
    assert_eq!(get_broadcast_address(&lo, 9).ip, ip(127, 0, 0, 1));
    assert_eq!(get_default_mcast_address(&eth).ip, ip(232, 168, 1, 5));
    assert_eq!(get_default_mcast_address(&lo).ip, ip(239, 0, 0, 1));
    assert!(is_mcast_address(&get_default_mcast_address(&eth)));
    assert!(!is_mcast_address(&get_my_address(&eth)));
    assert_eq!(get_mcast_all_address(None, 4).ip, ip(224, 0, 0, 1));
    assert_eq!(get_mcast_all_address(Some("239.1.1.1"), 4).ip, ip(239, 1, 1, 1));
    assert_eq!(get_mcast_all_address(Some("?"), 4).ip, ip(224, 0, 0, 1));
    let mut a = get_my_address(&eth);
    set_port(&mut a, 99);
    assert_eq!(a.port, 99);
    assert!(!ip_is_zero(&a));
    assert!(ip_is_zero(&clear_ip()));
}

#[test]
fn ports_of_a_transfer() {
    assert!(port_is_ours(9000, 9000));
    assert!(port_is_ours(9001, 9000));
    assert!(!port_is_ours(9002, 9000));
}

#[test]
fn what_sockets_are_bound_to() {
    let eth = net_if("eth0", ip(192, 168, 1, 5), ip(192, 168, 1, 255));
    let p2p = net_if("ppp0", ip(10, 0, 0, 1), ip(0, 0, 0, 0));
    let group = SocketAddrV4 { ip: ip(232, 1, 1, 1), port: 1 };
    assert_eq!(
        bind_address(AddrType::Ucast, &eth, None, 8),
        Some(SocketAddrV4 { ip: ip(192, 168, 1, 5), port: 8 })
    );
    assert_eq!(
        bind_address(AddrType::Bcast, &eth, None, 8),
        Some(SocketAddrV4 { ip: ip(192, 168, 1, 255), port: 8 })
    );
    assert_eq!(bind_address(AddrType::Bcast, &p2p, None, 8), None);
    assert_eq!(
        bind_address(AddrType::Mcast, &eth, Some(group), 8),
        Some(SocketAddrV4 { ip: ip(232, 1, 1, 1), port: 8 })
    );
}

#[test]
fn interface_by_name_or_by_merit() {
    let list = vec![
        net_if("lo", ip(127, 0, 0, 1), ip(0, 0, 0, 0)),
        net_if("wlan0", ip(10, 0, 0, 7), ip(10, 0, 0, 255)),
        net_if("eth0", ip(192, 168, 1, 5), ip(192, 168, 1, 255)),
    ];
    assert_eq!(choose_interface(&list, Some("wlan0")), Some(1));
    assert_eq!(choose_interface(&list, Some("tun9")), None);
    assert_eq!(choose_interface(&list, None), Some(2));
    assert_eq!(choose_interface(&Vec::new(), None), None);
}

#[test]
fn commands_are_split_at_white_space() {
    assert_eq!(parse_command("/bin/gzip -c"), vec!["/bin/gzip".to_string(), "-c".to_string()]);
    assert_eq!(parse_command("  a\t\tb \n c\u{3000}d "), vec!["a", "b", "c", "d"]);
    assert!(parse_command("  ").is_empty());
    assert!(parse_command("").is_empty());
}

#[test]
fn time_zones() {
    assert_eq!(parse_tz_offset("+0200"), Some(7200));
    assert_eq!(parse_tz_offset("-0330"), Some(-12600));
    assert_eq!(parse_tz_offset("UTC+02:00"), Some(7200));
    assert_eq!(parse_tz_offset("UTC+2"), Some(7200));
    assert_eq!(parse_tz_offset("UTC-11"), Some(-39600));
    assert_eq!(parse_tz_offset("UTC+230"), Some(7200));
    assert_eq!(parse_tz_offset("A-B+0100"), Some(3600));
    assert_eq!(parse_tz_offset("Europe/Berlin"), None);
    assert_eq!(parse_tz_offset("A-1B+0100"), Some(-3600));
    assert_eq!(parse_tz_offset("+99999999999999999999"), None);
    assert_eq!(parse_tz_offset("+02"), Some(7200));
}

#[test]
fn times_of_day() {
    assert_eq!(
        time_of_day(1_000_000 * 86_399 + 7, 0),
        TimeOfDay { hour: 23, minute: 59, second: 59, micro: 7 }
    );
    assert_eq!(
        time_of_day(0, -1),
        TimeOfDay { hour: 23, minute: 59, second: 59, micro: 0 }
    );
    assert_eq!(
        time_of_day(0, 7200),
        TimeOfDay { hour: 2, minute: 0, second: 0, micro: 0 }
    );
    assert_eq!(
        time_of_day(0, -86400),
        TimeOfDay { hour: 0, minute: 0, second: 0, micro: 0 }
    );
}

#[test]
fn how_children_end() {
    assert_eq!(child_status(Some(0), None), 0);
    assert_eq!(child_status(Some(3), None), 3);
    assert_eq!(child_status(None, Some(9)), 1);
    assert_eq!(child_status(None, None), 0);
}
