use net::address::AddressParseError;
use net::PeerAddress;

#[test]
fn an_ipv4_endpoint_is_read_from_dotted_text() {
    let addr: PeerAddress = "127.0.0.1:3000".parse().unwrap();
    assert_eq!(addr, PeerAddress::V4 { ip: 0x7f00_0001, port: 3000 });
    assert_eq!(addr, PeerAddress::v4(127, 0, 0, 1, 3000));
    assert_eq!(
        PeerAddress::parse(b"0.0.0.0:0"),
        Some(PeerAddress::V4 { ip: 0, port: 0 })
    );
    assert_eq!(
        PeerAddress::parse(b"255.255.255.255:65535"),
        Some(PeerAddress::V4 { ip: u32::MAX, port: u16::MAX })
    );
    assert_eq!(
        PeerAddress::parse(b"192.168.1.20:4567"),
        Some(PeerAddress::V4 { ip: 0xc0a8_0114, port: 4567 })
    );
}

#[test]
fn what_is_no_plain_ipv4_endpoint_is_turned_down() {
    let bad: [&str; 22] = [
        "",
        "127.0.0.1",
        "127.0.0.1:",
        ":3000",
        "127.0.0:3000",
        "127.0.0.1.5:3000",
        "127.0.0.256:3000",
        "127.0.0.1:65536",
        "127.0.0.01:3000",
        "127.0.0.1:03000",
        "127.0.0.-1:3000",
        "127.0.0.1:-3000",
        "127..0.1:3000",
        "127.0.0.1:3000 ",
        " 127.0.0.1:3000",
        "127.0.0.1:3000:1",
        "127,0,0,1:3000",
        "localhost:3000",
        "1.2.3.4:99999999999",
        "[::1]:3000",
        "0x7f.0.0.1:3000",
        "127.0.0.1;3000",
    ];
    for text in bad {
        assert_eq!(text.parse::<PeerAddress>(), Err(AddressParseError), "{:?}", text);
    }
}

#[test]
fn an_ipv4_endpoint_is_written_as_dotted_text() {
    assert_eq!(PeerAddress::v4(127, 0, 0, 1, 3000).to_text(), b"127.0.0.1:3000".to_vec());
    assert_eq!(PeerAddress::V4 { ip: 0, port: 0 }.to_text(), b"0.0.0.0:0".to_vec());
    assert_eq!(
        PeerAddress::V4 { ip: u32::MAX, port: u16::MAX }.to_text(),
        b"255.255.255.255:65535".to_vec()
    );
    assert_eq!(PeerAddress::v4(10, 200, 3, 40, 80).to_text(), b"10.200.3.40:80".to_vec());
}

#[test]
fn reading_what_was_written_gives_the_endpoint_back() {
    for ip in [0u32, 1, 255, 256, 0x7f00_0001, 0xc0a8_0114, 0x0102_0304, u32::MAX] {
        for port in [0u16, 1, 80, 4567, 65535] {
            let addr = PeerAddress::V4 { ip, port };
            assert_eq!(PeerAddress::parse(&addr.to_text()), Some(addr));
        }
    }
}

#[test]
fn an_ipv6_endpoint_is_written_in_full() {
    let loopback = PeerAddress::V6 { ip: 1, port: 3000, flowinfo: 0, scope_id: 0 };
    assert_eq!(loopback.to_text(), b"[0:0:0:0:0:0:0:1]:3000".to_vec());
    let documentation = PeerAddress::V6 {
        ip: 0x2001_0db8_0000_0000_0000_ff00_0042_8329,
        port: 4567,
        flowinfo: 9,
        scope_id: 0,
    };
    assert_eq!(documentation.to_text(), b"[2001:db8:0:0:0:ff00:42:8329]:4567".to_vec());
    let link_local = PeerAddress::V6 {
        ip: 0xfe80_0000_0000_0000_0000_0000_0000_00ab,
        port: 1,
        flowinfo: 0,
        scope_id: 3,
    };
    assert_eq!(link_local.to_text(), b"[fe80:0:0:0:0:0:0:ab%3]:1".to_vec());
    let all = PeerAddress::V6 { ip: u128::MAX, port: 65535, flowinfo: 0, scope_id: 0 };
    assert_eq!(
        all.to_text(),
        b"[ffff:ffff:ffff:ffff:ffff:ffff:ffff:ffff]:65535".to_vec()
    );
}

#[test]
fn endpoints_compare_by_all_their_parts() {
    let a = PeerAddress::v4(127, 0, 0, 1, 3000);
    assert_eq!(a, PeerAddress::v4(127, 0, 0, 1, 3000));
    assert_ne!(a, PeerAddress::v4(127, 0, 0, 1, 3001));
    assert_ne!(a, PeerAddress::v4(127, 0, 0, 2, 3000));
    assert_ne!(a, PeerAddress::V6 { ip: 0x7f00_0001, port: 3000, flowinfo: 0, scope_id: 0 });
    let mut seen = std::collections::HashSet::new();
    assert!(seen.insert(a));
    assert!(!seen.insert(PeerAddress::v4(127, 0, 0, 1, 3000)));
}
