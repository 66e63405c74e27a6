use dshe::addr::SocketAddr;

fn text_of(s: &str) -> Option<String> {
    SocketAddr::parse(s).map(|a| a.to_text())
}

#[test]
fn ipv4_addresses_are_read() {
    match SocketAddr::parse("10.0.1.172:51510") {
        Some(SocketAddr::V4 { octets, port }) => {
            assert_eq!(octets, [10, 0, 1, 172]);
            assert_eq!(port, 51510);
        }
        other => panic!("{other:?}"),
    }
}

#[test]
fn ipv6_addresses_are_read() {
    match SocketAddr::parse("[fe80::1%7]:80") {
        Some(SocketAddr::V6 { segments, port, scope_id }) => {
            assert_eq!(segments, [0xfe80, 0, 0, 0, 0, 0, 0, 1]);
            assert_eq!((port, scope_id), (80, 7));
        }
        other => panic!("{other:?}"),
    }
}

#[test]
fn what_is_no_address_is_refused() {
    for s in [
        "",
        "1.2.3.4",
        "1.2.3:4",
        "1.2.3.4:",
        "1.2.3.4:65536",
        "256.2.3.4:1",
        "01.2.3.4:1",
        "1.2.3.4 :1",
        "1.2.3.4:+1",
        "::1:80",
        "[::1]",
        "[::1]80",
        "[::1]:",
        "[1:2:3:4:5:6:7]:1",
        "[1:2:3:4:5:6:7:8:9]:1",
        "[1::2::3]:1",
        "[12345::]:1",
        "[::1%]:1",
        "[::1%4294967296]:1",
        "[::1:1.2.3.4:5]:1",
        "[1:2:3:4:5:6:7::8]:1",
        "host:1",
    ] {
        assert!(SocketAddr::parse(s).is_none(), "{s}");
    }
}

#[test]
fn addresses_are_written_in_short_form() {
    for (given, written) in [
        ("1.2.3.4:0", "1.2.3.4:0"),
        ("[::]:1", "[::]:1"),
        ("[0:0:0:0:0:0:0:1]:1", "[::1]:1"),
        ("[1:0:0:2:0:0:0:3]:9", "[1:0:0:2::3]:9"),
        ("[1:0:2:0:3:0:4:0]:9", "[1:0:2:0:3:0:4:0]:9"),
        ("[0:0:1:0:0:1:0:0]:9", "[::1:0:0:1:0:0]:9"),
        ("[::ffff:1.2.3.4]:5", "[::ffff:1.2.3.4]:5"),
        ("[0:0:0:0:0:ffff:102:304]:5", "[::ffff:1.2.3.4]:5"),
        ("[::1.2.3.4]:5", "[::102:304]:5"),
        ("[ABCD:EF01::]:65535", "[abcd:ef01::]:65535"),
        ("[1:2:3:4:5:6:1.2.3.4]:5", "[1:2:3:4:5:6:102:304]:5"),
        ("[fe80::1%0]:80", "[fe80::1]:80"),
        ("[fe80::1%12]:80", "[fe80::1%12]:80"),
        ("1.2.3.4:00080", "1.2.3.4:80"),
    ] {
        assert_eq!(text_of(given).as_deref(), Some(written), "{given}");
    }
}

#[test]
fn written_addresses_read_back() {
    for s in ["192.168.0.1:51510", "[2001:db8::8:800:200c:417a]:443", "[fe80::1%12]:80", "[::ffff:0.0.0.1]:2"] {
        let a = SocketAddr::parse(s).unwrap();
        let b = SocketAddr::parse(&a.to_text()).unwrap();
        assert!(a.same(&b), "{s}");
        assert_eq!(a.to_text(), s);
    }
}

#[test]
fn the_ip_is_written_without_port_and_scope() {
    assert_eq!(SocketAddr::parse("10.0.1.172:1").unwrap().ip_string(), "10.0.1.172");
    assert_eq!(SocketAddr::parse("[fe80::1%3]:1").unwrap().ip_string(), "fe80::1");
}

#[test]
fn addresses_differ_in_every_field() {
    let all = ["1.2.3.4:5", "1.2.3.5:5", "1.2.3.4:6", "[::1]:5", "[::1]:6", "[::2]:5", "[::1%1]:5"];
    for (i, a) in all.iter().enumerate() {
        for (j, b) in all.iter().enumerate() {
            let same = SocketAddr::parse(a).unwrap().same(&SocketAddr::parse(b).unwrap());
            assert_eq!(same, i == j);
        }
    }
}
