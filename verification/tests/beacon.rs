use dshe::addr::SocketAddr;
use dshe::beacon::{announcement, beacon_multicast, beacon_packet, read_beacon, SenderTable, BEACON_PORT};

fn addrs(list: &[&str]) -> Vec<SocketAddr> {
    list.iter().map(|s| SocketAddr::parse(s).unwrap()).collect()
}

fn texts(list: &[SocketAddr]) -> Vec<String> {
    list.iter().map(|a| a.to_text()).collect()
}

#[test]
fn a_beacon_is_one_line_of_fields() {
    let packet = beacon_packet("id", &addrs(&["10.0.0.1:5", "[::1]:6"]), "hash", true, 1000, "my|folder");
    assert_eq!(packet, "DSHE1|id|hash|1|1000|10.0.0.1:5,[::1]:6|my|folder");
    let packet = beacon_packet("id", &[], "hash", false, 0, "");
    assert_eq!(packet, "DSHE1|id|hash|0|0||");
}

#[test]
fn a_beacon_reads_back() {
    let list = addrs(&["10.0.0.1:5", "[fe80::1%3]:6"]);
    let packet = beacon_packet("id", &list, "hash", true, u64::MAX, "a|b,c ü");
    let s = read_beacon(packet.as_bytes()).unwrap();
    assert_eq!(s.endpoint_id, "id");
    assert_eq!(s.hash, "hash");
    assert!(s.hash_seq);
    assert_eq!(s.size, u64::MAX);
    assert_eq!(s.name, "a|b,c ü");
    assert_eq!(texts(&s.addrs), vec!["10.0.0.1:5", "[fe80::1%3]:6"]);
}

#[test]
fn what_is_no_beacon_is_passed_over() {
    for packet in [
        &b""[..],
        b"DSHE1",
        b"DSHE2|a|b|1|1|x|n",
        b"DSHE1|a|b|1|1|x",
        b"DSHE1|a|b|1|1|x|\xff",
        b" DSHE1|a|b|1|1|x|n",
    ] {
        assert!(read_beacon(packet).is_none(), "{packet:?}");
    }
}

#[test]
fn odd_fields_have_defaults() {
    let s = read_beacon(b"DSHE1|a|b|true|12x|nonsense,1.2.3.4:5,|n").unwrap();
    assert!(!s.hash_seq);
    assert_eq!(s.size, 0);
    assert_eq!(texts(&s.addrs), vec!["1.2.3.4:5"]);
    let s = read_beacon(b"DSHE1||||18446744073709551616||").unwrap();
    assert_eq!(s.size, 0);
    assert_eq!(s.endpoint_id, "");
}

#[test]
fn senders_are_kept_by_id_in_order() {
    let mut table = SenderTable::new();
    table.observe(b"DSHE1|b|h1|1|1|1.1.1.1:1|first");
    table.observe(b"noise");
    table.observe(b"DSHE1|c|h2|1|2||third");
    table.observe(b"DSHE1|a|h3|0|3|9.9.9.9:9,9.9.9.9:9|zero");
    let senders = table.into_values();
    let ids: Vec<&str> = senders.iter().map(|s| s.endpoint_id.as_str()).collect();
    assert_eq!(ids, vec!["a", "b", "c"]);
    assert_eq!(texts(&senders[0].addrs), vec!["9.9.9.9:9"]);
    assert!(senders[2].addrs.is_empty());
}

#[test]
fn a_later_beacon_adds_addresses_only() {
    let mut table = SenderTable::new();
    table.observe(b"DSHE1|a|h1|1|1|1.1.1.1:1|first");
    table.observe(b"DSHE1|a|h2|0|2|2.2.2.2:2,1.1.1.1:1|second");
    let senders = table.into_values();
    assert_eq!(senders.len(), 1);
    let s = &senders[0];
    assert_eq!((s.hash.as_str(), s.hash_seq, s.size, s.name.as_str()), ("h1", true, 1, "first"));
    assert_eq!(texts(&s.addrs), vec!["1.1.1.1:1", "2.2.2.2:2"]);
}

#[test]
fn beacons_go_to_a_fixed_place() {
    assert_eq!(BEACON_PORT, 51510);
    assert_eq!(beacon_multicast(), [239, 255, 43, 211]);
}

#[test]
fn ids_and_hashes_are_announced_in_hexadecimal() {
    let packet = announcement(&[0xab; 32], &addrs(&["1.2.3.4:5"]), &[0x01; 32], true, 7, "n");
    let expected = format!("DSHE1|{}|{}|1|7|1.2.3.4:5|n", "ab".repeat(32), "01".repeat(32));
    assert_eq!(packet, expected);
}
