use dshe::addr::SocketAddr;
use dshe::beacon::{beacon_packet, read_beacon, DiscoveredSender};
use dshe::options::AddrInfoOptions;
use dshe::ticket::{
    apply_options, build_ticket, needs_lookup, share_ticket, ticket_from_parts, ticket_qr, write_receive_command,
    EndpointAddr, Ticket, TicketError, TransportAddr,
};

fn key() -> [u8; 32] {
    *iroh::SecretKey::from_bytes(&[7u8; 32]).public().as_bytes()
}

fn endpoint() -> EndpointAddr {
    EndpointAddr {
        id: key(),
        addrs: vec![
            TransportAddr::Relay("https://relay.example.com/".to_string()),
            TransportAddr::Ip(SocketAddr::parse("10.0.0.1:5").unwrap()),
            TransportAddr::Custom("x".to_string()),
            TransportAddr::Ip(SocketAddr::parse("[::1]:6").unwrap()),
        ],
    }
}

fn shown(addr: &EndpointAddr) -> Vec<String> {
    addr.addrs
        .iter()
        .map(|a| match a {
            TransportAddr::Relay(u) => format!("relay {u}"),
            TransportAddr::Ip(a) => format!("ip {}", a.to_text()),
            TransportAddr::Custom(s) => format!("custom {s}"),
        })
        .collect()
}

fn sender(id: &str, hash: &str) -> DiscoveredSender {
    DiscoveredSender {
        endpoint_id: id.to_string(),
        hash: hash.to_string(),
        hash_seq: true,
        name: "n".to_string(),
        size: 1,
        addrs: vec![SocketAddr::parse("10.0.0.1:5").unwrap()],
    }
}

#[test]
fn the_type_decides_what_a_ticket_holds() {
    let all = vec!["relay https://relay.example.com/", "ip 10.0.0.1:5", "custom x", "ip [::1]:6"];
    for (opts, left, lookup) in [
        (AddrInfoOptions::Id, vec![], true),
        (AddrInfoOptions::RelayAndAddresses, all, false),
        (AddrInfoOptions::Relay, vec!["relay https://relay.example.com/"], false),
        (AddrInfoOptions::Addresses, vec!["ip 10.0.0.1:5", "ip [::1]:6"], false),
    ] {
        let mut addr = endpoint();
        apply_options(&mut addr, opts);
        assert_eq!(shown(&addr), left);
        assert_eq!(addr.id, key());
        assert_eq!(needs_lookup(&addr), lookup);
        apply_options(&mut addr, opts);
        assert_eq!(shown(&addr), left);
    }
}

#[test]
fn an_endpoint_with_custom_addresses_alone_is_looked_up() {
    let addr = EndpointAddr { id: key(), addrs: vec![TransportAddr::Custom("x".to_string())] };
    assert!(needs_lookup(&addr));
}

#[test]
fn a_ticket_is_that_of_the_blobs_crate() {
    let t = Ticket { addr: endpoint(), hash: [3; 32], hash_seq: true };
    let text = t.to_text().unwrap();
    let outside: iroh_blobs::ticket::BlobTicket = text.parse().unwrap();
    assert_eq!(outside.hash(), iroh_blobs::Hash::from_bytes([3; 32]));
    assert_eq!(outside.format(), iroh_blobs::BlobFormat::HashSeq);
    assert_eq!(outside.addr().id.as_bytes(), &key());
    assert_eq!(outside.addr().ip_addrs().count(), 2);
    assert_eq!(outside.addr().relay_urls().count(), 1);
    assert!(text.starts_with("blob"));
}

#[test]
fn a_ticket_reads_back() {
    for hash_seq in [true, false] {
        let t = Ticket { addr: endpoint(), hash: [9; 32], hash_seq };
        let back = Ticket::parse(&t.to_text().unwrap()).unwrap();
        assert_eq!(back.addr.id, key());
        assert_eq!(back.hash, [9; 32]);
        assert_eq!(back.hash_seq, hash_seq);
        assert_eq!(
            shown(&back.addr),
            vec!["relay https://relay.example.com/", "ip 10.0.0.1:5", "ip [::1]:6"]
        );
    }
}

#[test]
fn the_text_of_a_ticket_leaves_scopes_out() {
    let addrs = ["[fe80::1%3]:7", "10.0.0.1:5", "10.0.0.1:5", "[2001:db8::1]:6"];
    let addr = EndpointAddr {
        id: key(),
        addrs: addrs.iter().map(|a| TransportAddr::Ip(SocketAddr::parse(a).unwrap())).collect(),
    };
    let t = Ticket { addr, hash: [9; 32], hash_seq: true };
    let text = t.to_text().unwrap();
    assert_eq!(text.trim(), text);
    let mut back = shown(&Ticket::parse(&text).unwrap().addr);
    back.sort();
    assert_eq!(back, vec!["ip 10.0.0.1:5", "ip [2001:db8::1]:6", "ip [fe80::1]:7"]);
}

#[test]
fn the_text_of_a_ticket_is_a_word_in_base_32() {
    let t = Ticket { addr: endpoint(), hash: [0xff; 32], hash_seq: false };
    let text = t.to_text().unwrap();
    let rest = text.strip_prefix("blob").unwrap();
    assert!(rest.chars().all(|c| matches!(c, 'a'..='z' | '2'..='7')));
    // the variant of the format is the first byte, the endpoint follows
    assert_eq!(data_of(rest)[0], 0);
    assert_eq!(data_of(rest)[1..33], key());
}

fn data_of(text: &str) -> Vec<u8> {
    let mut bits: Vec<u8> = vec![];
    for c in text.chars() {
        let d = if c < 'a' { c as u8 - b'2' + 26 } else { c as u8 - b'a' };
        bits.extend((0..5).rev().map(|i| d >> i & 1));
    }
    bits.chunks_exact(8).map(|b| b.iter().fold(0, |n, bit| n * 2 + bit)).collect()
}

#[test]
fn a_ticket_holds_one_relay() {
    let relay = |url: &str| TransportAddr::Relay(url.to_string());
    let addr = EndpointAddr { id: key(), addrs: vec![relay("https://b.example/"), relay("https://a.example/")] };
    let text = Ticket { addr, hash: [9; 32], hash_seq: true }.to_text().unwrap();
    assert_eq!(shown(&Ticket::parse(&text).unwrap().addr), vec!["relay https://a.example/"]);
    // the normal forms are compared: `HTTPS://B.example` is `https://b.example/`
    let addr = EndpointAddr {
        id: key(),
        addrs: vec![relay("https://c.example/"), relay("HTTPS://B.example"), relay("https://b.example/x")],
    };
    let text = Ticket { addr, hash: [9; 32], hash_seq: true }.to_text().unwrap();
    assert_eq!(shown(&Ticket::parse(&text).unwrap().addr), vec!["relay https://b.example/"]);
    let addr = EndpointAddr { id: key(), addrs: vec![relay("no url")] };
    assert!(Ticket { addr, hash: [9; 32], hash_seq: true }.to_text().is_none());
}

#[test]
fn what_is_no_ticket_is_refused() {
    let e = Ticket::parse("blobxyz").unwrap_err();
    assert!(matches!(e, TicketError::Text));
    assert_eq!(e.message(), "invalid ticket");
}

#[test]
fn an_endpoint_that_is_no_key_has_no_ticket_text() {
    let addr = EndpointAddr { id: [2; 32], addrs: vec![] };
    let is_key = iroh::EndpointId::from_bytes(&[2; 32]).is_ok();
    let t = Ticket { addr, hash: [9; 32], hash_seq: true };
    assert_eq!(t.to_text().is_some(), is_key);
}

#[test]
fn a_beacon_makes_a_ticket() {
    let id = iroh::EndpointId::from_bytes(&key()).unwrap().to_string();
    let hash = iroh_blobs::Hash::from_bytes([5; 32]);
    let addrs = [SocketAddr::parse("10.0.0.1:5").unwrap()];
    let packet = beacon_packet(&id, &addrs, &hash.to_hex().to_string(), true, 10, "folder");
    let heard = read_beacon(packet.as_bytes()).unwrap();
    let t = build_ticket(&heard).unwrap();
    assert_eq!(t.addr.id, key());
    assert_eq!(t.hash, [5; 32]);
    assert!(t.hash_seq);
    assert_eq!(shown(&t.addr), vec!["ip 10.0.0.1:5"]);
    assert!(!needs_lookup(&t.addr));
}

#[test]
fn base_32_hashes_are_read_too() {
    let id = iroh::EndpointId::from_bytes(&key()).unwrap().to_string();
    let hash_of = |text: &str| build_ticket(&sender(&id, text)).map(|t| t.hash);
    assert_eq!(hash_of(&"a".repeat(52)).unwrap(), [0; 32]);
    let ones = format!("{}q", "7".repeat(51));
    assert_eq!(hash_of(&ones).unwrap(), [0xff; 32]);
    assert_eq!(hash_of(&ones.to_uppercase()).unwrap(), [0xff; 32]);
    let bits = format!("aebagbaf{}", "a".repeat(44));
    assert_eq!(hash_of(&bits).unwrap()[..6], [1, 2, 3, 4, 5, 0]);
    for text in ["7".repeat(52), "a".repeat(51), "1".repeat(52), "AB".repeat(32), "é".repeat(26)] {
        assert!(matches!(hash_of(&text), Err(TicketError::Hash)), "{text}");
    }
}

#[test]
fn base_32_ids_are_read_too() {
    let zeros = build_ticket(&sender(&"a".repeat(52), &"0".repeat(64)));
    let is_key = iroh::EndpointId::from_bytes(&[0; 32]).is_ok();
    assert_eq!(zeros.is_ok(), is_key);
}

#[test]
fn bad_beacons_make_no_ticket() {
    let id = iroh::EndpointId::from_bytes(&key()).unwrap().to_string();
    let hash = "0".repeat(64);
    let e = build_ticket(&sender("xyz", "nor this")).unwrap_err();
    assert!(matches!(e, TicketError::EndpointId));
    assert_eq!(e.message(), "invalid endpoint id in beacon");
    let e = build_ticket(&sender(&id, "nor this")).unwrap_err();
    assert!(matches!(e, TicketError::Hash));
    assert_eq!(e.message(), "invalid hash in beacon");
    assert!(build_ticket(&sender(&id, &hash)).is_ok());
}

#[test]
fn a_ticket_is_put_together_from_what_was_read() {
    let s = sender("a", "b");
    assert!(matches!(ticket_from_parts(&s, None, None), Err(TicketError::EndpointId)));
    assert!(matches!(ticket_from_parts(&s, None, Some([1; 32])), Err(TicketError::EndpointId)));
    assert!(matches!(ticket_from_parts(&s, Some([1; 32]), None), Err(TicketError::Hash)));
    let t = ticket_from_parts(&s, Some([1; 32]), Some([2; 32])).unwrap();
    assert_eq!((t.addr.id, t.hash, t.hash_seq), ([1; 32], [2; 32], true));
}

#[test]
fn the_receive_command_names_the_ticket() {
    assert_eq!(write_receive_command("blobabc"), "dshe receive blobabc");
}

#[test]
fn the_receive_command_fits_a_qr_code() {
    let qr = ticket_qr("blobabc").unwrap();
    assert!(qr.contains('█'));
    assert!(qr.lines().count() > 10);
    assert_ne!(qr, ticket_qr("blobabd").unwrap());
    assert!(ticket_qr(&"x".repeat(5000)).is_err());
}

#[test]
fn a_share_is_a_collection() {
    let t = share_ticket(endpoint(), AddrInfoOptions::Relay, [4; 32]);
    assert_eq!(shown(&t.addr), vec!["relay https://relay.example.com/"]);
    assert_eq!((t.addr.id, t.hash, t.hash_seq), (key(), [4; 32], true));
}
