use dshe::options::{print_hash, AddrInfoOptions, Format, OptionError, RelayModeOption};

#[test]
fn formats_are_read_and_written() {
    assert_eq!(Format::default(), Format::Hex);
    assert_eq!(Format::from_str("HeX").unwrap(), Format::Hex);
    assert_eq!(Format::from_str("cid").unwrap(), Format::Cid);
    for f in [Format::Hex, Format::Cid] {
        assert_eq!(Format::from_str(&f.to_string()).unwrap(), f);
    }
    assert_eq!(Format::from_str(" hex").unwrap_err().message().unwrap(), "invalid format");
}

#[test]
fn ticket_types_are_read_and_written() {
    assert_eq!(AddrInfoOptions::default(), AddrInfoOptions::Id);
    assert_eq!(
        AddrInfoOptions::from_str("Relay_And-Addresses").unwrap(),
        AddrInfoOptions::RelayAndAddresses
    );
    for t in [
        AddrInfoOptions::Id,
        AddrInfoOptions::RelayAndAddresses,
        AddrInfoOptions::Relay,
        AddrInfoOptions::Addresses,
    ] {
        assert_eq!(AddrInfoOptions::from_str(&t.to_string()).unwrap(), t);
        assert_eq!(t.publishes_addresses(), t == AddrInfoOptions::Id);
    }
    assert_eq!(AddrInfoOptions::RelayAndAddresses.to_string(), "relay-and-addresses");
    assert_eq!(
        AddrInfoOptions::from_str("address").unwrap_err().message().unwrap(),
        "invalid ticket type, expected id, relay, addresses or relay-and-addresses"
    );
}

#[test]
fn relay_modes_are_read_and_written() {
    let disabled = RelayModeOption::from_str("disabled").unwrap();
    assert!(matches!(disabled, RelayModeOption::Disabled));
    assert!(!disabled.waits_for_relay());
    assert_eq!(disabled.to_string(), "disabled");
    let default = RelayModeOption::from_str("default").unwrap();
    assert!(default.waits_for_relay());
    assert_eq!(default.to_string(), "default");
}

#[test]
fn a_relay_url_is_put_into_normal_form() {
    let custom = RelayModeOption::from_str("HTTPS://Relay.Example.com").unwrap();
    assert!(matches!(custom, RelayModeOption::Custom(_)));
    assert_eq!(custom.to_string(), "https://relay.example.com/");
    assert!(custom.waits_for_relay());
}

#[test]
fn a_relay_mode_is_case_sensitive() {
    let e = RelayModeOption::from_str("Disabled").unwrap_err();
    assert!(matches!(e, OptionError::Relay(_)));
    assert!(e.message().is_none());
}

#[test]
fn the_words_win_over_urls() {
    let r = RelayModeOption::from_word("default", Ok("https://x/".to_string())).unwrap();
    assert!(matches!(r, RelayModeOption::Default));
    let r = RelayModeOption::from_word("x", Ok("https://x/".to_string())).unwrap();
    assert_eq!(r.to_string(), "https://x/");
}

#[test]
fn hashes_are_shown_in_hexadecimal() {
    let mut hash = [0u8; 32];
    hash[0] = 0xab;
    hash[31] = 0x01;
    let expected = format!("ab{}01", "0".repeat(60));
    assert_eq!(print_hash(&hash, Format::Hex), expected);
    assert_eq!(print_hash(&hash, Format::Cid), expected);
}
