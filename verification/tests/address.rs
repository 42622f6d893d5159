use arp_scan::address::{HardwareAddress, NetworkAddress};

#[test]
fn address_is_the_number_its_octets_spell() {
    let a = NetworkAddress::new(192, 168, 1, 10);
    assert_eq!(a.value, 0xC0A8_010A);
    assert_eq!(a.octets(), [192, 168, 1, 10]);
    assert_eq!(NetworkAddress::new(0, 0, 0, 0).value, 0);
    assert_eq!(NetworkAddress::new(255, 255, 255, 255).value, u32::MAX);
}

#[test]
fn addresses_are_ordered_by_number() {
    let low = NetworkAddress::new(10, 0, 0, 9);
    let high = NetworkAddress::new(10, 0, 0, 10);
    assert!(low < high);
    assert!(NetworkAddress::new(9, 255, 255, 255) < low);
    assert!(NetworkAddress::new(10, 0, 1, 0) > high);
}

#[test]
fn address_text_is_dotted_decimal() {
    assert_eq!(NetworkAddress::new(10, 0, 0, 5).to_text(), "10.0.0.5");
    assert_eq!(NetworkAddress::new(0, 0, 0, 0).to_text(), "0.0.0.0");
    assert_eq!(NetworkAddress::new(255, 255, 255, 255).to_text(), "255.255.255.255");
    assert_eq!(NetworkAddress::new(192, 168, 100, 9).to_text(), "192.168.100.9");
    assert_eq!(NetworkAddress::new(1, 20, 99, 100).to_text(), "1.20.99.100");
}

#[test]
fn address_is_parsed_from_its_text() {
    assert_eq!(NetworkAddress::parse("10.0.0.5"), Some(NetworkAddress::new(10, 0, 0, 5)));
    assert_eq!(NetworkAddress::parse("0.0.0.0"), Some(NetworkAddress::new(0, 0, 0, 0)));
    assert_eq!(
        NetworkAddress::parse("255.255.255.255"),
        Some(NetworkAddress::new(255, 255, 255, 255))
    );
    assert_eq!(NetworkAddress::parse("192.168.1.254"), Some(NetworkAddress::new(192, 168, 1, 254)));
}

#[test]
fn address_parse_round_trips_over_a_sample() {
    let mut v: u32 = 0;
    for _ in 0..2000 {
        let a = NetworkAddress { value: v };
        assert_eq!(NetworkAddress::parse(&a.to_text()), Some(a));
        v = v.wrapping_mul(1_664_525).wrapping_add(1_013_904_223);
    }
}

#[test]
fn address_parse_refuses_what_is_no_address() {
    for text in [
        "",
        "10.0.0",
        "10.0.0.",
        "10.0.0.5.",
        "10.0.0.5.6",
        ".10.0.0.5",
        "10..0.5",
        "256.0.0.1",
        "10.0.0.256",
        "10.0.0.1000",
        "010.0.0.1",
        "10.0.0.01",
        "10.0.0.00",
        "10.0.0.5 ",
        " 10.0.0.5",
        "10.0.0.a",
        "10.0.0.-1",
        "10.0.0.+1",
        "10,0,0,5",
        "localhost",
        "::1",
        "10.0.0.\u{0665}",
    ] {
        assert_eq!(NetworkAddress::parse(text), None, "{:?}", text);
    }
}

#[test]
fn hardware_text_is_upper_case_hex_with_colons() {
    let h = HardwareAddress(0xaa, 0xbb, 0xcc, 0xdd, 0xee, 0x01);
    assert_eq!(h.to_text(), "AA:BB:CC:DD:EE:01");
    assert_eq!(HardwareAddress(0, 0, 0, 0, 0, 0).to_text(), "00:00:00:00:00:00");
    assert_eq!(HardwareAddress(0x09, 0x0a, 0x0f, 0x10, 0x9a, 0xff).to_text(), "09:0A:0F:10:9A:FF");
    assert_eq!(h.octets(), [0xaa, 0xbb, 0xcc, 0xdd, 0xee, 0x01]);
}
