use arp_scan::address::{HardwareAddress, NetworkAddress};
use arp_scan::registry::{DiscoveredHost, HostRegistry};

#[test]
fn first_writer_wins() {
    let mut registry = HostRegistry::new();
    let address = NetworkAddress::new(10, 0, 0, 7);
    let first = HardwareAddress(0xaa, 0xbb, 0xcc, 0xdd, 0xee, 0x01);
    let second = HardwareAddress(0xaa, 0xbb, 0xcc, 0xdd, 0xee, 0x02);
    assert!(registry.insert_if_absent(address, first));
    assert!(!registry.insert_if_absent(address, second));
    assert_eq!(registry.len(), 1);
    assert_eq!(registry.lookup(address), Some(first));
    assert_eq!(
        registry.snapshot_sorted_by_address(),
        vec![DiscoveredHost { address, hardware: first }]
    );
}

#[test]
fn snapshot_is_ascending_by_address() {
    let mut registry = HostRegistry::new();
    assert!(registry.insert_if_absent(
        NetworkAddress::new(10, 0, 0, 5),
        HardwareAddress(0xaa, 0xbb, 0xcc, 0xdd, 0xee, 0x01)
    ));
    assert!(registry.insert_if_absent(
        NetworkAddress::new(10, 0, 0, 1),
        HardwareAddress(0xaa, 0xbb, 0xcc, 0xdd, 0xee, 0x02)
    ));
    assert!(registry.insert_if_absent(
        NetworkAddress::new(10, 0, 0, 2),
        HardwareAddress(0xaa, 0xbb, 0xcc, 0xdd, 0xee, 0x03)
    ));
    let snapshot = registry.snapshot_sorted_by_address();
    let addresses: Vec<String> = snapshot.iter().map(|h| h.address.to_text()).collect();
    assert_eq!(addresses, vec!["10.0.0.1", "10.0.0.2", "10.0.0.5"]);
    assert_eq!(snapshot[0].hardware, HardwareAddress(0xaa, 0xbb, 0xcc, 0xdd, 0xee, 0x02));
    assert_eq!(snapshot[1].hardware, HardwareAddress(0xaa, 0xbb, 0xcc, 0xdd, 0xee, 0x03));
    assert_eq!(snapshot[2].hardware, HardwareAddress(0xaa, 0xbb, 0xcc, 0xdd, 0xee, 0x01));
}

#[test]
fn order_is_numeric_not_textual() {
    let mut registry = HostRegistry::new();
    let hw = HardwareAddress(1, 2, 3, 4, 5, 6);
    for last in [100u8, 9, 20, 3, 255, 0] {
        assert!(registry.insert_if_absent(NetworkAddress::new(10, 0, 0, last), hw));
    }
    assert!(registry.insert_if_absent(NetworkAddress::new(9, 255, 255, 255), hw));
    assert!(registry.insert_if_absent(NetworkAddress::new(10, 0, 1, 0), hw));
    let texts: Vec<String> =
        registry.snapshot_sorted_by_address().iter().map(|h| h.address.to_text()).collect();
    assert_eq!(
        texts,
        vec![
            "9.255.255.255",
            "10.0.0.0",
            "10.0.0.3",
            "10.0.0.9",
            "10.0.0.20",
            "10.0.0.100",
            "10.0.0.255",
            "10.0.1.0"
        ]
    );
}

#[test]
fn an_empty_registry_knows_nobody() {
    let registry = HostRegistry::new();
    assert_eq!(registry.len(), 0);
    assert_eq!(registry.lookup(NetworkAddress::new(10, 0, 0, 1)), None);
    assert!(registry.snapshot_sorted_by_address().is_empty());
}

#[test]
fn lookup_finds_every_host_and_no_other() {
    let mut registry = HostRegistry::new();
    for i in 0..50u8 {
        let address = NetworkAddress::new(10, 0, 0, i.wrapping_mul(37));
        registry.insert_if_absent(address, HardwareAddress(0, 0, 0, 0, 0, i));
    }
    for i in 0..50u8 {
        let address = NetworkAddress::new(10, 0, 0, i.wrapping_mul(37));
        assert_eq!(registry.lookup(address), Some(HardwareAddress(0, 0, 0, 0, 0, i)));
        assert_eq!(registry.get(0).address, NetworkAddress::new(10, 0, 0, 0));
    }
    assert_eq!(registry.len(), 50);
    assert_eq!(registry.lookup(NetworkAddress::new(10, 0, 1, 0)), None);
    let snapshot = registry.snapshot_sorted_by_address();
    for pair in snapshot.windows(2) {
        assert!(pair[0].address < pair[1].address);
    }
}

#[test]
fn two_addresses_may_share_a_hardware_address() {
    let mut registry = HostRegistry::new();
    let hw = HardwareAddress(0xaa, 0xbb, 0xcc, 0xdd, 0xee, 0x01);
    assert!(registry.insert_if_absent(NetworkAddress::new(10, 0, 0, 2), hw));
    assert!(registry.insert_if_absent(NetworkAddress::new(10, 0, 0, 1), hw));
    assert_eq!(registry.len(), 2);
}
