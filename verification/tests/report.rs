use arp_scan::address::{HardwareAddress, NetworkAddress};
use arp_scan::labels::LabelStore;
use arp_scan::registry::HostRegistry;
use arp_scan::report::report;

#[test]
fn report_shows_hostname_and_label() {
    let labels = LabelStore::load("AA:BB:CC:DD:EE:FF=Router=router.local\n");
    let mut registry = HostRegistry::new();
    registry.insert_if_absent(
        NetworkAddress::new(192, 168, 0, 1),
        HardwareAddress(0xaa, 0xbb, 0xcc, 0xdd, 0xee, 0xff),
    );
    assert_eq!(
        report(&registry, Some(&labels)),
        vec!["192.168.0.1    \tAA:BB:CC:DD:EE:FF\trouter.local\tRouter".to_string()]
    );
}

#[test]
fn report_without_labels_has_two_columns() {
    let mut registry = HostRegistry::new();
    registry.insert_if_absent(
        NetworkAddress::new(10, 0, 0, 5),
        HardwareAddress(0xaa, 0xbb, 0xcc, 0xdd, 0xee, 0x01),
    );
    registry.insert_if_absent(
        NetworkAddress::new(10, 0, 0, 1),
        HardwareAddress(0xaa, 0xbb, 0xcc, 0xdd, 0xee, 0x02),
    );
    registry.insert_if_absent(
        NetworkAddress::new(10, 0, 0, 2),
        HardwareAddress(0xaa, 0xbb, 0xcc, 0xdd, 0xee, 0x03),
    );
    assert_eq!(
        report(&registry, None),
        vec![
            "10.0.0.1       \tAA:BB:CC:DD:EE:02".to_string(),
            "10.0.0.2       \tAA:BB:CC:DD:EE:03".to_string(),
            "10.0.0.5       \tAA:BB:CC:DD:EE:01".to_string()
        ]
    );
}

#[test]
fn report_aligns_columns_to_the_widest_value() {
    let labels = LabelStore::load(
        "AA:BB:CC:DD:EE:01=Router=router.local\nAA:BB:CC:DD:EE:02=NAS=nas\n\
         AA:BB:CC:DD:EE:03=Printer in the hall\n",
    );
    let mut registry = HostRegistry::new();
    for (last, hw) in [(1u8, 0x01u8), (2, 0x02), (3, 0x03), (4, 0x04)] {
        registry.insert_if_absent(
            NetworkAddress::new(192, 168, 100, last),
            HardwareAddress(0xaa, 0xbb, 0xcc, 0xdd, 0xee, hw),
        );
    }
    assert_eq!(
        report(&registry, Some(&labels)),
        vec![
            "192.168.100.1  \tAA:BB:CC:DD:EE:01\trouter.local\tRouter             ".to_string(),
            "192.168.100.2  \tAA:BB:CC:DD:EE:02\tnas         \tNAS                ".to_string(),
            "192.168.100.3  \tAA:BB:CC:DD:EE:03\tPrinter in the hall".to_string(),
            "192.168.100.4  \tAA:BB:CC:DD:EE:04".to_string()
        ]
    );
}

#[test]
fn report_counts_widths_in_bytes() {
    let labels = LabelStore::load("AA:BB:CC:DD:EE:01=B\u{fc}ro=b\nAA:BB:CC:DD:EE:02=Lab=l\n");
    let mut registry = HostRegistry::new();
    registry.insert_if_absent(
        NetworkAddress::new(10, 0, 0, 1),
        HardwareAddress(0xaa, 0xbb, 0xcc, 0xdd, 0xee, 0x01),
    );
    registry.insert_if_absent(
        NetworkAddress::new(10, 0, 0, 2),
        HardwareAddress(0xaa, 0xbb, 0xcc, 0xdd, 0xee, 0x02),
    );
    assert_eq!(
        report(&registry, Some(&labels)),
        vec![
            "10.0.0.1       \tAA:BB:CC:DD:EE:01\tb\tB\u{fc}ro ".to_string(),
            "10.0.0.2       \tAA:BB:CC:DD:EE:02\tl\tLab  ".to_string()
        ]
    );
}

#[test]
fn report_of_nobody_is_empty() {
    assert!(report(&HostRegistry::new(), None).is_empty());
    assert!(report(&HostRegistry::new(), Some(&LabelStore::new())).is_empty());
}

#[test]
fn report_shows_a_blank_entry_as_blank_columns() {
    let labels = LabelStore::load("AA:BB:CC:DD:EE:01==\n");
    let mut registry = HostRegistry::new();
    registry.insert_if_absent(
        NetworkAddress::new(10, 0, 0, 1),
        HardwareAddress(0xaa, 0xbb, 0xcc, 0xdd, 0xee, 0x01),
    );
    assert_eq!(
        report(&registry, Some(&labels)),
        vec!["10.0.0.1       \tAA:BB:CC:DD:EE:01\t\t".to_string()]
    );
}
