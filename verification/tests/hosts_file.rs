use arp_scan::address::{HardwareAddress, NetworkAddress};
use arp_scan::hosts_file::{
    managed_entries, parse_mapping_line, reconcile, write_entry_line, HostsEntry,
};
use arp_scan::labels::LabelStore;
use arp_scan::registry::HostRegistry;

fn hosts(list: &[([u8; 4], u8)]) -> HostRegistry {
    let mut registry = HostRegistry::new();
    for (a, last) in list {
        registry.insert_if_absent(
            NetworkAddress::new(a[0], a[1], a[2], a[3]),
            HardwareAddress(0xaa, 0xbb, 0xcc, 0xdd, 0xee, *last),
        );
    }
    registry
}

fn mapping(a: [u8; 4], hostname: &str) -> HostsEntry {
    HostsEntry { address: NetworkAddress::new(a[0], a[1], a[2], a[3]), hostname: hostname.to_string() }
}

#[test]
fn a_superseded_line_is_replaced_and_the_line_count_stays() {
    let labels = LabelStore::load("AA:BB:CC:DD:EE:09=Old box=old.local\n");
    let registry = hosts(&[([10, 0, 0, 9], 0x09)]);
    let update = reconcile("10.0.0.9    old.local\n", &labels, &registry).expect("update");
    assert_eq!(update.content, "10.0.0.9       \t\told.local\n");
    assert_eq!(update.content.lines().count(), 1);
    assert_eq!(update.content.matches("old.local").count(), 1);
    assert_eq!(update.added, vec!["10.0.0.9       \t\told.local".to_string()]);
}

#[test]
fn reconciling_twice_writes_the_same() {
    let labels = LabelStore::load(
        "AA:BB:CC:DD:EE:01=Router=router.local\nAA:BB:CC:DD:EE:02=NAS=nas.local\nAA:BB:CC:DD:EE:03=Plain\n",
    );
    let registry = hosts(&[([192, 168, 1, 20], 0x02), ([192, 168, 1, 1], 0x01), (
        [192, 168, 1, 30],
        0x03,
    )]);
    let before = "# static names\r\n127.0.0.1 localhost\r\n\r\n192.168.1.1   gateway  gw # old\r\n\
                  192.168.1.77 nas.local\r\n10.1.1.1\tother.local\r\n";
    let once = reconcile(before, &labels, &registry).expect("first run");
    assert_eq!(
        once.content,
        "# static names\n127.0.0.1      \t\tlocalhost\n\n10.1.1.1       \t\tother.local\n\
         192.168.1.1    \t\trouter.local\n192.168.1.20   \t\tnas.local\n"
    );
    let twice = reconcile(&once.content, &labels, &registry).expect("second run");
    assert_eq!(twice.content, once.content);
    assert_eq!(twice.added, once.added);
    let thrice = reconcile(&twice.content, &labels, &registry).expect("third run");
    assert_eq!(thrice.content, once.content);
}

#[test]
fn nothing_is_written_without_a_mapping_to_write() {
    let registry = hosts(&[([10, 0, 0, 1], 0x01)]);
    assert_eq!(reconcile("10.0.0.1 a\n", &LabelStore::new(), &registry), None);
    let no_hostname = LabelStore::load("AA:BB:CC:DD:EE:01=Router\n");
    assert_eq!(reconcile("10.0.0.1 a\n", &no_hostname, &registry), None);
    let other_host = LabelStore::load("AA:BB:CC:DD:EE:02=Router=router.local\n");
    assert_eq!(reconcile("10.0.0.1 a\n", &other_host, &registry), None);
    let labels = LabelStore::load("AA:BB:CC:DD:EE:01=Router=router.local\n");
    assert_eq!(reconcile("10.0.0.1 a\n", &labels, &HostRegistry::new()), None);
}

#[test]
fn new_mappings_are_ascending_by_address() {
    let labels = LabelStore::load(
        "AA:BB:CC:DD:EE:01=A=a.local\nAA:BB:CC:DD:EE:02=B=b.local\nAA:BB:CC:DD:EE:03=C=c.local\n",
    );
    let registry = hosts(&[([10, 0, 0, 100], 0x01), ([10, 0, 0, 9], 0x02), ([10, 0, 0, 20], 0x03)]);
    assert_eq!(
        managed_entries(&labels, &registry),
        vec![
            mapping([10, 0, 0, 9], "b.local"),
            mapping([10, 0, 0, 20], "c.local"),
            mapping([10, 0, 0, 100], "a.local")
        ]
    );
    let update = reconcile("", &labels, &registry).expect("update");
    assert_eq!(
        update.content,
        "10.0.0.9       \t\tb.local\n10.0.0.20      \t\tc.local\n10.0.0.100     \t\ta.local\n"
    );
    assert_eq!(
        update.added,
        vec![
            "10.0.0.9       \t\tb.local".to_string(),
            "10.0.0.20      \t\tc.local".to_string(),
            "10.0.0.100     \t\ta.local".to_string()
        ]
    );
}

#[test]
fn a_line_goes_when_its_address_is_managed() {
    let labels = LabelStore::load("AA:BB:CC:DD:EE:01=A=a.local\n");
    let registry = hosts(&[([10, 0, 0, 1], 0x01)]);
    let update = reconcile("10.0.0.1 stale.name\n10.0.0.2 kept.name\n", &labels, &registry)
        .expect("update");
    assert_eq!(update.content, "10.0.0.2       \t\tkept.name\n10.0.0.1       \t\ta.local\n");
}

#[test]
fn a_line_goes_when_its_hostname_is_one_of_the_inventory() {
    let labels = LabelStore::load("AA:BB:CC:DD:EE:01=A=a.local\nAA:BB:CC:DD:EE:7F=Away=away.local\n");
    let registry = hosts(&[([10, 0, 0, 1], 0x01)]);
    let update = reconcile(
        "10.0.0.50 away.local\n10.0.0.51 a.local\n10.0.0.52 b.local\n",
        &labels,
        &registry,
    )
    .expect("update");
    assert_eq!(update.content, "10.0.0.52      \t\tb.local\n10.0.0.1       \t\ta.local\n");
}

#[test]
fn lines_that_do_not_map_pass_through_as_they_are() {
    let labels = LabelStore::load("AA:BB:CC:DD:EE:01=A=a.local\n");
    let registry = hosts(&[([10, 0, 0, 1], 0x01)]);
    let before = "# comment  with   spaces\n\n   \n10.0.0.1\n999.0.0.1 a.local\n::1 localhost\n\
                  a.local 10.0.0.1\n010.0.0.1 a.local\n";
    let update = reconcile(before, &labels, &registry).expect("update");
    assert_eq!(
        update.content,
        "# comment  with   spaces\n\n   \n10.0.0.1\n999.0.0.1 a.local\n::1 localhost\n\
         a.local 10.0.0.1\n010.0.0.1 a.local\n10.0.0.1       \t\ta.local\n"
    );
}

#[test]
fn a_mapping_keeps_its_first_hostname_only() {
    let labels = LabelStore::load("AA:BB:CC:DD:EE:01=A=a.local\n");
    let registry = hosts(&[([10, 0, 0, 1], 0x01)]);
    let update =
        reconcile("  192.168.100.200 \t www   www.example # web\n", &labels, &registry).expect("update");
    assert_eq!(update.content, "192.168.100.200\t\twww\n10.0.0.1       \t\ta.local\n");
}

#[test]
fn a_last_line_without_line_end_is_a_line() {
    let labels = LabelStore::load("AA:BB:CC:DD:EE:01=A=a.local\n");
    let registry = hosts(&[([10, 0, 0, 1], 0x01)]);
    let update = reconcile("127.0.0.1 localhost", &labels, &registry).expect("update");
    assert_eq!(update.content, "127.0.0.1      \t\tlocalhost\n10.0.0.1       \t\ta.local\n");
}

#[test]
fn the_address_column_is_fifteen_wide() {
    let labels = LabelStore::load("AA:BB:CC:DD:EE:01=A=a.local\n");
    let registry = hosts(&[([255, 255, 255, 255], 0x01)]);
    let update = reconcile("1.1.1.1 one\n", &labels, &registry).expect("update");
    assert_eq!(update.content, "1.1.1.1        \t\tone\n255.255.255.255\t\ta.local\n");
    for line in update.content.lines() {
        assert_eq!(line.find('\t'), Some(15));
    }
}

#[test]
fn hosts_with_one_hardware_address_are_all_managed() {
    let labels = LabelStore::load("AA:BB:CC:DD:EE:01=A=a.local\n");
    let registry = hosts(&[([10, 0, 0, 1], 0x01), ([10, 0, 0, 2], 0x01)]);
    let update = reconcile("10.0.0.2 second.name\n", &labels, &registry).expect("update");
    assert_eq!(update.content, "10.0.0.1       \t\ta.local\n10.0.0.2       \t\ta.local\n");
}

#[test]
fn labels_are_found_under_upper_case_keys() {
    let labels = LabelStore::load("aa:bb:cc:dd:ee:0f=A=a.local\n");
    let registry = hosts(&[([10, 0, 0, 1], 0x0f)]);
    assert_eq!(managed_entries(&labels, &registry), vec![mapping([10, 0, 0, 1], "a.local")]);
}

#[test]
fn a_blank_hostname_is_written_and_written_again() {
    let labels = LabelStore::load("AA:BB:CC:DD:EE:01==\n");
    let registry = hosts(&[([10, 0, 0, 1], 0x01)]);
    let once = reconcile("", &labels, &registry).expect("first run");
    assert_eq!(once.content, "10.0.0.1       \t\t\n");
    let twice = reconcile(&once.content, &labels, &registry).expect("second run");
    assert_eq!(twice.content, "10.0.0.1       \t\t\n10.0.0.1       \t\t\n");
}

#[test]
fn mapping_lines_are_told_from_others() {
    assert_eq!(parse_mapping_line("10.0.0.9    old.local"), Some(mapping([10, 0, 0, 9], "old.local")));
    assert_eq!(parse_mapping_line("\t10.0.0.9\told.local\talias"), Some(mapping([10, 0, 0, 9], "old.local")));
    assert_eq!(parse_mapping_line("10.0.0.9\u{a0}old.local"), Some(mapping([10, 0, 0, 9], "old.local")));
    assert_eq!(parse_mapping_line("10.0.0.9"), None);
    assert_eq!(parse_mapping_line("10.0.0.9   "), None);
    assert_eq!(parse_mapping_line("# 10.0.0.9 old.local"), None);
    assert_eq!(parse_mapping_line("10.0.0.256 old.local"), None);
    assert_eq!(parse_mapping_line("fe80::1 old.local"), None);
    assert_eq!(parse_mapping_line(""), None);
}

#[test]
fn entry_lines_are_address_blanks_two_tabs_hostname() {
    let line: String = write_entry_line(&mapping([10, 0, 0, 9], "old.local"), 15).into_iter().collect();
    assert_eq!(line, "10.0.0.9       \t\told.local");
    let narrow: String = write_entry_line(&mapping([10, 0, 0, 9], "x"), 3).into_iter().collect();
    assert_eq!(narrow, "10.0.0.9\t\tx");
}
