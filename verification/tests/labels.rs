use arp_scan::address::HardwareAddress;
use arp_scan::labels::{ensure_entry, parse_label_line, split_label_line, LabelEntry, LabelStore};

fn entry(key: &str, label: &str, hostname: Option<&str>) -> LabelEntry {
    LabelEntry {
        key: key.to_string(),
        label: label.to_string(),
        hostname: hostname.map(|h| h.to_string()),
    }
}

#[test]
fn load_reads_label_and_hostname() {
    let store = LabelStore::load("AA:BB:CC:DD:EE:FF=Router=router.local\n");
    assert_eq!(store.len(), 1);
    assert_eq!(
        store.get("AA:BB:CC:DD:EE:FF"),
        Some(&entry("AA:BB:CC:DD:EE:FF", "Router", Some("router.local")))
    );
}

#[test]
fn load_puts_keys_in_upper_case() {
    let store = LabelStore::load("aa:bb:cc:dd:ee:ff=Router\n00:1a:2B:3c:4D:5e=NAS=nas.local");
    assert_eq!(store.len(), 2);
    assert_eq!(store.get("AA:BB:CC:DD:EE:FF"), Some(&entry("AA:BB:CC:DD:EE:FF", "Router", None)));
    assert_eq!(
        store.get("00:1A:2B:3C:4D:5E"),
        Some(&entry("00:1A:2B:3C:4D:5E", "NAS", Some("nas.local")))
    );
    assert_eq!(store.get("aa:bb:cc:dd:ee:ff"), None);
}

#[test]
fn load_of_nothing_is_empty() {
    assert_eq!(LabelStore::load("").len(), 0);
    assert_eq!(LabelStore::load("\n\n").len(), 0);
    assert_eq!(LabelStore::new().len(), 0);
}

#[test]
fn load_skips_lines_without_two_fields() {
    let store = LabelStore::load("# inventory\nAA:BB:CC:DD:EE:01\n\nAA:BB:CC:DD:EE:02=Printer\n");
    assert_eq!(store.len(), 1);
    assert_eq!(store.get("AA:BB:CC:DD:EE:01"), None);
    assert_eq!(store.get("AA:BB:CC:DD:EE:02"), Some(&entry("AA:BB:CC:DD:EE:02", "Printer", None)));
}

#[test]
fn load_trims_every_field() {
    let store = LabelStore::load("  aa:bb:cc:dd:ee:01 \t=  Front door \t= door.local  \r\n");
    assert_eq!(
        store.get("AA:BB:CC:DD:EE:01"),
        Some(&entry("AA:BB:CC:DD:EE:01", "Front door", Some("door.local")))
    );
}

#[test]
fn load_lets_the_last_of_two_lines_with_one_key_win() {
    let store = LabelStore::load(
        "AA:BB:CC:DD:EE:01=First=first.local\naa:bb:cc:dd:ee:01=Second\nAA:BB:CC:DD:EE:02=Other\n",
    );
    assert_eq!(store.len(), 2);
    assert_eq!(store.get("AA:BB:CC:DD:EE:01"), Some(&entry("AA:BB:CC:DD:EE:01", "Second", None)));
}

#[test]
fn load_reads_a_blank_entry_as_blank_label_and_blank_hostname() {
    let store = LabelStore::load("AA:BB:CC:DD:EE:01==\n");
    assert_eq!(store.get("AA:BB:CC:DD:EE:01"), Some(&entry("AA:BB:CC:DD:EE:01", "", Some(""))));
}

#[test]
fn load_does_not_read_behind_a_third_separator() {
    let store = LabelStore::load("AA:BB:CC:DD:EE:01=Router=router.local=ignored=too\n");
    assert_eq!(
        store.get("AA:BB:CC:DD:EE:01"),
        Some(&entry("AA:BB:CC:DD:EE:01", "Router", Some("router.local")))
    );
}

#[test]
fn load_takes_windows_line_ends() {
    let store = LabelStore::load("AA:BB:CC:DD:EE:01=A=a.local\r\nAA:BB:CC:DD:EE:02=B\r\n");
    assert_eq!(store.get("AA:BB:CC:DD:EE:01"), Some(&entry("AA:BB:CC:DD:EE:01", "A", Some("a.local"))));
    assert_eq!(store.get("AA:BB:CC:DD:EE:02"), Some(&entry("AA:BB:CC:DD:EE:02", "B", None)));
}

#[test]
fn upper_case_is_that_of_unicode() {
    let store = LabelStore::load("stra\u{df}e=Street\n");
    assert_eq!(store.get("STRASSE"), Some(&entry("STRASSE", "Street", None)));
}

#[test]
fn split_keeps_the_key_as_written() {
    assert_eq!(
        split_label_line(" aa:bb:cc:dd:ee:ff = Router = router.local "),
        Some(entry("aa:bb:cc:dd:ee:ff", "Router", Some("router.local")))
    );
    assert_eq!(split_label_line("key=label"), Some(entry("key", "label", None)));
    assert_eq!(split_label_line("="), Some(entry("", "", None)));
    assert_eq!(split_label_line("=="), Some(entry("", "", Some(""))));
    assert_eq!(split_label_line("no separator"), None);
    assert_eq!(split_label_line(""), None);
}

#[test]
fn parse_puts_the_key_in_upper_case() {
    assert_eq!(
        parse_label_line("aa:bb:cc:dd:ee:ff=Router=router.local"),
        Some(entry("AA:BB:CC:DD:EE:FF", "Router", Some("router.local")))
    );
    assert_eq!(parse_label_line("Router"), None);
}

#[test]
fn insert_replaces_what_stood_under_the_key() {
    let mut store = LabelStore::new();
    store.insert(entry("K1", "one", None));
    store.insert(entry("K2", "two", Some("two.local")));
    store.insert(entry("K1", "uno", Some("uno.local")));
    assert_eq!(store.len(), 2);
    assert_eq!(store.get("K1"), Some(&entry("K1", "uno", Some("uno.local"))));
    assert_eq!(store.get("K2"), Some(&entry("K2", "two", Some("two.local"))));
    assert_eq!(store.get("K3"), None);
    assert!(store.has_hostname("uno.local"));
    assert!(store.has_hostname("two.local"));
    assert!(!store.has_hostname("one.local"));
    assert!(!store.has_hostname(""));
}

#[test]
fn entries_written_and_read_again_are_the_same() {
    let written = vec![
        entry("AA:BB:CC:DD:EE:01", "Router", Some("router.local")),
        entry("aa:bb:cc:dd:ee:02", "Front door", None),
        entry("AA:BB:CC:DD:EE:03", "", Some("")),
        entry("AA:BB:CC:DD:EE:04", "NAS", Some("")),
        entry("AA:BB:CC:DD:EE:05", "", None),
    ];
    let mut content = String::new();
    for e in &written {
        content.push_str(&e.to_line());
        content.push('\n');
    }
    assert_eq!(
        content,
        "AA:BB:CC:DD:EE:01=Router=router.local\naa:bb:cc:dd:ee:02=Front door\nAA:BB:CC:DD:EE:03==\n\
         AA:BB:CC:DD:EE:04=NAS=\nAA:BB:CC:DD:EE:05=\n"
    );
    let store = LabelStore::load(&content);
    assert_eq!(store.len(), written.len());
    for e in &written {
        let key = e.key.to_uppercase();
        let found = store.get(&key).expect("entry");
        assert_eq!(found.key, key);
        assert_eq!(found.label, e.label);
        assert_eq!(found.hostname, e.hostname);
    }
}

#[test]
fn ensure_entry_appends_a_blank_entry() {
    let hw = HardwareAddress(0xaa, 0xbb, 0xcc, 0xdd, 0xee, 0x02);
    assert_eq!(
        ensure_entry("AA:BB:CC:DD:EE:01=Router=router.local\n", hw),
        Some("AA:BB:CC:DD:EE:01=Router=router.local\nAA:BB:CC:DD:EE:02==\n".to_string())
    );
}

#[test]
fn ensure_entry_on_an_empty_inventory() {
    let hw = HardwareAddress(0x00, 0x1a, 0x2b, 0x3c, 0x4d, 0x5e);
    assert_eq!(ensure_entry("", hw), Some("00:1A:2B:3C:4D:5E==\n".to_string()));
}

#[test]
fn ensure_entry_leaves_a_listed_address_alone() {
    let hw = HardwareAddress(0xaa, 0xbb, 0xcc, 0xdd, 0xee, 0x01);
    assert_eq!(ensure_entry("AA:BB:CC:DD:EE:01=Router=router.local\n", hw), None);
    assert_eq!(ensure_entry("x=y\nAA:BB:CC:DD:EE:01==\n", hw), None);
}

#[test]
fn ensure_entry_matches_keys_whatever_their_case() {
    let hw = HardwareAddress(0xaa, 0xbb, 0xcc, 0xdd, 0xee, 0x01);
    assert_eq!(ensure_entry("  aa:bb:cc:dd:ee:01 = Router\n", hw), None);
}

#[test]
fn ensure_entry_does_not_count_a_line_without_fields() {
    let hw = HardwareAddress(0xaa, 0xbb, 0xcc, 0xdd, 0xee, 0x01);
    assert_eq!(
        ensure_entry("AA:BB:CC:DD:EE:01\n", hw),
        Some("AA:BB:CC:DD:EE:01\nAA:BB:CC:DD:EE:01==\n".to_string())
    );
}

#[test]
fn ensure_entry_keeps_every_line_and_ends_each() {
    let hw = HardwareAddress(1, 2, 3, 4, 5, 6);
    assert_eq!(
        ensure_entry("# hosts\r\n\r\nAA:BB:CC:DD:EE:01=Router", hw),
        Some("# hosts\n\nAA:BB:CC:DD:EE:01=Router\n01:02:03:04:05:06==\n".to_string())
    );
}

#[test]
fn ensure_entry_twice_adds_once() {
    let hw = HardwareAddress(1, 2, 3, 4, 5, 6);
    let once = ensure_entry("", hw).expect("written");
    assert_eq!(ensure_entry(&once, hw), None);
}
