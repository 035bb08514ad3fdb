use netwatch::oui::{hex_of, is_randomized, normalize, OuiDb};

#[test]
fn finds_builtin_vendors() {
    let db = OuiDb::new();
    assert_eq!(db.lookup("b8:27:eb:11:22:33"), Some("Raspberry Pi Foundation"));
    assert_eq!(db.lookup("B827EB112233"), Some("Raspberry Pi Foundation"));
    assert_eq!(db.lookup("5c-cf-7f-aa-bb-cc"), Some("Espressif (ESP8266)"));
    assert_eq!(db.lookup("ff:ff:ff:ff:ff:ff"), None);
}

#[test]
fn detects_randomized_macs() {
    // Second-lowest bit of the first octet set -> locally administered.
    assert!(is_randomized("06:11:22:33:44:55"));
    assert!(is_randomized("a2:11:22:33:44:55"));
    assert!(!is_randomized("b8:27:eb:11:22:33"));
    assert!(!is_randomized("00:0c:29:aa:bb:cc"));
}

#[test]
fn normalizes_notations() {
    assert_eq!(normalize("B8-27-EB-11-22-33").as_deref(), Some("b8:27:eb:11:22:33"));
    assert_eq!(normalize("b827eb112233").as_deref(), Some("b8:27:eb:11:22:33"));
    assert_eq!(normalize("00:00:00:00:00:00"), None);
    assert_eq!(normalize("not-a-mac"), None);
}

#[test]
fn a_canonical_address_is_left_alone() {
    let m = normalize("B8.27.EB.11.22.33").unwrap();
    assert_eq!(normalize(&m).as_deref(), Some(m.as_str()));
    assert_eq!(hex_of("b8:2F").iter().collect::<String>(), "b82F");
}

#[test]
fn the_registry_adds_vendors_and_keeps_the_builtin_ones() {
    let mut db = OuiDb::new();
    let before = db.len();
    let csv = "Registry,Assignment,Organization Name,Organization Address\n\
               MA-L,ABCDEF,\"Example, Inc.\",Somewhere\n\
               MA-L,B827EB,Another Name,Elsewhere\n\
               MA-L,123,Too Short,Nowhere\n";
    let n = db.load_ieee_csv(csv);
    assert!(n >= 1);
    assert!(db.len() > before);
    assert!(db.lookup("ab:cd:ef:00:00:01").is_some());
    assert_eq!(db.lookup("b8:27:eb:11:22:33"), Some("Raspberry Pi Foundation"));
}
