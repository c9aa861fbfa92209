use xdp_dispatcher::pin_name::ExtensionAttrs;

fn attrs(priority: u8, ebpf_id: &str, program_name: &str, loaded: bool) -> ExtensionAttrs {
    ExtensionAttrs {
        priority,
        ebpf_id: ebpf_id.to_string(),
        program_name: program_name.to_string(),
        loaded,
    }
}

#[test]
fn encode_is_exact() {
    assert_eq!(attrs(0, "a", "probe", false).to_pin_name(), "extension_0_a_probe");
    assert_eq!(attrs(255, "abc", "x", true).to_pin_name(), "extension_255_abc_x");
    assert_eq!(attrs(7, "id9", "has_underscores", false).to_pin_name(), "extension_7_id9_has_underscores");
}

#[test]
fn decode_is_exact() {
    let a = ExtensionAttrs::from_pin_name("extension_5_myid_probe").unwrap();
    assert_eq!(a.priority, 5);
    assert_eq!(a.ebpf_id, "myid");
    assert_eq!(a.program_name, "probe");
    assert!(a.loaded);
}

#[test]
fn decode_keeps_underscores_in_program_name() {
    let a = ExtensionAttrs::from_pin_name("extension_10_id_a_b_c").unwrap();
    assert_eq!(a.priority, 10);
    assert_eq!(a.ebpf_id, "id");
    assert_eq!(a.program_name, "a_b_c");
}

#[test]
fn round_trip_returns_loaded() {
    let a = attrs(42, "deadbeef", "spy_probe", false);
    let b = ExtensionAttrs::from_pin_name(a.duplicate().to_pin_name().as_str()).unwrap();
    assert_eq!(b.priority, 42);
    assert_eq!(b.ebpf_id, "deadbeef");
    assert_eq!(b.program_name, "spy_probe");
    assert!(b.loaded);
}

#[test]
fn round_trip_extremes() {
    for (p, id, name) in [(0u8, "", ""), (255, "z", "p"), (9, "aaaa", "____")] {
        let a = attrs(p, id, name, false);
        let b = ExtensionAttrs::from_pin_name(a.duplicate().to_pin_name().as_str()).unwrap();
        assert_eq!(b.priority, p);
        assert_eq!(b.ebpf_id, id);
        assert_eq!(b.program_name, name);
        assert!(b.loaded);
    }
}

#[test]
fn foreign_names_are_skipped() {
    assert!(ExtensionAttrs::from_pin_name("dispatcher_pin").is_none());
    assert!(ExtensionAttrs::from_pin_name("link_0").is_none());
    assert!(ExtensionAttrs::from_pin_name("").is_none());
    assert!(ExtensionAttrs::from_pin_name("extension_").is_none());
    assert!(ExtensionAttrs::from_pin_name("extension_5").is_none());
    assert!(ExtensionAttrs::from_pin_name("extension_5_only_one").is_some());
    assert!(ExtensionAttrs::from_pin_name("extension_nope_id_name").is_none());
    assert!(ExtensionAttrs::from_pin_name("extension__id_name").is_none());
    assert!(ExtensionAttrs::from_pin_name("extension_256_id_name").is_none());
    assert!(ExtensionAttrs::from_pin_name("extension_999999999999999999999_id_name").is_none());
    assert!(ExtensionAttrs::from_pin_name("extensio_5_id_name").is_none());
}

#[test]
fn decode_accepts_leading_zeros() {
    let a = ExtensionAttrs::from_pin_name("extension_007_id_name").unwrap();
    assert_eq!(a.priority, 7);
}

#[test]
fn discovery_decodes_and_skips() {
    let names = vec![
        "extension_0_a_probe".to_string(),
        "dispatcher_pin".to_string(),
        "link_0".to_string(),
        "extension_5_b_probe2".to_string(),
    ];
    let found = xdp_dispatcher::pin_name::discover_extensions(&names);
    assert_eq!(found.len(), 2);
    assert_eq!(found[0].ebpf_id, "a");
    assert_eq!(found[0].priority, 0);
    assert!(found[0].loaded);
    assert_eq!(found[1].ebpf_id, "b");
    assert_eq!(found[1].priority, 5);
}
