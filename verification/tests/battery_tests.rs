use bt_battery_tray::battery::{
    devnode_started, extract_address, extract_base_address, first_property_step, format_bluetooth_address,
    get_devices_with_battery, instance_ids, is_boundary, read_battery_level, read_friendly_name,
    retry_property_step, sort_by_keys, stable_sort_devices, DeviceBattery, DeviceNode, PropertyStep,
};

fn utf16_property(s: &str) -> Vec<u8> {
    let mut out = Vec::new();
    for u in s.encode_utf16() {
        out.extend_from_slice(&u.to_le_bytes());
    }
    out.extend_from_slice(&[0, 0]);
    out
}

fn node(id: &str, started: bool, level: Option<u8>, name: Option<&str>) -> DeviceNode {
    DeviceNode {
        instance_id: id.to_string(),
        started,
        battery: level.map(|l| vec![l, 0, 0, 0]),
        friendly_name: name.map(utf16_property),
    }
}

#[test]
fn boundary_characters() {
    assert!(is_boundary('\\'));
    assert!(is_boundary('&'));
    assert!(is_boundary('_'));
    assert!(!is_boundary('-'));
    assert!(!is_boundary('A'));
}

#[test]
fn address_from_instance_id() {
    let id = "BTHENUM\\{0000111e-0000-1000-8000-00805f9b34fb}_VID&0002004c_PID&2020\\7&1b3f&0&aabbccddeeff_C00000000";
    assert_eq!(extract_address(id).as_deref(), Some("AABBCCDDEEFF"));
    assert_eq!(extract_address("BTHLE\\Dev_a1b2c3d4e5f6\\8&2f").as_deref(), Some("A1B2C3D4E5F6"));
    assert_eq!(extract_address("AABBCCDDEEFF").as_deref(), Some("AABBCCDDEEFF"));
}

#[test]
fn address_needs_boundaries() {
    assert_eq!(extract_address("XAABBCCDDEEFF"), None);
    assert_eq!(extract_address("AABBCCDDEEFF1"), None);
    assert_eq!(extract_address("AABBCCDDEEF"), None);
    assert_eq!(extract_address(""), None);
    assert_eq!(extract_address("AABBCCDDEEFG"), None);
}

#[test]
fn first_address_wins() {
    assert_eq!(extract_address("111111111111_222222222222").as_deref(), Some("111111111111"));
    assert_eq!(extract_address("X111111111111_222222222222").as_deref(), Some("222222222222"));
}

#[test]
fn base_address() {
    assert_eq!(extract_base_address("BTHENUM\\Dev_aabbccddeeff\\8&1").as_deref(), Some("AABBCCDDEEFF"));
    assert_eq!(extract_base_address("BTHLE\\DEV_AABBCCDDEEFF").as_deref(), Some("AABBCCDDEEFF"));
    assert_eq!(extract_base_address("BTHENUM\\{0000111e}_LOCALMFG&0002\\7&1&0&aabbccddeeff_0"), None);
    assert_eq!(extract_base_address("BTHLE\\dev_aabbccddeeff_x"), None);
    assert_eq!(extract_base_address("BTHLE\\dev_aabbccddee"), None);
    // only the first marker counts
    assert_eq!(extract_base_address("A\\dev_zz\\dev_aabbccddeeff"), None);
}

#[test]
fn battery_level_property() {
    assert_eq!(read_battery_level(&[]), None);
    assert_eq!(read_battery_level(&[57, 0, 0, 0]), Some(57));
    assert_eq!(read_battery_level(&[57]), Some(57));
    assert_eq!(read_battery_level(&[200, 0, 0, 0]), Some(100));
    assert_eq!(read_battery_level(&[100]), Some(100));
}

#[test]
fn friendly_name_property() {
    assert_eq!(read_friendly_name(&utf16_property("  WH-1000XM4 ")).as_deref(), Some("WH-1000XM4"));
    assert_eq!(read_friendly_name(&utf16_property("Наушники")).as_deref(), Some("Наушники"));
    assert_eq!(read_friendly_name(&utf16_property("   ")), None);
    assert_eq!(read_friendly_name(&[]), None);
    // stops at the first NUL
    let mut p = utf16_property("Mouse");
    p.extend_from_slice(&utf16_property("Junk"));
    assert_eq!(read_friendly_name(&p).as_deref(), Some("Mouse"));
    // trailing odd byte is ignored
    let mut q = utf16_property("Pad");
    q.pop();
    q.pop();
    q.push(b'x');
    assert_eq!(read_friendly_name(&q).as_deref(), Some("Pad"));
}

#[test]
fn devices_merge_nodes_of_one_address() {
    let nodes = vec![
        node("BTHENUM\\Dev_AABBCCDDEEFF\\8&1", true, None, Some("WH-1000XM4")),
        node("BTHENUM\\{111e}_VID&1\\7&2&0&AABBCCDDEEFF_C0", true, Some(80), Some("Hands-Free AG")),
        node("BTHLE\\Dev_112233445566\\9&1", true, Some(50), Some("Mouse")),
        node("BTHLEDEVICE\\{180f}_Dev_VID&1_112233445566\\a&1", true, Some(70), Some("Battery service")),
    ];
    let r = get_devices_with_battery(&nodes, None);
    assert_eq!(r.len(), 2);
    assert_eq!(r[0].address, "112233445566");
    assert_eq!(r[0].name, "Mouse");
    assert_eq!(r[0].level, 70);
    assert_eq!(r[1].address, "AABBCCDDEEFF");
    assert_eq!(r[1].name, "WH-1000XM4");
    assert_eq!(r[1].level, 80);
}

#[test]
fn devices_skip_stopped_and_levelless() {
    let nodes = vec![
        node("BTHENUM\\Dev_AABBCCDDEEFF", false, Some(40), Some("Off")),
        node("BTHENUM\\Dev_112233445566", true, None, Some("No level")),
        node("ROOT\\nothing", true, Some(10), Some("No address")),
    ];
    assert!(get_devices_with_battery(&nodes, None).is_empty());
}

#[test]
fn devices_filtered_by_connected_set() {
    let nodes = vec![
        node("BTHENUM\\Dev_AABBCCDDEEFF", true, Some(40), Some("Keep")),
        node("BTHENUM\\Dev_112233445566", true, Some(30), Some("Drop")),
        node("BTHENUM\\Dev_A1A1A1A1A1A1", true, Some(20), Some("Lower")),
    ];
    let set = vec!["AABBCCDDEEFF".to_string(), "a1a1a1a1a1a1".to_string()];
    let r = get_devices_with_battery(&nodes, Some(&set));
    let names: Vec<&str> = r.iter().map(|d| d.name.as_str()).collect();
    assert_eq!(names, vec!["Keep", "Lower"]);
    let empty: Vec<String> = Vec::new();
    assert!(get_devices_with_battery(&nodes, Some(&empty)).is_empty());
}

#[test]
fn unnamed_device_gets_fallback_name() {
    let nodes = vec![node("BTHENUM\\Dev_AABBCCDDEEFF", true, Some(40), None)];
    let r = get_devices_with_battery(&nodes, None);
    assert_eq!(r[0].name, "Bluetooth-устройство");
}

#[test]
fn charge_name_when_no_base_name() {
    let nodes = vec![
        node("BTHENUM\\{x}_VID&1\\7&AABBCCDDEEFF_0", true, Some(40), Some("Charge node")),
        node("BTHENUM\\{y}_VID&1\\7&AABBCCDDEEFF_1", true, Some(90), Some("Second")),
    ];
    let r = get_devices_with_battery(&nodes, None);
    assert_eq!(r.len(), 1);
    assert_eq!(r[0].name, "Charge node");
    assert_eq!(r[0].level, 90);
}

#[test]
fn list_sorted_by_lowercase_name() {
    let nodes = vec![
        node("BTHENUM\\Dev_000000000001", true, Some(1), Some("zeta")),
        node("BTHENUM\\Dev_000000000002", true, Some(2), Some("Alpha")),
        node("BTHENUM\\Dev_000000000003", true, Some(3), Some("beta")),
    ];
    let r = get_devices_with_battery(&nodes, None);
    let names: Vec<&str> = r.iter().map(|d| d.name.as_str()).collect();
    assert_eq!(names, vec!["Alpha", "beta", "zeta"]);
}

#[test]
fn stable_sort_puts_target_first() {
    let devs = vec![
        DeviceBattery { address: "000000000001".into(), name: "b".into(), level: 1 },
        DeviceBattery { address: "000000000002".into(), name: "a".into(), level: 2 },
        DeviceBattery { address: "000000000003".into(), name: "A".into(), level: 3 },
    ];
    let r = stable_sort_devices(&devs, Some("000000000001"));
    let levels: Vec<u8> = r.iter().map(|d| d.level).collect();
    assert_eq!(levels, vec![1, 2, 3]);
    let r = stable_sort_devices(&devs, None);
    let levels: Vec<u8> = r.iter().map(|d| d.level).collect();
    assert_eq!(levels, vec![2, 3, 1]);
}

#[test]
fn instance_ids_of_device_key() {
    let none: Vec<String> = Vec::new();
    assert_eq!(instance_ids("BTH", "Dev1", &none), vec!["BTH\\Dev1".to_string()]);
    let two = vec!["i1".to_string(), "i2".to_string()];
    assert_eq!(
        instance_ids("BTHLE", "Dev_X", &two),
        vec!["BTHLE\\Dev_X\\i1".to_string(), "BTHLE\\Dev_X\\i2".to_string()]
    );
}

#[test]
fn property_read_protocol() {
    assert_eq!(first_property_step(0, 4, 4096), PropertyStep::Complete(4));
    assert_eq!(first_property_step(0, 5000, 4096), PropertyStep::Missing);
    assert_eq!(first_property_step(0x1A, 5000, 4096), PropertyStep::Retry(5000));
    assert_eq!(first_property_step(0x1A, 0, 4096), PropertyStep::Missing);
    assert_eq!(first_property_step(0x1A, 65537, 4096), PropertyStep::Missing);
    assert_eq!(first_property_step(0x25, 4, 4096), PropertyStep::Missing);
    assert_eq!(retry_property_step(0, 5000, 5000), Some(5000));
    assert_eq!(retry_property_step(0, 5001, 5000), None);
    assert_eq!(retry_property_step(3, 10, 5000), None);
}

#[test]
fn devnode_status() {
    assert!(devnode_started(0, 0x8));
    assert!(devnode_started(0, 0x180A));
    assert!(!devnode_started(0, 0x1));
    assert!(!devnode_started(0x1A, 0x8));
}

#[test]
fn bluetooth_address_formatting() {
    assert_eq!(format_bluetooth_address(0xAABBCCDDEEFF), "AABBCCDDEEFF");
    assert_eq!(format_bluetooth_address(1), "000000000001");
    assert_eq!(format_bluetooth_address(0), "000000000000");
    assert_eq!(format_bluetooth_address(0x1_0000_0000_0000), "1000000000000");
    for a in [0u64, 1, 0x1234_5678_9ABC, 0xFFFF_FFFF_FFFF] {
        assert_eq!(format_bluetooth_address(a), format!("{:012X}", a));
        let s = format_bluetooth_address(a);
        assert_eq!(extract_address(&s).as_deref(), Some(s.as_str()));
    }
}

fn raw_units(units: &[u16]) -> Vec<u8> {
    let mut out = Vec::new();
    for u in units {
        out.extend_from_slice(&u.to_le_bytes());
    }
    out
}

#[test]
fn friendly_name_decoding() {
    // an unpaired surrogate becomes U+FFFD, a pair becomes one character
    assert_eq!(read_friendly_name(&raw_units(&[0xD800, 0x41, 0])).as_deref(), Some("\u{FFFD}A"));
    assert_eq!(read_friendly_name(&raw_units(&[0xDC00])).as_deref(), Some("\u{FFFD}"));
    assert_eq!(read_friendly_name(&raw_units(&[0xD83C, 0xDFA7, 0x20, 0x42])).as_deref(), Some("🎧 B"));
    // Unicode white space is trimmed on both ends, inner spaces kept
    assert_eq!(read_friendly_name(&utf16_property("\u{3000}\u{A0}Keys  Pro\t\n")).as_deref(), Some("Keys  Pro"));
    assert_eq!(read_friendly_name(&utf16_property("\u{2028}\u{85}")), None);
    // a non-white-space control character stays
    assert_eq!(read_friendly_name(&utf16_property("\u{1}x")).as_deref(), Some("\u{1}x"));
    for s in ["  a b  ", "\u{205F}z\u{202F}", "x\u{200B}", "\u{180E}y"] {
        assert_eq!(read_friendly_name(&utf16_property(s)).as_deref(), Some(s.trim()));
    }
}

#[test]
fn every_reported_device_is_listed() {
    let nodes = vec![
        node("BTHENUM\\Dev_AABBCCDDEEFF", true, Some(40), Some("A")),
        node("BTHENUM\\{1}_VID&1\\7&AABBCCDDEEFF_0", true, Some(60), None),
        node("BTHLE\\Dev_112233445566", true, Some(10), Some("B")),
        node("BTHLE\\Dev_A1A1A1A1A1A1", false, Some(10), Some("Stopped")),
    ];
    let r = get_devices_with_battery(&nodes, None);
    assert_eq!(r.len(), 2);
    let a = r.iter().find(|d| d.address == "AABBCCDDEEFF").unwrap();
    assert_eq!(a.level, 60);
    assert!(r.iter().any(|d| d.address == "112233445566" && d.level == 10));
}

#[test]
fn sorting_by_given_keys() {
    let devs = vec![
        DeviceBattery { address: "1".into(), name: "x".into(), level: 1 },
        DeviceBattery { address: "2".into(), name: "y".into(), level: 2 },
        DeviceBattery { address: "3".into(), name: "z".into(), level: 3 },
        DeviceBattery { address: "4".into(), name: "w".into(), level: 4 },
    ];
    let keys: Vec<Vec<char>> = ["b", "a", "b", "a"].iter().map(|k| k.chars().collect()).collect();
    // equal ranks: by key, equal keys keep their order
    let r = sort_by_keys(&devs, &vec![0, 0, 0, 0], &keys);
    let levels: Vec<u8> = r.iter().map(|d| d.level).collect();
    assert_eq!(levels, vec![2, 4, 1, 3]);
    // the rank comes before the key
    let r = sort_by_keys(&devs, &vec![1, 1, 0, 1], &keys);
    let levels: Vec<u8> = r.iter().map(|d| d.level).collect();
    assert_eq!(levels, vec![3, 2, 4, 1]);
    // the keys are compared as given: "B" sorts before "a"
    let keys: Vec<Vec<char>> = ["a", "B"].iter().map(|k| k.chars().collect()).collect();
    let r = sort_by_keys(&devs[..2].to_vec(), &vec![0, 0], &keys);
    assert_eq!(r[0].level, 2);
}

#[test]
fn connected_list_is_the_full_list_restricted() {
    let nodes = vec![
        node("BTHENUM\\Dev_aabbccddeeff", true, Some(40), Some("Lower id")),
        node("BTHENUM\\Dev_112233445566", true, Some(30), Some("Other")),
        node("BTHLE\\Dev_A1A1A1A1A1A1", true, Some(20), Some("Third")),
        node("BTHLE\\Dev_B2B2B2B2B2B2", true, None, Some("No level")),
    ];
    let all = get_devices_with_battery(&nodes, None);
    assert_eq!(all.len(), 3);
    for d in &all {
        assert!(d.address.len() == 12 && d.address.chars().all(|c| c.is_ascii_digit() || ('A'..='F').contains(&c)));
    }
    let set = vec!["aabbccddeeff".to_string(), "A1A1A1A1A1A1".to_string(), "B2B2B2B2B2B2".to_string()];
    let filtered = get_devices_with_battery(&nodes, Some(&set));
    let expected: Vec<(String, String, u8)> = all
        .iter()
        .filter(|d| set.contains(&d.address) || set.contains(&d.address.to_ascii_lowercase()))
        .map(|d| (d.address.clone(), d.name.clone(), d.level))
        .collect();
    let got: Vec<(String, String, u8)> = filtered.iter().map(|d| (d.address.clone(), d.name.clone(), d.level)).collect();
    assert_eq!(got, expected);
}
