use manganese::hardware::{
    channel_name, collect_system_info, get_smbios_string, hardware_ram_speed, le_u16_at, le_u32_at,
    parse_slot_index, parse_type16_array, parse_type17_memory, parse_type2_board, parse_type4_cpu,
    parse_type7_cache, smb_next_structure,
};

/// One structure: header, formatted area of `len` bytes with `fields`
/// written at their offsets, then its strings and the terminating zero.
fn structure(typ: u8, len: u8, handle: u16, fields: &[(usize, u8)], strings: &[&str]) -> Vec<u8> {
    let mut s = vec![0u8; len as usize];
    s[0] = typ;
    s[1] = len;
    s[2] = handle as u8;
    s[3] = (handle >> 8) as u8;
    for &(o, v) in fields {
        s[o] = v;
    }
    if strings.is_empty() {
        s.push(0);
    }
    for t in strings {
        s.extend_from_slice(t.as_bytes());
        s.push(0);
    }
    s.push(0);
    s
}

fn dimm(handle: u16, size_mb: u16, locator: &str, speed: u16, configured: u16) -> Vec<u8> {
    structure(
        17,
        0x22,
        handle,
        &[
            (0x0C, size_mb as u8),
            (0x0D, (size_mb >> 8) as u8),
            (0x10, 1),
            (0x15, speed as u8),
            (0x16, (speed >> 8) as u8),
            (0x17, 2),
            (0x18, 3),
            (0x1A, 4),
            (0x20, configured as u8),
            (0x21, (configured >> 8) as u8),
        ],
        &[locator, "Acme", "SN1", "PN-7"],
    )
}

fn table() -> Vec<u8> {
    let mut t = Vec::new();
    t.extend(structure(2, 8, 0x0200, &[(4, 1), (5, 2), (6, 3), (7, 4)], &["Board Co", " X570 ", "1.0", "B123"]));
    t.extend(structure(
        4,
        0x30,
        0x0400,
        &[(4, 1), (7, 2), (0x10, 3), (0x1A, 0x10), (0x1C, 0x11), (0x1E, 0xFF), (0x1F, 0xFF), (0x23, 8), (0x25, 0)],
        &["AM4", "CPU Co", "Fast CPU"],
    ));
    t.extend(structure(7, 0x13, 0x0010, &[(5, 0x80), (9, 0x20)], &[]));
    t.extend(structure(7, 0x13, 0x0011, &[(5, 0x81), (9, 0x08), (10, 0x80)], &[]));
    t.extend(structure(16, 0x17, 0x1000, &[(0x0E, 4)], &[]));
    t.extend(dimm(0x1100, 8192, "DIMM 0", 3200, 0));
    t.extend(dimm(0x1101, 0, "DIMM 1", 0, 0));
    t.extend(dimm(0x1102, 8192, "DIMM 0", 3200, 2933));
    t.extend(dimm(0x1103, 0x7FFF, "DIMM 1", 3200, 2933));
    t.extend(structure(127, 4, 0xFFFF, &[], &[]));
    t
}

#[test]
fn smoke_collect() {
    let info = collect_system_info(&table(), Some(16));
    println!("{:#?}", info);
    assert!(info.cpu.is_some());
}

#[test]
fn smoke() {
    let info = collect_system_info(&[], None);
    println!("{:#?}", info);
    assert!(info.cpu.is_none() && info.board.is_none() && info.memory_devices.is_empty());
}

#[test]
fn system_info_from_table() {
    let info = collect_system_info(&table(), Some(16));
    let board = info.board.as_ref().unwrap();
    assert_eq!(board.manufacturer, "Board Co");
    assert_eq!(board.product, "X570");
    assert_eq!(board.serial, "B123");
    let cpu = info.cpu.as_ref().unwrap();
    assert_eq!(cpu.socket, "AM4");
    assert_eq!(cpu.manufacturer, "CPU Co");
    assert_eq!(cpu.name, "Fast CPU");
    assert_eq!(cpu.l1_kb, 32);
    assert_eq!(cpu.l2_kb, 8 * 64);
    assert_eq!(cpu.l3_kb, 0);
    assert_eq!(cpu.cores, 8);
    assert_eq!(cpu.threads, 16);
    assert_eq!(info.memory_array_slots, Some(4));
    assert_eq!(info.total_slots(), 4);
    assert_eq!(info.populated_slots(), 2);
    let m = &info.memory_devices;
    assert_eq!(m[0].size_mb, 8192);
    assert_eq!(m[0].part_number, "PN-7");
    assert_eq!(m[0].slot_index, Some(0));
    assert_eq!(m[3].size_mb, 0);
    assert!(!m[3].populated);
    assert_eq!(m[0].channel_index, Some(0));
    assert_eq!(m[2].channel_index, Some(1));
    assert_eq!(m[0].channel_name.as_deref(), Some("Channel A"));
    assert_eq!(m[3].channel_name.as_deref(), Some("Channel B"));
    let chans = info.memory_channels();
    assert_eq!(chans.len(), 2);
    assert_eq!(chans[0].name, "Channel A");
    assert_eq!(chans[0].devices, vec![0, 1]);
    assert_eq!(chans[1].devices, vec![2, 3]);
    assert_eq!(info.total_channels(), 2);
    assert_eq!(info.populated_channels(), 2);
}

#[test]
fn ram_speed_first_device_that_has_one() {
    let t = table();
    assert_eq!(hardware_ram_speed(&t, true), 2933);
    assert_eq!(hardware_ram_speed(&t, false), 3200);
    assert_eq!(hardware_ram_speed(&[], true), 0);
}

#[test]
fn little_endian_readers() {
    let b = [0x34u8, 0x12, 0x78, 0x56];
    assert_eq!(le_u16_at(&b, 0), 0x1234);
    assert_eq!(le_u16_at(&b, 3), 0x56);
    assert_eq!(le_u16_at(&b, usize::MAX), 0);
    assert_eq!(le_u32_at(&b, 0), 0x5678_1234);
    assert_eq!(le_u32_at(&b, 2), 0x5678);
}

#[test]
fn structure_boundaries_and_strings() {
    let t = table();
    let second = smb_next_structure(&t, 0).unwrap();
    assert_eq!(t[second], 4);
    assert_eq!(get_smbios_string(&t, 0, 2).as_deref(), Some("X570"));
    assert_eq!(get_smbios_string(&t, 0, 0), None);
    assert_eq!(get_smbios_string(&t, 0, 5), None);
    assert_eq!(smb_next_structure(&[1, 4, 0, 0, 7], 0), None);
    let lossy = structure(2, 8, 0, &[(4, 1)], &[]);
    let mut raw = lossy[..8].to_vec();
    raw.extend_from_slice(&[0x41, 0xFF, 0x42, 0, 0]);
    assert_eq!(get_smbios_string(&raw, 0, 1).as_deref(), Some("A\u{FFFD}B"));
}

#[test]
fn structure_parsers() {
    let t = table();
    assert!(parse_type2_board(&t, 0).is_some());
    assert!(parse_type2_board(&t[..5], 0).is_none());
    let off = smb_next_structure(&t, 0).unwrap();
    assert_eq!(parse_type4_cpu(&t, off).unwrap().l1_handle, 0x10);
    let c7 = structure(7, 0x13, 0x0042, &[(5, 0x02), (7, 0x05), (9, 0x00), (10, 0x80)], &[]);
    assert_eq!(parse_type7_cache(&c7, 0), Some((0x42, 0, 2, 5)));
    let a16 = structure(16, 0x17, 0, &[(0x0E, 2)], &[]);
    assert_eq!(parse_type16_array(&a16, 0), Some(2));
    let d = dimm(1, 0x7FFF, "ChannelA-DIMM1", 1, 2);
    let mut d2 = d.clone();
    d2[0x1C] = 0x00;
    d2[0x1D] = 0x80;
    let m = parse_type17_memory(&d2, 0).unwrap();
    assert_eq!(m.size_mb, 0x8000);
    assert_eq!(m.slot_index, Some(1));
}

#[test]
fn slot_index_from_locator() {
    assert_eq!(parse_slot_index("DIMM 12"), Some(12));
    assert_eq!(parse_slot_index("  A1 "), Some(1));
    assert_eq!(parse_slot_index("DIMM"), None);
    assert_eq!(parse_slot_index("B256"), None);
    assert_eq!(parse_slot_index("X007"), Some(7));
}

#[test]
fn channel_names() {
    assert_eq!(channel_name(0, true), "Channel A");
    assert_eq!(channel_name(30, true), "Channel Z");
    assert_eq!(channel_name(27, false), "Channel 27");
    assert_eq!(channel_name(0, false), "Channel 0");
}

fn device(name: Option<&str>, populated: bool) -> manganese::hardware::MemoryInfo {
    manganese::hardware::MemoryInfo {
        speed: 0,
        configured_speed: 0,
        manufacturer: String::new(),
        part_number: String::new(),
        serial: String::new(),
        size_mb: if populated { 1024 } else { 0 },
        locator: String::new(),
        slot_index: None,
        channel_index: None,
        channel_name: name.map(|s| s.to_string()),
        populated,
    }
}

#[test]
fn channels_ordered_by_name() {
    let info = manganese::hardware::SystemInfo {
        cpu: None,
        board: None,
        memory_devices: vec![
            device(Some("Channel 2"), true),
            device(Some("Channel 10"), false),
            device(None, false),
            device(Some("Channel 2"), false),
        ],
        memory_array_slots: None,
        hide_serials: false,
    };
    let chans = info.memory_channels();
    let names: Vec<&str> = chans.iter().map(|c| c.name.as_str()).collect();
    assert_eq!(names, vec!["Channel 0", "Channel 10", "Channel 2"]);
    assert_eq!(chans[2].devices, vec![0, 3]);
    assert_eq!(info.total_channels(), 3);
    assert_eq!(info.populated_channels(), 1);
}
