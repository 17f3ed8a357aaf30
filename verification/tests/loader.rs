use arceos_loader::loader::{
    app_page_table_entries, bytes_to_usize, load_plan, page_table_root_ppn, parse_head_text,
    parse_usize, read_head, split_fields_exec, sv39_pte, AbiTable, AppHead, ABI_TABLE_LEN,
    APP_BLOCK_FLAGS,
};

#[test]
fn parse_usize_accepts_what_std_accepts() {
    for s in ["0", "7", "42", "+5", "007", "18446744073709551615", "+", "", "-1", "12a", " 1", "++1", "-0"] {
        let expected = s.parse::<usize>().ok();
        assert_eq!(parse_usize(s.as_bytes()), expected, "{s:?}");
    }
}

#[test]
fn parse_usize_values() {
    assert_eq!(parse_usize(b"123"), Some(123));
    assert_eq!(parse_usize(b"+9"), Some(9));
    assert_eq!(parse_usize(b"+"), None);
    assert_eq!(parse_usize(b""), None);
    assert_eq!(parse_usize(b"-3"), None);
    assert_eq!(parse_usize(b"99999999999999999999999"), None);
}

#[test]
fn parse_usize_rejects_one_past_max() {
    let max = usize::MAX.to_string();
    assert_eq!(parse_usize(max.as_bytes()), Some(usize::MAX));
    let over = format!("{}0", usize::MAX);
    assert_eq!(parse_usize(over.as_bytes()), None);
}

#[test]
fn decimal_roundtrip() {
    for n in [0usize, 1, 9, 10, 99, 100, 12345, usize::MAX] {
        assert_eq!(parse_usize(n.to_string().as_bytes()), Some(n));
    }
}

#[test]
fn split_fields_matches_str_split() {
    for s in ["", "|", "a|b", "2|10|20", "||x|", "abc"] {
        let expected: Vec<Vec<u8>> = s.split('|').map(|f| f.as_bytes().to_vec()).collect();
        assert_eq!(split_fields_exec(s.as_bytes()), expected, "{s:?}");
    }
}

#[test]
fn header_text_is_parsed() {
    assert_eq!(parse_head_text(b"2|10|20"), Some((2, vec![10, 20])));
    assert_eq!(parse_head_text(b"0"), Some((0, vec![])));
    assert_eq!(parse_head_text(b"1|5|junk"), Some((1, vec![5])));
    assert_eq!(parse_head_text(b"2|10"), None);
    assert_eq!(parse_head_text(b"x|1"), None);
    assert_eq!(parse_head_text(b"2|10|y"), None);
    assert_eq!(parse_head_text(b""), None);
}

#[test]
fn header_text_must_be_utf8() {
    assert_eq!(parse_head_text(&[b'1', b'|', b'5', b'|', 0xff]), None);
    assert_eq!(parse_head_text(&[b'1', b'|', b'5', b'|', 0xc3, 0xa9]), Some((1, vec![5])));
}

#[test]
fn read_head_stops_at_the_first_nul() {
    let image = b"2|3|4\0abcdefg\0";
    let head = read_head(image, 0x2200_0000);
    assert_eq!(head.app_num, 2);
    assert_eq!(head.apps_size, vec![3, 4]);
    assert_eq!(head.start, 0x2200_0000 + 6);
    let head = read_head(b"1|3\0|4\0", 0);
    assert_eq!((head.app_num, head.apps_size, head.start), (1, vec![3], 4));
}

#[test]
fn bytes_to_usize_is_big_endian() {
    let n: usize = 0x0102_0304;
    assert_eq!(bytes_to_usize(&n.to_be_bytes()), n);
    let m: usize = usize::MAX - 5;
    assert_eq!(bytes_to_usize(&m.to_be_bytes()), m);
    let mut bytes = vec![0u8; std::mem::size_of::<usize>()];
    bytes[std::mem::size_of::<usize>() - 1] = 7;
    assert_eq!(bytes_to_usize(&bytes), 7);
}

#[test]
fn load_plan_places_each_app() {
    let head = AppHead { app_num: 3, apps_size: vec![100, 200, 50], start: 0x2200_0010 };
    let plan = load_plan(&head, 0x4010_0000, 0x20_0000);
    assert_eq!(plan.len(), 3);
    let got: Vec<(usize, usize, usize)> = plan.iter().map(|p| (p.load_from, p.run_at, p.size)).collect();
    assert_eq!(
        got,
        vec![
            (0x2200_0010, 0x4010_0000, 100),
            (0x2200_0010 + 100, 0x4030_0000, 200),
            (0x2200_0010 + 300, 0x4050_0000, 50),
        ]
    );
    for i in 0..2 {
        assert_eq!(plan[i].load_from + plan[i].size, plan[i + 1].load_from);
        assert!(plan[i].run_at + plan[i].size <= plan[i + 1].run_at);
    }
}

#[test]
fn load_plan_of_no_app_is_empty() {
    let head = AppHead { app_num: 0, apps_size: vec![], start: 5 };
    assert!(load_plan(&head, usize::MAX, usize::MAX).is_empty());
}

#[test]
fn abi_table_registers_handlers() {
    let mut t = AbiTable::new();
    for i in 0..ABI_TABLE_LEN {
        assert_eq!(t.entry(i), 0);
    }
    t.register_abi(1, 0xdead);
    t.register_abi(3, 0xbeef);
    t.register_abi(1, 0xcafe);
    assert_eq!(t.entry(1), 0xcafe);
    assert_eq!(t.entry(2), 0);
    assert_eq!(t.entry(3), 0xbeef);
}

#[test]
fn page_table_entries() {
    assert_eq!(sv39_pte(0x80000, 0xef), (0x80000 << 10) | 0xef);
    assert_eq!(sv39_pte(0, APP_BLOCK_FLAGS), 0xef);
    let e = app_page_table_entries();
    assert_eq!(
        e,
        vec![
            (2, (0x80000u64 << 10) | 0xef),
            (0x102, (0x80000u64 << 10) | 0xef),
            (0, 0xef),
            (1, (0x80000u64 << 10) | 0xef),
        ]
    );
    assert_eq!(page_table_root_ppn(0xffff_ffc0_8020_3000, 0xffff_ffc0_0000_0000), 0x80203);
}
