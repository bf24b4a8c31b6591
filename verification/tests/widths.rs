use wcwidth::tables::get_int_type;
use wcwidth::{add_range, char_width, decode, encode, lookup_bytes, make_table, parse_range, parse_ucd, split2, str_width, strip_line, Tables, Trie};

const N: Option<u8> = None;
const S0: Option<u8> = Some(0);
const S1: Option<u8> = Some(1);
const S2: Option<u8> = Some(2);

const STRING_TESTS: &[(&str, &[Option<u8>], Option<usize>)] = &[
    ("コンニチハ, セカイ!", &[S2, S2, S2, S2, S2, S1, S1, S2, S2, S2, S1], Some(19)),
    ("abc\x00def", &[S1, S1, S1, S0, S1, S1, S1], Some(6)),
    ("\x1b[0m", &[N, S1, S1, S1], None),
    ("--\u{05bf}--", &[S1, S1, S0, S1, S1], Some(4)),
    ("cafe\u{0301}", &[S1, S1, S1, S1, S0], Some(4)),
    ("\u{0410}\u{0488}", &[S1, S0], Some(1)),
    ("\u{1B13}\u{1B28}\u{1B2E}\u{1B44}", &[S1, S1, S1, S1], Some(4)),
];

const EAW_WIDE: &[(u32, u32)] = &[
    (0x1100, 0x115F),
    (0x3041, 0x33FF),
    (0xFF00, 0xFF60),
    (0xFFE0, 0xFFE6),
    (0x1F300, 0x1F64F),
];

const ZERO_COMBINING: &[(u32, u32)] = &[
    (0x0300, 0x036F),
    (0x0483, 0x0489),
    (0x0591, 0x05BD),
    (0x05BF, 0x05BF),
];

const OVERRIDES: &[(u32, u32, i8)] = &[
    (0x0000, 0x001F, -1),
    (0x007F, 0x009F, -1),
    (0x0000, 0x0000, 0),
    (0x200B, 0x200F, 0),
    (0x2028, 0x2029, 0),
    (0x202A, 0x202E, 0),
    (0x2060, 0x2063, 0),
    (0x034F, 0x034F, 0),
];

fn insert_range(t: &mut Trie, start: u32, end: u32, width: i8) {
    for cp in start..=end {
        if let Some(c) = char::from_u32(cp) {
            t.insert(c, encode(width)).unwrap();
        }
    }
}

fn build_tables() -> Tables {
    let mut t = Trie::new();
    for &(a, b) in EAW_WIDE {
        insert_range(&mut t, a, b, 2);
    }
    for &(a, b) in ZERO_COMBINING {
        insert_range(&mut t, a, b, 0);
    }
    for &(a, b, w) in OVERRIDES {
        insert_range(&mut t, a, b, w);
    }
    t.write_width_tables()
}

#[test]
fn strings() {
    let t = build_tables();
    for &(s, each, full) in STRING_TESTS {
        for (i, c) in s.chars().map(|c| (c, char_width(&t, c))).enumerate() {
            if c.1 != each[i] {
                panic!("{:?}, {:?}: w ({:?}) != each[{}] ({:?})", s, c.0, c.1, i, each[i]);
            }
        }
        let w = str_width(&t, s);
        if w != full {
            panic!("{:?}: w ({:?}) != full ({:?})", s, w, full);
        }
    }
}

#[test]
fn code_roundtrip() {
    for w in [-1i8, 0, 1, 2] {
        assert_eq!(decode(encode(w)), w);
    }
    assert_eq!(encode(1), 0);
    assert_eq!(encode(2), 1);
    assert_eq!(encode(0), 2);
    assert_eq!(encode(-1), 3);
    assert_eq!(decode(0), 1);
    assert_eq!(decode(1), 2);
    assert_eq!(decode(2), 0);
    assert_eq!(decode(3), -1);
}

#[test]
fn default_width_is_one() {
    let t = Trie::new().write_width_tables();
    assert_eq!(char_width(&t, 'a'), Some(1));
    assert_eq!(char_width(&t, 'é'), Some(1));
    assert_eq!(char_width(&t, 'あ'), Some(1));
    assert_eq!(char_width(&t, '😀'), Some(1));
    assert_eq!(str_width(&t, "abc"), Some(3));
    assert_eq!(str_width(&t, ""), Some(0));
}

#[test]
fn coverage_of_inserted_ranges() {
    let t = build_tables();
    for &(a, b) in EAW_WIDE {
        for cp in a..=b {
            if let Some(c) = char::from_u32(cp) {
                assert_eq!(char_width(&t, c), Some(2), "wide {:#x}", cp);
            }
        }
    }
    for &(a, b) in ZERO_COMBINING {
        for cp in a..=b {
            if let Some(c) = char::from_u32(cp) {
                assert_eq!(char_width(&t, c), Some(0), "zero {:#x}", cp);
            }
        }
    }
    for &(a, b, w) in &OVERRIDES[0..2] {
        assert_eq!(w, -1);
        for cp in a..=b {
            if cp == 0 {
                continue;
            }
            if let Some(c) = char::from_u32(cp) {
                assert_eq!(char_width(&t, c), None, "control {:#x}", cp);
            }
        }
    }
    assert_eq!(char_width(&t, '\u{0000}'), Some(0));
    assert_eq!(char_width(&t, '\u{0250}'), Some(1));
    assert_eq!(char_width(&t, '\u{FFFD}'), Some(1));
}

#[test]
fn decoder_consumes_encoding_length() {
    let t = build_tables();
    for (s, len) in [("a", 1usize), ("é", 2), ("あ", 3), ("😀", 4)] {
        let (_, z) = lookup_bytes(&t, s.as_bytes());
        assert_eq!(z, len, "{:?}", s);
        assert_eq!(s.as_bytes().len(), len);
    }
    let (w, z) = lookup_bytes(&t, "コx".as_bytes());
    assert_eq!((w, z), (2, 3));
}

#[test]
fn identical_leaf_blocks_share_one_block() {
    // two unrelated two-byte scripts with the same 64-entry pattern
    let mut t = Trie::new();
    t.insert('\u{0100}', encode(0)).unwrap();
    t.insert('\u{0200}', encode(0)).unwrap();
    let tab = t.write_width_tables();
    // ASCII halves + default block + one shared leaf block
    assert_eq!(tab.value_table().len(), 256);

    let mut t2 = Trie::new();
    t2.insert('\u{0100}', encode(0)).unwrap();
    t2.insert('\u{0201}', encode(0)).unwrap();
    let tab2 = t2.write_width_tables();
    // different offsets give different contents: two leaf blocks
    assert_eq!(tab2.value_table().len(), 320);
}

#[test]
fn insertion_order_does_not_change_lookups() {
    let mut t1 = Trie::new();
    let mut t2 = Trie::new();
    let ranges: &[(u32, u32, i8)] = &[
        (0x3041, 0x30FF, 2),
        (0x0300, 0x036F, 0),
        (0x0000, 0x001F, -1),
        (0x1F300, 0x1F64F, 2),
    ];
    for &(a, b, w) in ranges {
        insert_range(&mut t1, a, b, w);
    }
    for &(a, b, w) in ranges.iter().rev() {
        insert_range(&mut t2, a, b, w);
    }
    let tab1 = t1.write_width_tables();
    let tab2 = t2.write_width_tables();
    for cp in (0u32..0x400).chain(0x3000..0x3200).chain(0x1F2F0..0x1F660) {
        if let Some(c) = char::from_u32(cp) {
            assert_eq!(char_width(&tab1, c), char_width(&tab2, c), "{:#x}", cp);
        }
    }
}

#[test]
fn int_types_follow_maxima() {
    assert_eq!(get_int_type(0), "u8");
    assert_eq!(get_int_type(255), "u8");
    assert_eq!(get_int_type(256), "u16");
    assert_eq!(get_int_type(65535), "u16");
    assert_eq!(get_int_type(65536), "u32");
    assert_eq!(get_int_type(1 << 32), "u64");
    let t = build_tables();
    assert_eq!(t.value_type(), "u8");
    assert_eq!(t.index_type(), "u8");
}

#[test]
fn range_tables_merge_and_sort() {
    let mut v: Vec<(u32, u32)> = Vec::new();
    add_range(&mut v, (10, 20));
    add_range(&mut v, (21, 30));
    assert_eq!(v, vec![(10, 30)]);
    add_range(&mut v, (25, 28));
    assert_eq!(v, vec![(10, 30)]);
    add_range(&mut v, (40, 50));
    assert_eq!(v, vec![(10, 30), (40, 50)]);

    let raw = vec![(40u32, 50u32), (10, 20), (21, 30), (60, 60)];
    let tab = make_table(raw);
    assert_eq!(tab, vec![(10, 30), (40, 50), (60, 60)]);
}

#[test]
fn structural_errors_never_surface() {
    // every insert into a trie built through the public constructors is Ok
    let mut t = Trie::new();
    for cp in [0x41u32, 0x100, 0x801, 0x10001, 0x10FFFF] {
        let c = char::from_u32(cp).unwrap();
        assert!(t.insert(c, encode(2)).is_ok());
        assert!(t.insert(c, encode(0)).is_ok());
    }
}

#[test]
fn lines_parse_to_ranges() {
    let filter: Vec<Vec<u8>> = vec![b"W".to_vec(), b"F".to_vec()];
    assert_eq!(
        parse_ucd(b"3041..3096    ; W # Lo    [86] HIRAGANA", &filter),
        Some((0x3041, 0x3096))
    );
    assert_eq!(parse_ucd(b"20A9          ; H # Sc  WON SIGN", &filter), None);
    assert_eq!(parse_ucd(b"# just a comment", &filter), None);
    assert_eq!(parse_ucd(b"   ", &filter), None);
    assert_eq!(parse_ucd(b"3041..3096", &filter), None);
    assert_eq!(parse_ucd(b"FF00..FF60;F", &filter), Some((0xFF00, 0xFF60)));
}

#[test]
fn range_fields_parse() {
    assert_eq!(parse_range(b"0301"), Some((0x301, 0x301)));
    assert_eq!(parse_range(b"AC00..D7A3"), Some((0xAC00, 0xD7A3)));
    assert_eq!(parse_range(b"ffffffff"), Some((0xFFFFFFFF, 0xFFFFFFFF)));
    assert_eq!(parse_range(b"100000000"), None);
    assert_eq!(parse_range(b"12G4"), None);
    assert_eq!(parse_range(b""), None);
    assert_eq!(parse_range(b"..20"), None);
}

#[test]
fn lines_strip_and_split() {
    assert_eq!(strip_line(b"  abc ; W  # tail"), Some(b"abc ; W".to_vec()));
    assert_eq!(strip_line(b"# only comment"), None);
    assert_eq!(strip_line(b"\t \r"), None);
    let (a, b) = split2(b"12..34", b"..").unwrap();
    assert_eq!((a, b), (b"12".to_vec(), b"34".to_vec()));
    assert_eq!(split2(b"1234", b".."), None);
}
