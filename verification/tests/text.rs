use hyperiondb::text::{find_space_from, skip_space_from, trim_chars};

fn in_the_table(n: u32) -> bool {
    matches!(
        n,
        0x0009..=0x000D
            | 0x0020
            | 0x0085
            | 0x00A0
            | 0x1680
            | 0x2000..=0x200A
            | 0x2028
            | 0x2029
            | 0x202F
            | 0x205F
            | 0x3000
    )
}

#[test]
fn every_character_is_white_space_exactly_if_the_table_has_it() {
    let mut spaces = 0;
    for n in 0..=0x10FFFFu32 {
        if let Some(c) = char::from_u32(n) {
            let one = vec![c];
            let found = find_space_from(&one, 0) == 0;
            assert_eq!(found, in_the_table(n), "U+{:04X}", n);
            assert_eq!(skip_space_from(&one, 0) == 1, found, "U+{:04X}", n);
            if found {
                spaces += 1;
            }
        }
    }
    assert_eq!(spaces, 25);
}

#[test]
fn trimming_takes_white_space_from_both_ends_only() {
    let v = trim_chars("\t\u{00A0} a\u{3000}b \u{2028}\r\n");
    assert_eq!(v, vec!['a', '\u{3000}', 'b']);
    assert_eq!(trim_chars("\u{200B}x"), vec!['\u{200B}', 'x']);
    assert!(trim_chars(" \u{1680}\u{205F} ").is_empty());
}
