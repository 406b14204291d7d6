use dagflow::text::{
    append_decimal, append_signed_decimal, place_text, same_text, trim_text, Placement,
};

#[test]
fn decimals() {
    for n in [0u64, 7, 10, 99, 100, 1234567890, u64::MAX] {
        let mut out = "n=".to_string();
        append_decimal(&mut out, n);
        assert_eq!(out, format!("n={n}"));
    }
    for n in [0i64, -1, 42, i64::MIN, i64::MAX] {
        let mut out = String::new();
        append_signed_decimal(&mut out, n);
        assert_eq!(out, n.to_string());
    }
}

#[test]
fn texts_are_placed_as_std_orders_them() {
    let all = ["", "a", "ab", "b", "B", "\u{e9}", "\u{10000}", "\u{ffff}", "a\0"];
    for a in all {
        for b in all {
            let expected = if a < b {
                Placement::Before
            } else if a == b {
                Placement::Same
            } else {
                Placement::After
            };
            assert_eq!(place_text(a, b), expected);
            assert_eq!(same_text(a, b), a == b);
        }
    }
}

#[test]
fn trimming_is_that_of_std() {
    let all = ["", "  ", "x", " \t\nx y\u{3000}\u{85}", "\u{a0}\u{e9} \u{e9}\u{2028}", "\u{200b}"];
    for text in all {
        assert_eq!(trim_text(text), text.trim());
    }
}

#[test]
fn white_space_is_that_of_unicode() {
    let white: Vec<u32> =
        (0..=0x10ffff).filter(|n| char::from_u32(*n).is_some_and(|c| c.is_whitespace())).collect();
    let mut expected: Vec<u32> = (0x9..=0xd).collect();
    expected.extend([0x20, 0x85, 0xa0, 0x1680]);
    expected.extend(0x2000..=0x200a);
    expected.extend([0x2028, 0x2029, 0x202f, 0x205f, 0x3000]);
    assert_eq!(white, expected);
}
