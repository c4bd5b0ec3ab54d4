use chortke::text::{decimal, first_item, has_colon, masked, trimmed};

#[test]
fn numbers_are_written_in_decimal() {
    assert_eq!(decimal(0), "0");
    assert_eq!(decimal(9), "9");
    assert_eq!(decimal(10), "10");
    assert_eq!(decimal(1234567890), "1234567890");
    assert_eq!(decimal(u64::MAX), "18446744073709551615");
}

#[test]
fn white_space_is_trimmed_as_std_trims_it() {
    for text in [
        "",
        " ",
        "a",
        "  a b\t",
        "\u{85}\u{a0}\u{1680}x\u{2003}\u{2028}\u{2029}\u{202f}\u{205f}\u{3000}",
        "\u{200b}not white space\u{feff}",
        "\r\n \u{e9}\u{e8} \u{b}\u{c}",
    ] {
        assert_eq!(trimmed(text), text.trim());
    }
}

#[test]
fn first_item_ends_at_the_first_comma() {
    for text in ["", ",", "a", "a,b", ",b", "\u{e9},b,c"] {
        assert_eq!(first_item(text), text.split(',').next().unwrap());
    }
}

#[test]
fn colons_and_backslashes_are_masked() {
    assert_eq!(masked(""), "");
    assert_eq!(masked("plain \u{e9}"), "plain \u{e9}");
    assert_eq!(masked(":\\"), "\\.\\\\");
    assert_eq!(masked("a:b\\c"), "a\\.b\\\\c");
}

#[test]
fn colons_are_found() {
    assert!(!has_colon(""));
    assert!(!has_colon("a\\b\u{e9}"));
    assert!(has_colon(":"));
    assert!(has_colon("\u{e9}b:"));
}
