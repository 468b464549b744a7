use linguist_termcolor::hex::{hex_string, parse_hex_color};

#[test]
fn parses_well_formed_hex() {
    assert_eq!(parse_hex_color("#dea584"), Some(0xdea584));
    assert_eq!(parse_hex_color("#3572a5"), Some(0x3572a5));
    assert_eq!(parse_hex_color("#000000"), Some(0));
    assert_eq!(parse_hex_color("#ffffff"), Some(0xffffff));
}

#[test]
fn hex_digits_are_case_insensitive() {
    assert_eq!(parse_hex_color("#DEA584"), Some(0xdea584));
    assert_eq!(parse_hex_color("#DeA584"), Some(0xdea584));
}

#[test]
fn rejects_missing_hash() {
    assert_eq!(parse_hex_color("dea584"), None);
}

#[test]
fn rejects_wrong_length() {
    assert_eq!(parse_hex_color("#fff"), None);
    assert_eq!(parse_hex_color("#dea58"), None);
    assert_eq!(parse_hex_color("#dea5844"), None);
    assert_eq!(parse_hex_color(""), None);
}

#[test]
fn rejects_non_hex_digit() {
    assert_eq!(parse_hex_color("#dea58g"), None);
    assert_eq!(parse_hex_color("#dea58 "), None);
}

#[test]
fn renders_lowercase_hex() {
    assert_eq!(hex_string(0xdea584), "#dea584");
    assert_eq!(hex_string(0), "#000000");
    assert_eq!(hex_string(0xffffff), "#ffffff");
    assert_eq!(hex_string(0x00a51f), "#00a51f");
}

#[test]
fn parse_inverts_render() {
    for v in [0u32, 0x123456, 0xdea584, 0xffffff, 0x0000ff] {
        assert_eq!(parse_hex_color(&hex_string(v)), Some(v));
    }
}
