use track_analyzer::color::{check_color, hex_to_rgb, map_hex_val, parse_hex, Color, Hex, Rgb};

fn rgb(r: u8, g: u8, b: u8) -> Rgb {
    Rgb { r, g, b }
}

#[test]
fn hex_digit_values() {
    assert_eq!(map_hex_val(Some('0')), 0);
    assert_eq!(map_hex_val(Some('9')), 9);
    assert_eq!(map_hex_val(Some('A')), 10);
    assert_eq!(map_hex_val(Some('F')), 15);
}

#[test]
fn default_target_colours() {
    assert_eq!(hex_to_rgb("#9D2B5C"), rgb(157, 43, 92));
    assert_eq!(hex_to_rgb("#FFF8FF"), rgb(255, 248, 255));
    assert_eq!(hex_to_rgb("#F4984A"), rgb(244, 152, 74));
    assert_eq!(hex_to_rgb("#1C937A"), rgb(28, 147, 122));
    assert_eq!(hex_to_rgb("#DECA5B"), rgb(222, 202, 91));
}

#[test]
fn lower_case_digits_are_accepted() {
    // Upper-casing goes through char::to_uppercase: lower-case letters must change.
    assert_eq!(hex_to_rgb("#f4984a"), rgb(244, 152, 74));
    assert_eq!(parse_hex("#abcdef"), Some(rgb(0xAB, 0xCD, 0xEF)));
}

#[test]
fn text_after_the_last_hash_counts() {
    assert_eq!(hex_to_rgb("00FF00"), rgb(0, 255, 0));
    assert_eq!(parse_hex("x#y#0000FF"), Some(rgb(0, 0, 255)));
    // Extra characters after six digits are ignored.
    assert_eq!(parse_hex("#1234567"), Some(rgb(0x12, 0x34, 0x56)));
}

#[test]
fn malformed_colours_are_rejected() {
    assert_eq!(parse_hex(""), None);
    assert_eq!(parse_hex("#"), None);
    assert_eq!(parse_hex("#12345"), None);
    assert_eq!(parse_hex("#12G456"), None);
    assert_eq!(parse_hex("#FFFFFF#"), None);
    assert_eq!(parse_hex("#12 456"), None);
}

#[test]
fn hex_keeps_text_and_value() {
    let h = Hex::new("#FFF8FF".to_string());
    assert_eq!(h.hex, "#FFF8FF");
    assert_eq!(h.rgb, rgb(255, 248, 255));
}

#[test]
fn channel_check() {
    assert_eq!(check_color(100, 90, 10), (true, 10));
    assert_eq!(check_color(100, 89, 10), (false, 11));
    assert_eq!(check_color(0, 255, 255), (true, 255));
    assert_eq!(check_color(7, 7, 0), (true, 0));
}

#[test]
fn drawing_colours() {
    assert_eq!(Color::White.rgb(), rgb(247, 246, 5));
    assert_eq!(Color::Orange.rgb(), rgb(255, 165, 80));
    assert_eq!(Color::Red.rgb(), rgb(255, 125, 20));
    assert_eq!(Color::CarCenter.rgb(), rgb(100, 255, 100));
    assert_eq!(Color::CarDirection.rgb(), rgb(100, 255, 150));
    assert_eq!(Color::Debug.rgb(), rgb(222, 193, 132));
}
