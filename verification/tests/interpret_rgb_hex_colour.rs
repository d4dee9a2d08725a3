use travel_planner::interpret_rgb_hex_colour::{hex_digit, InvalidRgb, Rgb, RgbChannels};

#[test]
fn every_color() {
    let colors = (0_u8..255).zip(0_u8..255).zip(0_u8..255);

    for ((r, g), b) in colors {
        let hex = format!("#{:02x}{:02x}{:02x}", r, g, b);
        let color: Rgb = hex.parse().unwrap();
        assert_eq!(hex, color.to_string());
    }
}

#[test]
#[should_panic]
fn too_short() {
    let _: Rgb = "#1234".parse().unwrap();
}

#[test]
#[should_panic]
fn not_a_hex_code() {
    let _: Rgb = "?".parse().unwrap();
}

#[test]
#[should_panic]
fn invalid_literals() {
    let _: Rgb = "?".parse().unwrap();
}

#[test]
#[should_panic]
fn no_leading_hash() {
    let _: Rgb = "aabbcc".parse().unwrap();
}

#[test]
#[should_panic]
fn out_of_bounds() {
    let _: Rgb = "#00gg00".parse().unwrap();
}

#[test]
fn channels_of_a_colour() {
    let colour = Rgb::from_str("#0a1bFf").unwrap();
    assert_eq!(colour, Rgb { r: 10, g: 27, b: 255 });
    assert_eq!((colour.r(), colour.g(), colour.b()), (10, 27, 255));
    assert_eq!(colour.to_string(), "#0a1bff");
}

#[test]
fn white_space_around_a_colour_is_passed_over() {
    assert_eq!(Rgb::from_str("  #102030\n").unwrap(), Rgb { r: 16, g: 32, b: 48 });
    assert!(matches!(Rgb::from_trimmed("  #102030\n"), Err(InvalidRgb::MissingLeadingHash)));
    assert!(matches!(Rgb::from_str("# 102030"), Err(InvalidRgb::InvalidLength)));
}

#[test]
fn each_way_a_colour_is_refused() {
    assert!(matches!(Rgb::from_str(""), Err(InvalidRgb::MissingLeadingHash)));
    assert!(matches!(Rgb::from_str("aabbcc"), Err(InvalidRgb::MissingLeadingHash)));
    assert!(matches!(Rgb::from_str("#"), Err(InvalidRgb::InvalidLength)));
    assert!(matches!(Rgb::from_str("#1234"), Err(InvalidRgb::InvalidLength)));
    assert!(matches!(Rgb::from_str("#1234567"), Err(InvalidRgb::InvalidLength)));
    assert!(matches!(Rgb::from_str("#00gg00"), Err(InvalidRgb::InvalidHexDigit)));
    assert!(matches!(Rgb::from_str("#+12345"), Err(InvalidRgb::InvalidHexDigit)));
}

#[test]
fn length_is_counted_in_bytes() {
    // Three two-byte characters are six bytes: the length passes, the digits do not.
    assert!(matches!(Rgb::from_str("#ééé"), Err(InvalidRgb::InvalidHexDigit)));
    // Six two-byte characters are twelve bytes.
    assert!(matches!(Rgb::from_str("#éééééé"), Err(InvalidRgb::InvalidLength)));
}

#[test]
fn hex_digits_have_their_value() {
    assert_eq!(hex_digit('0'), Some(0));
    assert_eq!(hex_digit('9'), Some(9));
    assert_eq!(hex_digit('a'), Some(10));
    assert_eq!(hex_digit('f'), Some(15));
    assert_eq!(hex_digit('A'), Some(10));
    assert_eq!(hex_digit('F'), Some(15));
    assert_eq!(hex_digit('g'), None);
    assert_eq!(hex_digit('G'), None);
    assert_eq!(hex_digit(' '), None);
}

#[test]
fn every_colour_comes_back_from_its_text() {
    for r in [0u8, 1, 15, 16, 127, 128, 254, 255] {
        for g in [0u8, 9, 10, 99, 255] {
            for b in [0u8, 171, 205, 239, 255] {
                let colour = Rgb { r, g, b };
                assert_eq!(Rgb::from_str(&colour.to_string()).unwrap(), colour);
            }
        }
    }
}

#[test]
fn every_kind_of_white_space_is_passed_over() {
    let white = [
        '\u{9}', '\u{a}', '\u{b}', '\u{c}', '\u{d}', ' ', '\u{85}', '\u{a0}', '\u{1680}',
        '\u{2000}', '\u{2001}', '\u{2002}', '\u{2003}', '\u{2004}', '\u{2005}', '\u{2006}',
        '\u{2007}', '\u{2008}', '\u{2009}', '\u{200a}', '\u{2028}', '\u{2029}', '\u{202f}',
        '\u{205f}', '\u{3000}',
    ];
    for c in white {
        let text = format!("{}{}#102030{}", c, c, c);
        assert_eq!(Rgb::from_str(&text).unwrap(), Rgb { r: 16, g: 32, b: 48 }, "{:?}", c);
    }
}

#[test]
fn nothing_but_white_space_is_passed_over() {
    // Every other character that stands before the `#` hides it.
    let mut code = 0u32;
    let mut seen = 0;
    while code <= 0x3100 {
        if let Some(c) = char::from_u32(code) {
            let text = format!("{}#102030", c);
            let passed = Rgb::from_str(&text).is_ok();
            assert_eq!(passed, c.is_whitespace(), "{:?}", c);
            if passed {
                seen += 1;
            }
            let behind = format!("#102030{}", c);
            assert_eq!(Rgb::from_str(&behind).is_ok(), c.is_whitespace(), "{:?}", c);
        }
        code += 1;
    }
    assert_eq!(seen, 25);
    for c in ['\u{180e}', '\u{200b}', '\u{200c}', '\u{2060}', '\u{feff}', '\u{e000}', '\u{10ffff}'] {
        assert!(Rgb::from_str(&format!("{}#102030", c)).is_err(), "{:?}", c);
    }
}

#[test]
fn white_space_inside_a_colour_is_not_passed_over() {
    assert!(matches!(Rgb::from_str(" \t#10 030\n"), Err(InvalidRgb::InvalidHexDigit)));
    assert!(matches!(Rgb::from_str("\n \n"), Err(InvalidRgb::MissingLeadingHash)));
}
