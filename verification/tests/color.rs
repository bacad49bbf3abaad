use richtext::color::ParseColorError;
use richtext::color::Rgb;
use richtext::color::Rgba;

#[test]
fn rgb_pack_and_unpack() {
    let c = Rgb::new(0x12, 0x34, 0x56);
    assert_eq!(c.r(), 0x12);
    assert_eq!(c.g(), 0x34);
    assert_eq!(c.b(), 0x56);
    assert_eq!(c.rgb(), 0x123456);
    assert_eq!(Rgb::from_rgb(0x123456), c);
    // bits above the low 24 are discarded
    assert_eq!(Rgb::from_rgb(0xFF123456).rgb(), 0x123456);
}

#[test]
fn rgba_pack_and_unpack() {
    let c = Rgba::new(0x12, 0x34, 0x56, 0x78);
    assert_eq!(c.r(), 0x12);
    assert_eq!(c.g(), 0x34);
    assert_eq!(c.b(), 0x56);
    assert_eq!(c.a(), 0x78);
    assert_eq!(c.rgba(), 0x78123456);
}

#[test]
fn alpha_attach_and_drop() {
    let c = Rgb::new(1, 2, 3).to_rgba(0xFF);
    assert_eq!(c.a(), 0xFF);
    assert_eq!(c.r(), 1);
    assert_eq!(c.to_rgb(), Rgb::new(1, 2, 3));
    assert_eq!(c.rgba(), 0xFF010203);
}

#[test]
fn parse_color_literals() {
    assert_eq!(Rgb::from_str("#55FF55").unwrap(), Rgb::new(0x55, 0xFF, 0x55));
    assert_eq!(Rgb::from_str("#000000").unwrap(), Rgb::new(0, 0, 0));
    assert_eq!(Rgb::from_str("#ffaa00").unwrap(), Rgb::new(0xFF, 0xAA, 0x00));
    assert_eq!(Rgb::from_str("#12345"), Err(ParseColorError::TooShort));
    assert_eq!(Rgb::from_str(""), Err(ParseColorError::TooShort));
    assert_eq!(Rgb::from_str("x123456"), Err(ParseColorError::NoHash));
    assert_eq!(Rgb::from_str("#12345z"), Err(ParseColorError::NotHex));
    assert_eq!(Rgb::from_str("#123456789"), Err(ParseColorError::NotHex));
    assert_eq!(Rgba::from_str("#78123456").unwrap(), Rgba::new(0x12, 0x34, 0x56, 0x78));
    assert_eq!(Rgba::from_str("#7812345"), Err(ParseColorError::TooShort));
    assert_eq!(Rgba::from_str("?78123456"), Err(ParseColorError::NoHash));
}
