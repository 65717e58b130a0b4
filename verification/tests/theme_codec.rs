use cast_edit::color::{Rgb, Theme};
use cast_edit::errors::ThemeError;

fn gray(v: u8) -> Rgb {
    Rgb { r: v, g: v, b: v }
}

#[test]
fn color_from_hex_parses_components() {
    let c = Theme::color_from_hex(b"#1a2B3c").unwrap();
    assert_eq!(c, Rgb { r: 0x1a, g: 0x2b, b: 0x3c });
}

#[test]
fn color_from_hex_rejects_bad_shapes() {
    assert_eq!(Theme::color_from_hex(b"1a2b3c").unwrap_err(), ThemeError::HexFormat);
    assert_eq!(Theme::color_from_hex(b"#1a2b3").unwrap_err(), ThemeError::HexFormat);
    assert_eq!(Theme::color_from_hex(b"#1a2b3cd").unwrap_err(), ThemeError::HexFormat);
    assert_eq!(Theme::color_from_hex(b"#1a2b3g").unwrap_err(), ThemeError::HexValue);
}

#[test]
fn color_to_hex_is_lowercase_and_padded() {
    assert_eq!(Theme::color_to_hex(Rgb { r: 0x0a, g: 0xff, b: 0x00 }), b"#0aff00".to_vec());
}

#[test]
fn color_round_trip() {
    let c = Rgb { r: 7, g: 130, b: 255 };
    let hex = Theme::color_to_hex(c);
    assert_eq!(Theme::color_from_hex(&hex).unwrap(), c);
}

#[test]
fn validate_palette_accepts_8_and_16_only() {
    let p7: Vec<Rgb> = (0..7).map(|v| gray(v as u8)).collect();
    let p8: Vec<Rgb> = (0..8).map(|v| gray(v as u8)).collect();
    let p16: Vec<Rgb> = (0..16).map(|v| gray(v as u8)).collect();
    let p17: Vec<Rgb> = (0..17).map(|v| gray(v as u8)).collect();
    assert_eq!(Theme::validate_palette(&p7).unwrap_err(), ThemeError::PaletteSize(7));
    assert!(Theme::validate_palette(&p8).is_ok());
    assert!(Theme::validate_palette(&p16).is_ok());
    assert_eq!(Theme::validate_palette(&p17).unwrap_err(), ThemeError::PaletteSize(17));
}

#[test]
fn palette_string_round_trip() {
    let p8: Vec<Rgb> = (0..8).map(|v| gray((v * 16) as u8)).collect();
    let s = Theme::palette_to_string(&p8);
    let back = Theme::palette_from_string(&s).unwrap();
    assert_eq!(back, p8);
}

#[test]
fn palette_from_string_rejects_wrong_sizes() {
    let p7: Vec<Rgb> = (0..7).map(|v| gray(v as u8)).collect();
    let s7 = Theme::palette_to_string(&p7);
    assert_eq!(Theme::palette_from_string(&s7).unwrap_err(), ThemeError::PaletteSize(7));
    let p17: Vec<Rgb> = (0..17).map(|v| gray(v as u8)).collect();
    let s17 = Theme::palette_to_string(&p17);
    assert_eq!(Theme::palette_from_string(&s17).unwrap_err(), ThemeError::PaletteSize(17));
}

#[test]
fn palette_from_string_reports_first_bad_color() {
    assert_eq!(
        Theme::palette_from_string(b"#000000:nope:#ffffff").unwrap_err(),
        ThemeError::HexFormat
    );
    assert_eq!(Theme::palette_from_string(b"").unwrap_err(), ThemeError::HexFormat);
}
