use bgone::color::parse_foreground_spec;
use bgone::color::parse_hex_color;
use bgone::color::ColorComponent;
use bgone::color::ForegroundColorSpec;
use bgone::color::ParseColorError;
use bgone::color::RgbColor;

#[test]
fn parses_full_hex() {
    assert_eq!(parse_hex_color("#ff0000"), Ok(RgbColor { r: 255, g: 0, b: 0 }));
    assert_eq!(parse_hex_color("00ff7f"), Ok(RgbColor { r: 0, g: 255, b: 127 }));
    assert_eq!(parse_hex_color("#AbCdEf"), Ok(RgbColor { r: 171, g: 205, b: 239 }));
}

#[test]
fn parses_shorthand_hex() {
    assert_eq!(parse_hex_color("#f00"), Ok(RgbColor { r: 255, g: 0, b: 0 }));
    assert_eq!(parse_hex_color("c3a"), Ok(RgbColor { r: 204, g: 51, b: 170 }));
}

#[test]
fn rejects_bad_lengths() {
    assert_eq!(parse_hex_color(""), Err(ParseColorError::InvalidLength(0)));
    assert_eq!(parse_hex_color("#abcd"), Err(ParseColorError::InvalidLength(4)));
    assert_eq!(parse_hex_color("1234567"), Err(ParseColorError::InvalidLength(7)));
}

// Only one leading `#` is allowed: a second one counts toward the length.
#[test]
fn rejects_repeated_hash_marks() {
    assert_eq!(parse_hex_color("##f00"), Err(ParseColorError::InvalidLength(4)));
    assert_eq!(parse_hex_color("##ff0000"), Err(ParseColorError::InvalidLength(7)));
}

#[test]
fn rejects_bad_digits_by_component() {
    assert_eq!(
        parse_hex_color("zz0000"),
        Err(ParseColorError::InvalidComponent(ColorComponent::Red))
    );
    assert_eq!(
        parse_hex_color("00xx00"),
        Err(ParseColorError::InvalidComponent(ColorComponent::Green))
    );
    assert_eq!(
        parse_hex_color("0000q0"),
        Err(ParseColorError::InvalidComponent(ColorComponent::Blue))
    );
    assert_eq!(
        parse_hex_color("#0g0"),
        Err(ParseColorError::InvalidComponent(ColorComponent::Green))
    );
}

#[test]
fn parses_auto_as_unknown() {
    assert_eq!(parse_foreground_spec("auto"), Ok(ForegroundColorSpec::Unknown));
    assert_eq!(
        parse_foreground_spec("#f00"),
        Ok(ForegroundColorSpec::Known(RgbColor { r: 255, g: 0, b: 0 }))
    );
    assert!(parse_foreground_spec("autoo").is_err());
}
