use colorparse::{parse_hex, parse_number, parse_other, parse_percent_or_255, parse_rgb, Color,
    ParseColorError, ParseColorErrorKind};

fn kind_of(r: Result<Color, ParseColorError>) -> ParseColorErrorKind {
    r.unwrap_err().kind
}

fn chars(s: &str) -> Vec<char> {
    s.chars().collect()
}

#[test]
fn rgb_wrapped_with_commas() {
    assert_eq!(parse_rgb("rgb(255, 0, 0)"), Ok(Color::Rgb(255, 0, 0)));
}

#[test]
fn rgb_wrapped_with_spaces() {
    assert_eq!(parse_rgb("rgb(255 0 0)"), Ok(Color::Rgb(255, 0, 0)));
}

#[test]
fn other_bare_triple_normalizes_like_rgb() {
    assert_eq!(parse_other("255,0,0"), Ok(Color::Rgb(255, 0, 0)));
}

#[test]
fn rgb_separated_by_slashes() {
    assert_eq!(parse_rgb("rgb(1/2/3)"), Ok(Color::Rgb(1, 2, 3)));
}

#[test]
fn other_wrapped_form_still_parses() {
    assert_eq!(parse_other("rgb(1,2,3)"), Ok(Color::Rgb(1, 2, 3)));
}

#[test]
fn hex_is_upper_cased() {
    assert_eq!(parse_hex("#89b4fa"), Ok(Color::Hex(String::from("#89B4FA"))));
}

#[test]
fn hex_short_form_is_kept() {
    assert_eq!(parse_hex("#ABC"), Ok(Color::Hex(String::from("#ABC"))));
}

#[test]
fn hex_wrong_length_fails() {
    assert_eq!(kind_of(parse_hex("#1234")), ParseColorErrorKind::InvalidHex);
}

#[test]
fn hex_bad_digit_fails() {
    assert_eq!(kind_of(parse_hex("#GGG")), ParseColorErrorKind::InvalidHex);
}

#[test]
fn hex_missing_hash_fails() {
    assert_eq!(kind_of(parse_hex("89B4FA")), ParseColorErrorKind::InvalidHex);
}

#[test]
fn hex_error_keeps_the_input() {
    assert_eq!(parse_hex("#1234").unwrap_err().given, "#1234");
}

#[test]
fn rgb_percent_channels() {
    assert_eq!(parse_rgb("rgb(100% 50% 0%)"), Ok(Color::Rgb(255, 128, 0)));
}

#[test]
fn rgb_hexadecimal_channels() {
    assert_eq!(parse_rgb("0xFF 0x00 0x80"), Ok(Color::Rgb(255, 0, 128)));
}

#[test]
fn rgb_wrong_arity_fails() {
    assert_eq!(kind_of(parse_rgb("rgb(1,2)")), ParseColorErrorKind::InvalidRgb);
}

#[test]
fn rgb_error_keeps_original_input() {
    assert_eq!(parse_rgb("rgb(1,2)").unwrap_err().given, "rgb(1,2)");
}

#[test]
fn other_wrong_arity_with_comma_is_rgb_error() {
    assert_eq!(kind_of(parse_other("1,2")), ParseColorErrorKind::InvalidRgb);
}

#[test]
fn other_wrong_arity_without_comma_is_name_error() {
    assert_eq!(kind_of(parse_other("1 2")), ParseColorErrorKind::InvalidName);
}

#[test]
fn other_error_keeps_normalized_input() {
    assert_eq!(parse_other("1,2").unwrap_err().given, "1 2");
}

#[test]
fn ansi_index_parses() {
    assert_eq!(parse_other("137"), Ok(Color::Ansi256(137)));
}

#[test]
fn ansi_out_of_range_fails_as_ansi() {
    assert_eq!(kind_of(parse_other("256")), ParseColorErrorKind::InvalidAnsi256);
}

#[test]
fn unknown_name_fails_as_name() {
    assert_eq!(kind_of(parse_other("red")), ParseColorErrorKind::InvalidName);
}

#[test]
fn hex_looking_token_fails_as_ansi() {
    assert_eq!(kind_of(parse_other("abc")), ParseColorErrorKind::InvalidAnsi256);
}

#[test]
fn non_hex_token_fails_as_name() {
    assert_eq!(kind_of(parse_other("xyz")), ParseColorErrorKind::InvalidName);
}

#[test]
fn ansi_hexadecimal_token() {
    assert_eq!(parse_other("0x1A"), Ok(Color::Ansi256(26)));
}

#[test]
fn ansi_plus_sign_is_accepted() {
    assert_eq!(parse_other("+137"), Ok(Color::Ansi256(137)));
}

#[test]
fn ansi_minus_sign_is_rejected() {
    assert_eq!(kind_of(parse_other("-0")), ParseColorErrorKind::InvalidName);
}

#[test]
fn hex_channel_plus_sign_after_prefix() {
    assert_eq!(parse_other("0x+1f"), Ok(Color::Ansi256(31)));
}

#[test]
fn percent_rounds_half_up() {
    assert_eq!(parse_rgb("rgb(10% 0 0)"), Ok(Color::Rgb(26, 0, 0)));
}

#[test]
fn percent_fraction_rounds() {
    assert_eq!(parse_rgb("rgb(50.4% 0 0)"), Ok(Color::Rgb(129, 0, 0)));
}

#[test]
fn percent_leading_dot() {
    assert_eq!(parse_rgb("rgb(.5% 0 0)"), Ok(Color::Rgb(1, 0, 0)));
}

#[test]
fn percent_above_hundred_clamps() {
    assert_eq!(parse_rgb("rgb(150% 0% 0%)"), Ok(Color::Rgb(255, 0, 0)));
}

#[test]
fn percent_negative_clamps_to_zero() {
    assert_eq!(parse_rgb("rgb(-5% 0 0)"), Ok(Color::Rgb(0, 0, 0)));
}

#[test]
fn percent_with_exponent() {
    assert_eq!(parse_rgb("rgb(5e1% 0 0)"), Ok(Color::Rgb(128, 0, 0)));
    assert_eq!(parse_rgb("rgb(1e2% 0 0)"), Ok(Color::Rgb(255, 0, 0)));
}

#[test]
fn percent_tiny_exponent_rounds_to_zero() {
    assert_eq!(parse_rgb("rgb(1e-3% 0 0)"), Ok(Color::Rgb(0, 0, 0)));
}

#[test]
fn percent_huge_exponent_clamps() {
    assert_eq!(parse_rgb("rgb(1e99999999999999999999% 0 0)"), Ok(Color::Rgb(255, 0, 0)));
}

#[test]
fn percent_infinity_clamps() {
    assert_eq!(parse_rgb("rgb(inf% 0 0)"), Ok(Color::Rgb(255, 0, 0)));
    assert_eq!(parse_rgb("rgb(INFINITY% 0 0)"), Ok(Color::Rgb(255, 0, 0)));
    assert_eq!(parse_rgb("rgb(-inf% 0 0)"), Ok(Color::Rgb(0, 0, 0)));
}

#[test]
fn percent_nan_is_zero() {
    assert_eq!(parse_rgb("rgb(nan% 0 0)"), Ok(Color::Rgb(0, 0, 0)));
}

#[test]
fn percent_garbage_fails() {
    assert_eq!(kind_of(parse_rgb("rgb(5..0% 1 2)")), ParseColorErrorKind::InvalidRgb);
    assert_eq!(kind_of(parse_rgb("rgb(% 1 2)")), ParseColorErrorKind::InvalidRgb);
    assert_eq!(kind_of(parse_rgb("rgb(1e% 1 2)")), ParseColorErrorKind::InvalidRgb);
}

#[test]
fn parse_number_reads_decimal_and_hex() {
    assert_eq!(parse_number(&chars("255")), Some(255));
    assert_eq!(parse_number(&chars("0xff")), Some(255));
    assert_eq!(parse_number(&chars("256")), None);
    assert_eq!(parse_number(&chars("")), None);
}

#[test]
fn parse_percent_or_255_flags_the_rule() {
    assert_eq!(parse_percent_or_255(&chars("50%")), Some((128, true)));
    assert_eq!(parse_percent_or_255(&chars("200")), Some((200, false)));
    assert_eq!(parse_percent_or_255(&chars("50%%")), None);
}

#[test]
fn parsing_twice_gives_identical_results() {
    for s in ["rgb(1,2,3)", "#abc", "137", "red", "rgb(100% nan% 3)", ""] {
        assert_eq!(parse_rgb(s), parse_rgb(s));
        assert_eq!(parse_hex(s), parse_hex(s));
        assert_eq!(parse_other(s), parse_other(s));
    }
}

#[test]
fn every_input_returns_a_value() {
    let inputs = ["", "\u{0}", "caf\u{e9} au lait", "rgb(", "#", "%", ",,,", "///",
        "rgb(\u{3000}1\u{3000}2\u{3000}3)", "\u{1f600}", "1e999999999999999999999999999"];
    for s in inputs {
        let _ = parse_rgb(s);
        let _ = parse_hex(s);
        let _ = parse_other(s);
    }
    assert_eq!(kind_of(parse_other("")), ParseColorErrorKind::InvalidName);
    assert_eq!(parse_rgb("rgb(\u{3000}1\u{3000}2\u{3000}3)"), Ok(Color::Rgb(1, 2, 3)));
}
