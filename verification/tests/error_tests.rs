use srt_subtitles_parser::decimal::{decimal_chars, is_digit, parse_u32, push_padded};
use srt_subtitles_parser::text::{push_chars, string_of, to_chars};
use srt_subtitles_parser::{parse_srt, ParseError, Rule, SrtError};

#[test]
fn messages_name_what_went_wrong() {
    assert_eq!(
        SrtError::ParseError(ParseError { rule: Rule::index, position: 3 }).message(),
        "Failed to parse SRT file"
    );
    assert_eq!(
        SrtError::MissingComponent("timecode".to_string()).message(),
        "Missing expected component in subtitle block: timecode"
    );
    assert_eq!(
        SrtError::InvalidTimestamp("hours".to_string()).message(),
        "Invalid timestamp: hours"
    );
    assert_eq!(
        SrtError::InvalidIndex("99999999999".to_string()).message(),
        "Failed to parse index: 99999999999"
    );
    assert_eq!(
        SrtError::JsonError("expected value at line 1 column 1".to_string()).message(),
        "JSON error: expected value at line 1 column 1"
    );
}

#[test]
fn messages_of_errors_from_parsing() {
    let error = parse_srt("1\n00:00:00.000").unwrap_err();
    assert_eq!(error.message(), "Failed to parse SRT file");
    let error = parse_srt("4294967296\n00:00:01,000 --> 00:00:02,000\na\n\n").unwrap_err();
    assert_eq!(error.message(), "Failed to parse index: 4294967296");
}

#[test]
fn parse_u32_reads_digits() {
    assert_eq!(parse_u32("0"), Some(0));
    assert_eq!(parse_u32("7"), Some(7));
    assert_eq!(parse_u32("007"), Some(7));
    assert_eq!(parse_u32("1234567890"), Some(1_234_567_890));
    assert_eq!(parse_u32("4294967295"), Some(u32::MAX));
    assert_eq!(parse_u32("+15"), Some(15));
    assert_eq!(parse_u32("+0"), Some(0));
}

#[test]
fn parse_u32_agrees_with_the_standard_library() {
    for text in [
        "", "+", "-", "0", "00", "+0", "-0", "++1", "+-1", "1+", "12", "4294967295", "4294967296",
        "4294967300", "42949672950", "99999999999999999999", "00000000000000000000001", " 1",
        "1 ", "1_000", "0x10", "１２", "٣", "1.0", "+4294967295", "+4294967296", "429496729",
        "4294967289", "4294967290",
    ] {
        assert_eq!(parse_u32(text), text.parse::<u32>().ok(), "for {:?}", text);
    }
}

#[test]
fn parse_u32_refuses_what_is_no_number() {
    assert_eq!(parse_u32(""), None);
    assert_eq!(parse_u32("+"), None);
    assert_eq!(parse_u32("-1"), None);
    assert_eq!(parse_u32("12a"), None);
    assert_eq!(parse_u32("4294967296"), None);
}

#[test]
fn is_digit_is_true_for_ascii_digits_only() {
    for c in '0'..='9' {
        assert!(is_digit(c));
    }
    for c in ['/', ':', 'a', ' ', '٣', '１'] {
        assert!(!is_digit(c));
    }
}

#[test]
fn decimal_chars_writes_the_shortest_numeral() {
    let text = |n: u32| decimal_chars(n).into_iter().collect::<String>();
    assert_eq!(text(0), "0");
    assert_eq!(text(9), "9");
    assert_eq!(text(10), "10");
    assert_eq!(text(1_000), "1000");
    assert_eq!(text(u32::MAX), "4294967295");
}

#[test]
fn push_padded_pads_to_the_width() {
    let text = |n: u32, width: usize| {
        let mut out = String::from(">");
        push_padded(&mut out, n, width);
        out
    };
    assert_eq!(text(0, 0), ">0");
    assert_eq!(text(0, 1), ">0");
    assert_eq!(text(0, 3), ">000");
    assert_eq!(text(7, 2), ">07");
    assert_eq!(text(42, 2), ">42");
    assert_eq!(text(123, 2), ">123");
    assert_eq!(text(5, 6), ">000005");
}

#[test]
fn character_buffers_keep_every_character() {
    let chars = to_chars("Grüße, 世界!");
    assert_eq!(chars.len(), 10);
    assert_eq!(chars[2], 'ü');
    assert_eq!(string_of(&chars, 0, chars.len()), "Grüße, 世界!");
    assert_eq!(string_of(&chars, 7, 9), "世界");
    assert_eq!(string_of(&chars, 4, 4), "");
    let mut out = String::from("<");
    push_chars(&mut out, &chars, 0, 5);
    assert_eq!(out, "<Grüße");
}
