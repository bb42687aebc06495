use srt_subtitles_parser::{
    parse_srt, ParseError, Rule, SrtError, Subtitle, SubtitleFile, Timestamp,
};

const SINGLE_BLOCK: &str = "26\n00:02:13,383 --> 00:02:14,883\nCarol moved her stuff out today.\n\n";

const MULTI_LINE_BLOCK: &str =
    "28\n00:02:16,302 --> 00:02:18,095\n- Let me get you some coffee.\n- Thanks.\n\n";

const FULL_FILE: &str = "55\n00:03:52,440 --> 00:03:54,900\nThis is everybody.\nThis is Chandler and Phoebe...\n\n56\n00:03:55,109 --> 00:03:57,361\n...and Joey. And remember\nmy brother, Ross?\n\n";

fn ts(hours: u32, minutes: u32, seconds: u32, milliseconds: u32) -> Timestamp {
    Timestamp { hours, minutes, seconds, milliseconds }
}

fn entry(index: u32, start: Timestamp, end: Timestamp, text: &str) -> Subtitle {
    Subtitle { index, start, end, text: text.to_string() }
}

fn file(subtitles: Vec<Subtitle>) -> SubtitleFile {
    SubtitleFile { subtitles }
}

#[test]
fn single_block_parses_to_one_entry() {
    let parsed = parse_srt(SINGLE_BLOCK).expect("should parse");
    assert_eq!(parsed.subtitles.len(), 1);
    let subtitle = &parsed.subtitles[0];
    assert_eq!(subtitle.index, 26);
    assert_eq!(subtitle.start, ts(0, 2, 13, 383));
    assert_eq!(subtitle.end, ts(0, 2, 14, 883));
    assert_eq!(subtitle.text, "Carol moved her stuff out today.");
}

#[test]
fn dialogue_lines_are_joined_by_one_line_feed() {
    let parsed = parse_srt(MULTI_LINE_BLOCK).expect("should parse");
    assert_eq!(
        parsed,
        file(vec![entry(
            28,
            ts(0, 2, 16, 302),
            ts(0, 2, 18, 95),
            "- Let me get you some coffee.\n- Thanks."
        )])
    );
}

#[test]
fn full_file_parses_in_file_order() {
    let parsed = parse_srt(FULL_FILE).expect("should parse");
    assert_eq!(
        parsed,
        file(vec![
            entry(
                55,
                ts(0, 3, 52, 440),
                ts(0, 3, 54, 900),
                "This is everybody.\nThis is Chandler and Phoebe..."
            ),
            entry(
                56,
                ts(0, 3, 55, 109),
                ts(0, 3, 57, 361),
                "...and Joey. And remember\nmy brother, Ross?"
            ),
        ])
    );
}

#[test]
fn missing_trailing_blank_line_fails() {
    let input = "26\n00:02:13,383 --> 00:02:14,883\nCarol moved her stuff out today.";
    assert_eq!(
        parse_srt(input),
        Err(SrtError::ParseError(ParseError {
            rule: Rule::subtitle_block,
            position: input.chars().count(),
        }))
    );
    let input = "26\n00:02:13,383 --> 00:02:14,883\nCarol moved her stuff out today.\n";
    assert!(matches!(parse_srt(input), Err(SrtError::ParseError(_))));
}

#[test]
fn timecode_without_spaces_gives_the_same_entry() {
    let tight = parse_srt("1\n01:02:03,004-->04:05:06,007\nHi\n\n").expect("should parse");
    let spaced = parse_srt("1\n01:02:03,004 --> 04:05:06,007\nHi\n\n").expect("should parse");
    assert_eq!(tight, spaced);
    assert_eq!(
        tight,
        file(vec![entry(1, ts(1, 2, 3, 4), ts(4, 5, 6, 7), "Hi")])
    );
}

#[test]
fn period_in_a_timestamp_fails() {
    assert_eq!(
        parse_srt("1\n00:00:00.000 --> 00:00:02,500\nHi\n\n"),
        Err(SrtError::ParseError(ParseError { rule: Rule::timestamp, position: 10 }))
    );
}

#[test]
fn empty_text_parses_to_an_empty_collection() {
    assert_eq!(parse_srt(""), Ok(file(vec![])));
    assert_eq!(parse_srt("\n\n  \t\r\n"), Ok(file(vec![])));
}

#[test]
fn trailing_white_space_is_tolerated() {
    let input = format!("{}\n\n \t\n", SINGLE_BLOCK);
    let parsed = parse_srt(&input).expect("should parse");
    assert_eq!(parsed, parse_srt(SINGLE_BLOCK).unwrap());
}

#[test]
fn carriage_returns_do_not_reach_the_text() {
    let input = "7\r\n00:00:01,000 --> 00:00:02,000\r\none\r\ntwo\r\n\r\n";
    assert_eq!(
        parse_srt(input),
        Ok(file(vec![entry(7, ts(0, 0, 1, 0), ts(0, 0, 2, 0), "one\ntwo")]))
    );
}

#[test]
fn index_may_have_leading_zeros_and_need_not_be_in_order() {
    let input = "007\n00:00:01,000 --> 00:00:02,000\na\n\n3\n00:00:00,000 --> 00:00:00,500\nb\n\n3\n00:00:00,000 --> 00:00:00,500\nb\n\n";
    let parsed = parse_srt(input).expect("should parse");
    let indices: Vec<u32> = parsed.subtitles.iter().map(|s| s.index).collect();
    assert_eq!(indices, vec![7, 3, 3]);
}

#[test]
fn index_beyond_32_bits_is_an_invalid_index() {
    let input = "4294967296\n00:00:01,000 --> 00:00:02,000\na\n\n";
    assert_eq!(
        parse_srt(input),
        Err(SrtError::InvalidIndex("4294967296".to_string()))
    );
    let input = "4294967295\n00:00:01,000 --> 00:00:02,000\na\n\n";
    assert_eq!(parse_srt(input).unwrap().subtitles[0].index, u32::MAX);
    let input = "000000000000000000004294967295\n00:00:01,000 --> 00:00:02,000\na\n\n";
    assert_eq!(parse_srt(input).unwrap().subtitles[0].index, u32::MAX);
    let input = "99999999999999999999999999\n00:00:01,000 --> 00:00:02,000\na\n\n";
    assert_eq!(
        parse_srt(input),
        Err(SrtError::InvalidIndex("99999999999999999999999999".to_string()))
    );
}

#[test]
fn the_first_invalid_index_decides() {
    let input = "1\n00:00:01,000 --> 00:00:02,000\na\n\n5000000000\n00:00:01,000 --> 00:00:02,000\nb\n\n6000000000\n00:00:01,000 --> 00:00:02,000\nc\n\n";
    assert_eq!(
        parse_srt(input),
        Err(SrtError::InvalidIndex("5000000000".to_string()))
    );
}

#[test]
fn a_grammar_error_comes_before_an_invalid_index() {
    let input = "5000000000\n00:00:01,000 --> 00:00:02,000\nb\n\n1\n00:00:01.000";
    assert!(matches!(parse_srt(input), Err(SrtError::ParseError(_))));
}

#[test]
fn minutes_and_seconds_up_to_99_are_accepted() {
    let parsed = parse_srt("1\n00:60:99,000 --> 99:99:99,999\nHi\n\n").expect("should parse");
    assert_eq!(parsed.subtitles[0].start, ts(0, 60, 99, 0));
    assert_eq!(parsed.subtitles[0].end, ts(99, 99, 99, 999));
}

#[test]
fn end_before_start_is_accepted() {
    let parsed = parse_srt("1\n00:00:05,000 --> 00:00:01,000\nHi\n\n").expect("should parse");
    assert_eq!(parsed.subtitles[0].start, ts(0, 0, 5, 0));
    assert_eq!(parsed.subtitles[0].end, ts(0, 0, 1, 0));
}

#[test]
fn to_srt_renders_each_entry_with_an_empty_line_after_it() {
    let subtitles = file(vec![
        entry(26, ts(0, 2, 13, 383), ts(0, 2, 14, 883), "Carol moved her stuff out today."),
        entry(28, ts(0, 2, 16, 302), ts(0, 2, 18, 95), "- Let me get you some coffee.\n- Thanks."),
    ]);
    assert_eq!(
        subtitles.to_srt(),
        "26\n00:02:13,383 --> 00:02:14,883\nCarol moved her stuff out today.\n\n28\n00:02:16,302 --> 00:02:18,095\n- Let me get you some coffee.\n- Thanks.\n\n"
    );
}

#[test]
fn to_srt_of_an_empty_collection_is_empty() {
    assert_eq!(file(vec![]).to_srt(), "");
}

#[test]
fn to_srt_writes_the_index_without_padding() {
    let subtitles = file(vec![
        entry(0, ts(0, 0, 0, 0), ts(0, 0, 0, 1), "a"),
        entry(u32::MAX, ts(0, 0, 0, 0), ts(0, 0, 0, 1), "b"),
    ]);
    assert_eq!(
        subtitles.to_srt(),
        "0\n00:00:00,000 --> 00:00:00,001\na\n\n4294967295\n00:00:00,000 --> 00:00:00,001\nb\n\n"
    );
}

#[test]
fn render_into_appends_one_entry() {
    let mut out = String::from("# ");
    entry(1, ts(0, 0, 1, 0), ts(0, 0, 2, 0), "Hi").render_into(&mut out);
    assert_eq!(out, "# 1\n00:00:01,000 --> 00:00:02,000\nHi\n\n");
}

#[test]
fn parse_then_render_gives_the_text_back_where_it_is_canonical() {
    assert_eq!(parse_srt(SINGLE_BLOCK).unwrap().to_srt(), SINGLE_BLOCK);
    assert_eq!(parse_srt(MULTI_LINE_BLOCK).unwrap().to_srt(), MULTI_LINE_BLOCK);
    assert_eq!(parse_srt(FULL_FILE).unwrap().to_srt(), FULL_FILE);
}

#[test]
fn parse_render_parse_gives_the_same_collection() {
    let inputs = [
        String::new(),
        SINGLE_BLOCK.to_string(),
        FULL_FILE.to_string(),
        format!("{}{}\n\n", SINGLE_BLOCK, MULTI_LINE_BLOCK),
        "007\r\n01:02:03,004-->04:05:06,007\r\none\rtwo\r\n\r\n \t".to_string(),
        "1\n00:99:99,999 \t-->\t 99:00:00,000\nGrüße, 世界!\n  indented  \n\n".to_string(),
    ];
    for input in inputs {
        let first = parse_srt(&input).expect("should parse");
        let rendered = first.to_srt();
        let second = parse_srt(&rendered).expect("should parse again");
        assert_eq!(first, second);
        assert_eq!(second.to_srt(), rendered);
    }
}

#[test]
fn rendering_normalizes_white_space() {
    let input = "007\r\n01:02:03,004-->04:05:06,007\r\none\rtwo\r\n\r\n \t";
    assert_eq!(
        parse_srt(input).unwrap().to_srt(),
        "7\n01:02:03,004 --> 04:05:06,007\none\ntwo\n\n"
    );
}

#[test]
fn shift_time_moves_both_timestamps_of_every_entry() {
    let mut subtitles = file(vec![
        entry(1, ts(0, 0, 1, 0), ts(0, 0, 2, 500), "a"),
        entry(2, ts(0, 59, 59, 0), ts(1, 0, 0, 0), "b\nc"),
    ]);
    subtitles.shift_time(1_500);
    assert_eq!(
        subtitles,
        file(vec![
            entry(1, ts(0, 0, 2, 500), ts(0, 0, 4, 0), "a"),
            entry(2, ts(1, 0, 0, 500), ts(1, 0, 1, 500), "b\nc"),
        ])
    );
}

#[test]
fn shift_time_clamps_at_zero() {
    let mut subtitles = file(vec![entry(1, ts(0, 0, 1, 500), ts(0, 0, 7, 0), "a")]);
    subtitles.shift_time(-5_000);
    assert_eq!(subtitles.subtitles[0].start, ts(0, 0, 0, 0));
    assert_eq!(subtitles.subtitles[0].start.render(), "00:00:00,000");
    assert_eq!(subtitles.subtitles[0].end, ts(0, 0, 2, 0));
    subtitles.shift_time(i64::MIN);
    assert_eq!(subtitles.subtitles[0].start, ts(0, 0, 0, 0));
    assert_eq!(subtitles.subtitles[0].end, ts(0, 0, 0, 0));
}

#[test]
fn shift_time_by_zero_changes_nothing() {
    let unshifted = parse_srt(FULL_FILE).unwrap();
    let mut shifted = unshifted.clone();
    shifted.shift_time(0);
    assert_eq!(shifted, unshifted);
}

#[test]
fn shift_time_by_zero_normalizes_a_timestamp_that_is_out_of_range() {
    let mut subtitles = file(vec![entry(1, ts(0, 99, 0, 0), ts(0, 0, 99, 0), "a")]);
    subtitles.shift_time(0);
    assert_eq!(
        subtitles,
        file(vec![entry(1, ts(1, 39, 0, 0), ts(0, 1, 39, 0), "a")])
    );
}

#[test]
fn shift_time_of_an_empty_collection_does_nothing() {
    let mut subtitles = file(vec![]);
    subtitles.shift_time(12_345);
    assert_eq!(subtitles, file(vec![]));
}

#[test]
fn shift_time_twice_equals_once_with_the_sum() {
    let unshifted = parse_srt(FULL_FILE).unwrap();
    for (a, b) in [(1_000i64, 2_000i64), (-100_000, 50_000), (5_000, -200_000), (-232_440, -1)] {
        let mut twice = unshifted.clone();
        twice.shift_time(a);
        twice.shift_time(b);
        let mut once = unshifted.clone();
        once.shift_time(a + b);
        assert_eq!(twice, once);
    }
}

#[test]
fn shift_time_twice_differs_after_a_clamp() {
    let unshifted = file(vec![entry(1, ts(0, 0, 1, 500), ts(0, 0, 9, 0), "a")]);
    let mut twice = unshifted.clone();
    twice.shift_time(-5_000);
    twice.shift_time(5_000);
    let mut once = unshifted.clone();
    once.shift_time(0);
    assert_eq!(twice.subtitles[0].start, ts(0, 0, 5, 0));
    assert_eq!(once.subtitles[0].start, ts(0, 0, 1, 500));
    assert_eq!(twice.subtitles[0].end, once.subtitles[0].end);
}

#[test]
fn shifted_collection_renders_and_parses_back() {
    let mut subtitles = parse_srt(FULL_FILE).unwrap();
    subtitles.shift_time(-232_441);
    assert_eq!(
        subtitles.to_srt(),
        "55\n00:00:00,000 --> 00:00:02,459\nThis is everybody.\nThis is Chandler and Phoebe...\n\n56\n00:00:02,668 --> 00:00:04,920\n...and Joey. And remember\nmy brother, Ross?\n\n"
    );
    assert_eq!(parse_srt(&subtitles.to_srt()), Ok(subtitles));
}
