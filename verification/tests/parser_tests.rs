use srt_subtitles_parser::{Pair, ParseError, Rule, SrtSubtitleParser};

const BLOCK: &str = "26\n00:02:13,383 --> 00:02:14,883\nCarol moved her stuff out today.\n\n";

fn parse(rule: Rule, input: &str) -> Pair {
    SrtSubtitleParser::parse(rule, input).expect("should parse")
}

fn failure(rule: Rule, input: &str) -> ParseError {
    SrtSubtitleParser::parse(rule, input).expect_err("should not parse")
}

fn rules(pairs: &[Pair]) -> Vec<Rule> {
    pairs.iter().map(|p| p.rule).collect()
}

fn texts(pairs: &[Pair]) -> Vec<&str> {
    pairs.iter().map(|p| p.text.as_str()).collect()
}

#[test]
fn index_takes_the_longest_run_of_digits() {
    let pair = parse(Rule::index, "0042abc");
    assert_eq!(pair.rule, Rule::index);
    assert_eq!(pair.text, "0042");
    assert!(pair.inner.is_empty());
}

#[test]
fn fields_take_exactly_their_width() {
    assert_eq!(parse(Rule::hours, "123").text, "12");
    assert_eq!(parse(Rule::minutes, "99").text, "99");
    assert_eq!(parse(Rule::seconds, "60x").text, "60");
    assert_eq!(parse(Rule::milliseconds, "0001").text, "000");
}

#[test]
fn field_failure_names_the_field_and_its_start() {
    assert_eq!(
        failure(Rule::hours, "1"),
        ParseError { rule: Rule::hours, position: 0 }
    );
    assert_eq!(
        failure(Rule::milliseconds, "12"),
        ParseError { rule: Rule::milliseconds, position: 0 }
    );
    assert_eq!(
        failure(Rule::index, "abc"),
        ParseError { rule: Rule::index, position: 0 }
    );
}

#[test]
fn timestamp_tree_holds_the_four_fields() {
    let pair = parse(Rule::timestamp, "12:34:56,789 rest");
    assert_eq!(pair.rule, Rule::timestamp);
    assert_eq!(pair.text, "12:34:56,789");
    assert_eq!(
        rules(&pair.inner),
        vec![Rule::hours, Rule::minutes, Rule::seconds, Rule::milliseconds]
    );
    assert_eq!(texts(&pair.inner), vec!["12", "34", "56", "789"]);
}

#[test]
fn timestamp_with_a_period_fails_at_the_period() {
    assert_eq!(
        failure(Rule::timestamp, "00:00:00.000"),
        ParseError { rule: Rule::timestamp, position: 8 }
    );
}

#[test]
fn timestamp_failures_name_the_part_that_is_wrong() {
    assert_eq!(
        failure(Rule::timestamp, "0:00:00,000"),
        ParseError { rule: Rule::hours, position: 0 }
    );
    assert_eq!(
        failure(Rule::timestamp, "00-00:00,000"),
        ParseError { rule: Rule::timestamp, position: 2 }
    );
    assert_eq!(
        failure(Rule::timestamp, "00:0a:00,000"),
        ParseError { rule: Rule::minutes, position: 3 }
    );
    assert_eq!(
        failure(Rule::timestamp, "00:00;00,000"),
        ParseError { rule: Rule::timestamp, position: 5 }
    );
    assert_eq!(
        failure(Rule::timestamp, "00:00:0"),
        ParseError { rule: Rule::seconds, position: 6 }
    );
    assert_eq!(
        failure(Rule::timestamp, "00:00:00,00"),
        ParseError { rule: Rule::milliseconds, position: 9 }
    );
}

#[test]
fn timecode_without_spaces_parses_like_the_spaced_form() {
    let tight = parse(Rule::timecode, "01:02:03,004-->04:05:06,007");
    let spaced = parse(Rule::timecode, "01:02:03,004 --> 04:05:06,007");
    assert_eq!(tight.text, "01:02:03,004-->04:05:06,007");
    assert_eq!(spaced.text, "01:02:03,004 --> 04:05:06,007");
    assert_eq!(tight.inner, spaced.inner);
    assert_eq!(texts(&tight.inner), vec!["01:02:03,004", "04:05:06,007"]);
    assert_eq!(rules(&tight.inner), vec![Rule::timestamp, Rule::timestamp]);
}

#[test]
fn timecode_takes_tabs_and_several_blanks_around_the_arrow() {
    let pair = parse(Rule::timecode, "01:02:03,004 \t -->\t\t04:05:06,007");
    assert_eq!(texts(&pair.inner), vec!["01:02:03,004", "04:05:06,007"]);
}

#[test]
fn timecode_takes_no_other_arrow() {
    assert_eq!(
        failure(Rule::timecode, "00:00:00,000 > 00:00:02,500"),
        ParseError { rule: Rule::timecode, position: 13 }
    );
    assert_eq!(
        failure(Rule::timecode, "00:00:00,000 -> 00:00:02,500"),
        ParseError { rule: Rule::timecode, position: 13 }
    );
    assert_eq!(
        failure(Rule::timecode, "00:00:00,000 --> 00:00:02.500"),
        ParseError { rule: Rule::timestamp, position: 25 }
    );
}

#[test]
fn text_line_stops_at_a_line_break() {
    assert_eq!(parse(Rule::text_line, "Hello world\nnext").text, "Hello world");
    assert_eq!(parse(Rule::text_line, "Hello\r\nnext").text, "Hello");
    assert_eq!(parse(Rule::text_line, "Hello\rnext").text, "Hello");
    assert_eq!(
        failure(Rule::text_line, "\nHello"),
        ParseError { rule: Rule::text_line, position: 0 }
    );
}

#[test]
fn text_content_holds_its_lines() {
    let pair = parse(Rule::text_content, "Line 1\nLine 2\nLine 3");
    assert_eq!(pair.rule, Rule::text_content);
    assert_eq!(pair.text, "Line 1\nLine 2\nLine 3");
    assert_eq!(texts(&pair.inner), vec!["Line 1", "Line 2", "Line 3"]);
    assert_eq!(
        rules(&pair.inner),
        vec![Rule::text_line, Rule::text_line, Rule::text_line]
    );
}

#[test]
fn text_content_stops_before_an_empty_line() {
    let pair = parse(Rule::text_content, "Line 1\nLine 2\n\nLine 3");
    assert_eq!(pair.text, "Line 1\nLine 2");
    assert_eq!(texts(&pair.inner), vec!["Line 1", "Line 2"]);
    let pair = parse(Rule::text_content, "Line 1\nLine 2\n");
    assert_eq!(pair.text, "Line 1\nLine 2");
}

#[test]
fn text_content_takes_every_kind_of_newline() {
    let pair = parse(Rule::text_content, "one\r\ntwo\rthree\nfour");
    assert_eq!(pair.text, "one\r\ntwo\rthree\nfour");
    assert_eq!(texts(&pair.inner), vec!["one", "two", "three", "four"]);
}

#[test]
fn text_content_keeps_characters_beyond_ascii() {
    let pair = parse(Rule::text_content, "Grüße, 世界!\n— ça va?");
    assert_eq!(texts(&pair.inner), vec!["Grüße, 世界!", "— ça va?"]);
}

#[test]
fn block_tree_holds_index_timecode_and_text() {
    let pair = parse(Rule::subtitle_block, BLOCK);
    assert_eq!(pair.rule, Rule::subtitle_block);
    assert_eq!(pair.text, BLOCK);
    assert_eq!(
        rules(&pair.inner),
        vec![Rule::index, Rule::timecode, Rule::text_content]
    );
    assert_eq!(
        texts(&pair.inner),
        vec![
            "26",
            "00:02:13,383 --> 00:02:14,883",
            "Carol moved her stuff out today."
        ]
    );
}

#[test]
fn block_needs_the_empty_line_after_it() {
    let input = "1\n00:00:00,000 --> 00:00:02,500\nText";
    assert_eq!(
        failure(Rule::subtitle_block, input),
        ParseError { rule: Rule::subtitle_block, position: 36 }
    );
    let input = "1\n00:00:00,000 --> 00:00:02,500\nText\n";
    assert_eq!(
        failure(Rule::subtitle_block, input),
        ParseError { rule: Rule::subtitle_block, position: 37 }
    );
}

#[test]
fn block_failures_name_the_part_that_is_wrong() {
    assert_eq!(
        failure(Rule::subtitle_block, "x"),
        ParseError { rule: Rule::index, position: 0 }
    );
    assert_eq!(
        failure(Rule::subtitle_block, "1 \n"),
        ParseError { rule: Rule::subtitle_block, position: 1 }
    );
    assert_eq!(
        failure(Rule::subtitle_block, "1\n 00:00:00,000"),
        ParseError { rule: Rule::hours, position: 2 }
    );
    assert_eq!(
        failure(Rule::subtitle_block, "1\n00:00:00,000 --> 00:00:02,500 \nText\n\n"),
        ParseError { rule: Rule::subtitle_block, position: 31 }
    );
    assert_eq!(
        failure(Rule::subtitle_block, "1\n00:00:00,000 --> 00:00:02,500\n\nText\n\n"),
        ParseError { rule: Rule::text_line, position: 32 }
    );
}

#[test]
fn block_takes_carriage_returns() {
    let input = "1\r\n00:00:00,000 --> 00:00:02,500\r\none\r\ntwo\r\n\r\n";
    let pair = parse(Rule::subtitle_block, input);
    assert_eq!(pair.text, input);
    assert_eq!(texts(&pair.inner[2].inner), vec!["one", "two"]);
}

#[test]
fn file_tree_holds_its_blocks_and_the_end_of_input() {
    let input = format!("{}{}", BLOCK, BLOCK);
    let pair = parse(Rule::subtitle_file, &input);
    assert_eq!(pair.rule, Rule::subtitle_file);
    assert_eq!(pair.text, input);
    assert_eq!(
        rules(&pair.inner),
        vec![Rule::subtitle_block, Rule::subtitle_block, Rule::EOI]
    );
    assert_eq!(pair.inner[0].text, BLOCK);
    assert_eq!(pair.inner[2].text, "");
}

#[test]
fn empty_file_has_no_blocks() {
    let pair = parse(Rule::subtitle_file, "");
    assert_eq!(rules(&pair.inner), vec![Rule::EOI]);
    let pair = parse(Rule::subtitle_file, " \t\r\n\n");
    assert_eq!(rules(&pair.inner), vec![Rule::EOI]);
    assert_eq!(pair.text, " \t\r\n\n");
}

#[test]
fn file_tolerates_white_space_at_its_end() {
    let input = format!("{}\n \t\r\n", BLOCK);
    let pair = parse(Rule::subtitle_file, &input);
    assert_eq!(rules(&pair.inner), vec![Rule::subtitle_block, Rule::EOI]);
}

#[test]
fn file_does_not_tolerate_an_empty_line_between_blocks() {
    let input = format!("{}\n{}", BLOCK, BLOCK);
    let end = BLOCK.chars().count();
    assert_eq!(
        failure(Rule::subtitle_file, &input),
        ParseError { rule: Rule::EOI, position: end + 1 }
    );
}

#[test]
fn file_failure_is_the_one_that_got_further() {
    let end = BLOCK.chars().count();
    let input = format!("{}garbage", BLOCK);
    assert_eq!(
        failure(Rule::subtitle_file, &input),
        ParseError { rule: Rule::index, position: end }
    );
    let input = format!("{}  x", BLOCK);
    assert_eq!(
        failure(Rule::subtitle_file, &input),
        ParseError { rule: Rule::EOI, position: end + 2 }
    );
    let input = format!("{}27\n00:02:15,000 -> 00:02:16,000\nHi\n\n", BLOCK);
    assert_eq!(
        failure(Rule::subtitle_file, &input),
        ParseError { rule: Rule::timecode, position: end + 16 }
    );
}

#[test]
fn file_without_the_last_empty_line_fails() {
    let input = "1\n00:00:00,000 --> 00:00:02,500\nText without blank line\n2\n00:00:03,000 --> 00:00:05,000\nAnother subtitle";
    let error = failure(Rule::subtitle_file, input);
    assert_eq!(
        error,
        ParseError { rule: Rule::subtitle_block, position: input.chars().count() }
    );
}

#[test]
fn positions_count_characters() {
    let input = "1\n00:00:00,000 --> 00:00:02,500\nGrüße\n\n1\n00:00:00.000";
    assert_eq!(
        failure(Rule::subtitle_file, input),
        ParseError { rule: Rule::timestamp, position: 49 }
    );
}

#[test]
fn end_of_input_matches_only_the_empty_rest() {
    assert_eq!(parse(Rule::EOI, "").rule, Rule::EOI);
    assert_eq!(
        failure(Rule::EOI, "x"),
        ParseError { rule: Rule::EOI, position: 0 }
    );
}

#[test]
fn rule_names_are_those_of_the_grammar() {
    assert_eq!(Rule::index.name(), "index");
    assert_eq!(Rule::hours.name(), "hours");
    assert_eq!(Rule::minutes.name(), "minutes");
    assert_eq!(Rule::seconds.name(), "seconds");
    assert_eq!(Rule::milliseconds.name(), "milliseconds");
    assert_eq!(Rule::timestamp.name(), "timestamp");
    assert_eq!(Rule::timecode.name(), "timecode");
    assert_eq!(Rule::text_line.name(), "text_line");
    assert_eq!(Rule::text_content.name(), "text_content");
    assert_eq!(Rule::subtitle_block.name(), "subtitle_block");
    assert_eq!(Rule::subtitle_file.name(), "subtitle_file");
    assert_eq!(Rule::EOI.name(), "EOI");
}

#[test]
fn pair_accessors_hand_out_its_parts() {
    let child = Pair::new(Rule::text_line, "Hello", Vec::new());
    let pair = Pair::new(Rule::text_content, "Hello", vec![child]);
    assert_eq!(pair.as_rule(), Rule::text_content);
    assert_eq!(pair.as_str(), "Hello");
    let inner = pair.into_inner();
    assert_eq!(inner.len(), 1);
    assert_eq!(inner[0].as_rule(), Rule::text_line);
    assert_eq!(inner[0].as_str(), "Hello");
}
