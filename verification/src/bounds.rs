//! Every outcome of a rule lies within the input: a match ends at or before
//! the end of the input and its fragment holds the text between start and
//! end; a failure names a position that the input has, or its end.

use crate::grammar::{
    blanks_end, blocks_end, content_end, digit_field, digits_end, end_of_input, has_blank,
    has_digit, has_line_char, has_space, index, line_end, newline_len, next_block, next_line,
    parse, spaces_end, subtitle_block, subtitle_file, text_content, text_line, timecode,
    timestamp, Attempt, Rule,
};
use vstd::prelude::*;

verus! {

/// `attempt`, made of `rule` at `pos`, lies within `s`.
pub open spec fn within_input(attempt: Attempt, rule: Rule, s: Seq<char>, pos: int) -> bool {
    match attempt {
        Attempt::Matched { fragment, end } => {
            &&& pos <= end <= s.len()
            &&& fragment.rule == rule
            &&& fragment.text == s.subrange(pos, end)
        },
        Attempt::Failed { position, .. } => pos <= position <= s.len(),
    }
}

/// A run of digits ends within the input.
pub proof fn lemma_digits_end_within(s: Seq<char>, pos: int)
    requires
        0 <= pos <= s.len(),
    ensures
        pos <= digits_end(s, pos) <= s.len(),
    decreases s.len() - pos,
{
    if has_digit(s, pos) {
        lemma_digits_end_within(s, pos + 1);
    }
}

/// A run of blanks ends within the input.
pub proof fn lemma_blanks_end_within(s: Seq<char>, pos: int)
    requires
        0 <= pos <= s.len(),
    ensures
        pos <= blanks_end(s, pos) <= s.len(),
    decreases s.len() - pos,
{
    if has_blank(s, pos) {
        lemma_blanks_end_within(s, pos + 1);
    }
}

/// A line ends within the input.
pub proof fn lemma_line_end_within(s: Seq<char>, pos: int)
    requires
        0 <= pos <= s.len(),
    ensures
        pos <= line_end(s, pos) <= s.len(),
    decreases s.len() - pos,
{
    if has_line_char(s, pos) {
        lemma_line_end_within(s, pos + 1);
    }
}

/// A run of white space ends within the input.
pub proof fn lemma_spaces_end_within(s: Seq<char>, pos: int)
    requires
        0 <= pos <= s.len(),
    ensures
        pos <= spaces_end(s, pos) <= s.len(),
    decreases s.len() - pos,
{
    if has_space(s, pos) {
        lemma_spaces_end_within(s, pos + 1);
    }
}

/// A newline lies within the input.
pub proof fn lemma_newline_within(s: Seq<char>, pos: int)
    requires
        0 <= pos <= s.len(),
    ensures
        0 <= newline_len(s, pos) <= 2,
        pos + newline_len(s, pos) <= s.len(),
{
}

pub proof fn lemma_digit_field_within(rule: Rule, width: int, s: Seq<char>, pos: int)
    requires
        0 <= pos <= s.len(),
        0 < width,
    ensures
        within_input(digit_field(rule, width, s, pos), rule, s, pos),
        digit_field(rule, width, s, pos) is Matched ==> digit_field(rule, width, s, pos)->end
            == pos + width,
        digit_field(rule, width, s, pos) is Failed ==> digit_field(rule, width, s, pos)->position
            == pos,
{
    if digit_field(rule, width, s, pos) is Matched {
        assert(has_digit(s, pos + width - 1));
    }
}

pub proof fn lemma_index_within(s: Seq<char>, pos: int)
    requires
        0 <= pos <= s.len(),
    ensures
        within_input(index(s, pos), Rule::index, s, pos),
{
    lemma_digits_end_within(s, pos);
}

pub proof fn lemma_timestamp_within(s: Seq<char>, pos: int)
    requires
        0 <= pos <= s.len(),
    ensures
        within_input(timestamp(s, pos), Rule::timestamp, s, pos),
        timestamp(s, pos) is Matched ==> timestamp(s, pos)->end == pos + 12,
{
    lemma_digit_field_within(Rule::hours, 2, s, pos);
    if pos + 3 <= s.len() {
        lemma_digit_field_within(Rule::minutes, 2, s, pos + 3);
    }
    if pos + 6 <= s.len() {
        lemma_digit_field_within(Rule::seconds, 2, s, pos + 6);
    }
    if pos + 9 <= s.len() {
        lemma_digit_field_within(Rule::milliseconds, 3, s, pos + 9);
    }
}

pub proof fn lemma_timecode_within(s: Seq<char>, pos: int)
    requires
        0 <= pos <= s.len(),
    ensures
        within_input(timecode(s, pos), Rule::timecode, s, pos),
{
    lemma_timestamp_within(s, pos);
    if timestamp(s, pos) is Matched {
        let arrow = blanks_end(s, pos + 12);
        lemma_blanks_end_within(s, pos + 12);
        if arrow + 3 <= s.len() {
            lemma_blanks_end_within(s, arrow + 3);
            lemma_timestamp_within(s, blanks_end(s, arrow + 3));
        }
    }
}

pub proof fn lemma_text_line_within(s: Seq<char>, pos: int)
    requires
        0 <= pos <= s.len(),
    ensures
        within_input(text_line(s, pos), Rule::text_line, s, pos),
{
    lemma_line_end_within(s, pos);
}

/// A text content ends within the input.
pub proof fn lemma_content_end_within(s: Seq<char>, pos: int)
    requires
        0 <= pos <= s.len(),
    ensures
        pos <= content_end(s, pos) <= s.len(),
    decreases s.len() - pos,
{
    lemma_line_end_within(s, pos);
    match next_line(s, pos) {
        Some(next) => {
            lemma_newline_within(s, line_end(s, pos));
            lemma_content_end_within(s, next);
        },
        None => {},
    }
}

pub proof fn lemma_text_content_within(s: Seq<char>, pos: int)
    requires
        0 <= pos <= s.len(),
    ensures
        within_input(text_content(s, pos), Rule::text_content, s, pos),
{
    lemma_text_line_within(s, pos);
    lemma_content_end_within(s, pos);
}

pub proof fn lemma_subtitle_block_within(s: Seq<char>, pos: int)
    requires
        0 <= pos <= s.len(),
    ensures
        within_input(subtitle_block(s, pos), Rule::subtitle_block, s, pos),
        subtitle_block(s, pos) is Matched ==> pos < subtitle_block(s, pos)->end,
{
    lemma_index_within(s, pos);
    let first_break = digits_end(s, pos);
    lemma_digits_end_within(s, pos);
    lemma_newline_within(s, first_break);
    let code_start = first_break + newline_len(s, first_break);
    lemma_timecode_within(s, code_start);
    if index(s, pos) is Matched && timecode(s, code_start) is Matched {
        let second_break = timecode(s, code_start)->end;
        lemma_newline_within(s, second_break);
        let content_start = second_break + newline_len(s, second_break);
        lemma_text_content_within(s, content_start);
        if text_content(s, content_start) is Matched {
            let third_break = text_content(s, content_start)->end;
            lemma_newline_within(s, third_break);
            lemma_newline_within(s, third_break + newline_len(s, third_break));
        }
    }
}

/// A run of blocks ends within the input, and no block matches where it
/// ends.
pub proof fn lemma_blocks_end_within(s: Seq<char>, pos: int)
    requires
        0 <= pos <= s.len(),
    ensures
        pos <= blocks_end(s, pos) <= s.len(),
        subtitle_block(s, blocks_end(s, pos)) is Failed,
    decreases s.len() - pos,
{
    lemma_subtitle_block_within(s, pos);
    match next_block(s, pos) {
        Some(next) => {
            lemma_blocks_end_within(s, next);
        },
        None => {},
    }
}

pub proof fn lemma_subtitle_file_within(s: Seq<char>)
    ensures
        within_input(subtitle_file(s), Rule::subtitle_file, s, 0),
        subtitle_file(s) is Matched ==> subtitle_file(s)->end == s.len(),
{
    lemma_blocks_end_within(s, 0);
    let body_end = blocks_end(s, 0);
    lemma_spaces_end_within(s, body_end);
    lemma_subtitle_block_within(s, body_end);
}

/// The bounds law: whatever rule is tried at the start of an input, a match
/// is a prefix of the input and a failure lies at one of its positions. A
/// whole file, where it matches, is the whole input.
pub proof fn lemma_parse_within_input(rule: Rule, s: Seq<char>)
    ensures
        within_input(parse(rule, s), rule, s, 0),
        rule == Rule::subtitle_file && parse(rule, s) is Matched ==> parse(rule, s)->end
            == s.len(),
{
    match rule {
        Rule::index => lemma_index_within(s, 0),
        Rule::hours => lemma_digit_field_within(Rule::hours, 2, s, 0),
        Rule::minutes => lemma_digit_field_within(Rule::minutes, 2, s, 0),
        Rule::seconds => lemma_digit_field_within(Rule::seconds, 2, s, 0),
        Rule::milliseconds => lemma_digit_field_within(Rule::milliseconds, 3, s, 0),
        Rule::timestamp => lemma_timestamp_within(s, 0),
        Rule::timecode => lemma_timecode_within(s, 0),
        Rule::text_line => lemma_text_line_within(s, 0),
        Rule::text_content => lemma_text_content_within(s, 0),
        Rule::subtitle_block => lemma_subtitle_block_within(s, 0),
        Rule::subtitle_file => lemma_subtitle_file_within(s),
        Rule::EOI => {},
    }
}

} // verus!
