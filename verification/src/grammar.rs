//! The subtitle text format, stated as functions on character sequences.
//!
//! Each rule is a function from the input and a start position to an
//! [`Attempt`]: either the fragment it matched and where the match ends, or
//! the rule and position at which matching stopped. A rule never looks behind
//! its start position and always takes the longest match its definition
//! allows; there is no backtracking into a rule that has matched.
//!
//! Positions count characters, not bytes.

use crate::decimal::is_digit;
use vstd::prelude::*;

verus! {

/// The rules of the format. Variants carry the rule names as they are
/// written in the grammar.
#[allow(non_camel_case_types)]
#[derive(Debug, Clone, Copy, PartialEq, Eq, Hash, Structural)]
pub enum Rule {
    /// One or more digits.
    index,
    /// Two digits.
    hours,
    /// Two digits.
    minutes,
    /// Two digits.
    seconds,
    /// Three digits.
    milliseconds,
    /// `hours:minutes:seconds,milliseconds`.
    timestamp,
    /// Two timestamps with `-->` between them and optional blanks around it.
    timecode,
    /// One or more characters other than line breaks.
    text_line,
    /// One or more text lines, one newline between neighbours.
    text_content,
    /// Index, newline, timecode, newline, text content, two newlines.
    subtitle_block,
    /// Any number of blocks, then optional white space up to the end of input.
    subtitle_file,
    /// The end of the input.
    EOI,
}

impl Rule {
    /// The name of the rule, as the grammar writes it.
    pub open spec fn spec_name(self) -> Seq<char> {
        match self {
            Rule::index => "index"@,
            Rule::hours => "hours"@,
            Rule::minutes => "minutes"@,
            Rule::seconds => "seconds"@,
            Rule::milliseconds => "milliseconds"@,
            Rule::timestamp => "timestamp"@,
            Rule::timecode => "timecode"@,
            Rule::text_line => "text_line"@,
            Rule::text_content => "text_content"@,
            Rule::subtitle_block => "subtitle_block"@,
            Rule::subtitle_file => "subtitle_file"@,
            Rule::EOI => "EOI"@,
        }
    }

    /// The name of the rule, as the grammar writes it.
    pub fn name(&self) -> (name: &'static str)
        ensures
            name@ == self.spec_name(),
    {
        match self {
            Rule::index => "index",
            Rule::hours => "hours",
            Rule::minutes => "minutes",
            Rule::seconds => "seconds",
            Rule::milliseconds => "milliseconds",
            Rule::timestamp => "timestamp",
            Rule::timecode => "timecode",
            Rule::text_line => "text_line",
            Rule::text_content => "text_content",
            Rule::subtitle_block => "subtitle_block",
            Rule::subtitle_file => "subtitle_file",
            Rule::EOI => "EOI",
        }
    }
}

/// A node of the parse tree: the rule that matched, the text it matched and
/// the fragments of the rules it is composed of.
pub struct Fragment {
    pub rule: Rule,
    pub text: Seq<char>,
    pub inner: Seq<Fragment>,
}

/// The outcome of trying a rule at a position.
pub enum Attempt {
    /// The rule matched up to, and not including, position `end`.
    Matched { fragment: Fragment, end: int },
    /// `rule` could not go on at `position`.
    Failed { rule: Rule, position: int },
}

/// True for a space or a tab.
#[verifier::allow_in_spec]
pub fn is_blank(c: char) -> bool
    returns
        c == ' ' || c == '\t',
{
    c == ' ' || c == '\t'
}

/// True for a line feed or a carriage return.
#[verifier::allow_in_spec]
pub fn is_line_break(c: char) -> bool
    returns
        c == '\n' || c == '\r',
{
    c == '\n' || c == '\r'
}

/// The input holds `c` at `pos`.
pub open spec fn has_char(s: Seq<char>, pos: int, c: char) -> bool {
    0 <= pos < s.len() && s[pos] == c
}

/// The input holds a digit at `pos`.
pub open spec fn has_digit(s: Seq<char>, pos: int) -> bool {
    0 <= pos < s.len() && is_digit(s[pos])
}

/// The input holds a space or a tab at `pos`.
pub open spec fn has_blank(s: Seq<char>, pos: int) -> bool {
    0 <= pos < s.len() && is_blank(s[pos])
}

/// The input holds a character at `pos` that is not a line break.
pub open spec fn has_line_char(s: Seq<char>, pos: int) -> bool {
    0 <= pos < s.len() && !is_line_break(s[pos])
}

/// The input holds a blank or a line break at `pos`.
pub open spec fn has_space(s: Seq<char>, pos: int) -> bool {
    0 <= pos < s.len() && (is_blank(s[pos]) || is_line_break(s[pos]))
}

/// The end of the longest run of digits that starts at `pos`.
pub open spec fn digits_end(s: Seq<char>, pos: int) -> int
    decreases s.len() - pos,
{
    if has_digit(s, pos) {
        digits_end(s, pos + 1)
    } else {
        pos
    }
}

/// The end of the longest run of blanks that starts at `pos`.
pub open spec fn blanks_end(s: Seq<char>, pos: int) -> int
    decreases s.len() - pos,
{
    if has_blank(s, pos) {
        blanks_end(s, pos + 1)
    } else {
        pos
    }
}

/// The first position from `pos` on that holds a line break, or the end of
/// the input if there is none.
pub open spec fn line_end(s: Seq<char>, pos: int) -> int
    decreases s.len() - pos,
{
    if has_line_char(s, pos) {
        line_end(s, pos + 1)
    } else {
        pos
    }
}

/// The end of the longest run of blanks and line breaks that starts at `pos`.
pub open spec fn spaces_end(s: Seq<char>, pos: int) -> int
    decreases s.len() - pos,
{
    if has_space(s, pos) {
        spaces_end(s, pos + 1)
    } else {
        pos
    }
}

/// The length of the newline at `pos`: a line feed, a carriage return with a
/// line feed, or a carriage return alone. Zero where there is no newline.
pub open spec fn newline_len(s: Seq<char>, pos: int) -> int {
    if has_char(s, pos, '\n') {
        1
    } else if has_char(s, pos, '\r') {
        if has_char(s, pos + 1, '\n') {
            2
        } else {
            1
        }
    } else {
        0
    }
}

/// A fragment without parts for `s[start..end]`.
pub open spec fn leaf(rule: Rule, s: Seq<char>, start: int, end: int) -> Fragment {
    Fragment { rule, text: s.subrange(start, end), inner: Seq::empty() }
}

/// `width` digits at `pos`, as a fragment of `rule`.
pub open spec fn digit_field(rule: Rule, width: int, s: Seq<char>, pos: int) -> Attempt {
    if forall|i: int| pos <= i < pos + width ==> has_digit(s, i) {
        Attempt::Matched { fragment: leaf(rule, s, pos, pos + width), end: pos + width }
    } else {
        Attempt::Failed { rule, position: pos }
    }
}

/// An index: the longest run of digits at `pos`, which must hold a digit.
pub open spec fn index(s: Seq<char>, pos: int) -> Attempt {
    let end = digits_end(s, pos);
    if pos < end {
        Attempt::Matched { fragment: leaf(Rule::index, s, pos, end), end }
    } else {
        Attempt::Failed { rule: Rule::index, position: pos }
    }
}

/// The hours of a timestamp: two digits.
pub open spec fn hours(s: Seq<char>, pos: int) -> Attempt {
    digit_field(Rule::hours, 2, s, pos)
}

/// The minutes of a timestamp: two digits.
pub open spec fn minutes(s: Seq<char>, pos: int) -> Attempt {
    digit_field(Rule::minutes, 2, s, pos)
}

/// The seconds of a timestamp: two digits.
pub open spec fn seconds(s: Seq<char>, pos: int) -> Attempt {
    digit_field(Rule::seconds, 2, s, pos)
}

/// The milliseconds of a timestamp: three digits.
pub open spec fn milliseconds(s: Seq<char>, pos: int) -> Attempt {
    digit_field(Rule::milliseconds, 3, s, pos)
}

/// A timestamp: hours, a colon, minutes, a colon, seconds, a comma and
/// milliseconds, twelve characters in all. Where it fails, the failure is
/// that of the field that does not match, or names the timestamp and the
/// place of the separator that is missing.
pub open spec fn timestamp(s: Seq<char>, pos: int) -> Attempt {
    let h = hours(s, pos);
    let m = minutes(s, pos + 3);
    let sec = seconds(s, pos + 6);
    let ms = milliseconds(s, pos + 9);
    if h is Failed {
        h
    } else if !has_char(s, pos + 2, ':') {
        Attempt::Failed { rule: Rule::timestamp, position: pos + 2 }
    } else if m is Failed {
        m
    } else if !has_char(s, pos + 5, ':') {
        Attempt::Failed { rule: Rule::timestamp, position: pos + 5 }
    } else if sec is Failed {
        sec
    } else if !has_char(s, pos + 8, ',') {
        Attempt::Failed { rule: Rule::timestamp, position: pos + 8 }
    } else if ms is Failed {
        ms
    } else {
        Attempt::Matched {
            fragment: Fragment {
                rule: Rule::timestamp,
                text: s.subrange(pos, pos + 12),
                inner: seq![h->fragment, m->fragment, sec->fragment, ms->fragment],
            },
            end: pos + 12,
        }
    }
}

/// The input holds the arrow `-->` at `pos`.
pub open spec fn has_arrow(s: Seq<char>, pos: int) -> bool {
    has_char(s, pos, '-') && has_char(s, pos + 1, '-') && has_char(s, pos + 2, '>')
}

/// A timecode: a timestamp, any number of blanks, the arrow, any number of
/// blanks, and a timestamp.
pub open spec fn timecode(s: Seq<char>, pos: int) -> Attempt {
    let start = timestamp(s, pos);
    let arrow = blanks_end(s, pos + 12);
    let end = timestamp(s, blanks_end(s, arrow + 3));
    if start is Failed {
        start
    } else if !has_arrow(s, arrow) {
        Attempt::Failed { rule: Rule::timecode, position: arrow }
    } else if end is Failed {
        end
    } else {
        Attempt::Matched {
            fragment: Fragment {
                rule: Rule::timecode,
                text: s.subrange(pos, end->end),
                inner: seq![start->fragment, end->fragment],
            },
            end: end->end,
        }
    }
}

/// A text line: the characters from `pos` up to the next line break or the
/// end of the input, of which there must be at least one.
pub open spec fn text_line(s: Seq<char>, pos: int) -> Attempt {
    let end = line_end(s, pos);
    if pos < end {
        Attempt::Matched { fragment: leaf(Rule::text_line, s, pos, end), end }
    } else {
        Attempt::Failed { rule: Rule::text_line, position: pos }
    }
}

/// Where the line after the one that starts at `pos` starts, if the text
/// content goes on with it: a newline must come first and the line must
/// hold a character.
pub open spec fn next_line(s: Seq<char>, pos: int) -> Option<int> {
    let end = line_end(s, pos);
    let next = end + newline_len(s, end);
    if pos < end && end < next && next < line_end(s, next) {
        Some(next)
    } else {
        None
    }
}

/// The end of the text content whose first line starts at `pos`.
pub open spec fn content_end(s: Seq<char>, pos: int) -> int
    decreases s.len() - pos,
{
    match next_line(s, pos) {
        Some(next) => content_end(s, next),
        None => line_end(s, pos),
    }
}

/// The lines of the text content whose first line starts at `pos`.
pub open spec fn content_lines(s: Seq<char>, pos: int) -> Seq<Fragment>
    decreases s.len() - pos,
{
    let line = leaf(Rule::text_line, s, pos, line_end(s, pos));
    match next_line(s, pos) {
        Some(next) => seq![line] + content_lines(s, next),
        None => seq![line],
    }
}

/// A text content: a text line, and as many further text lines as follow,
/// each after one newline.
pub open spec fn text_content(s: Seq<char>, pos: int) -> Attempt {
    let end = content_end(s, pos);
    if text_line(s, pos) is Failed {
        text_line(s, pos)
    } else {
        Attempt::Matched {
            fragment: Fragment {
                rule: Rule::text_content,
                text: s.subrange(pos, end),
                inner: content_lines(s, pos),
            },
            end,
        }
    }
}

/// A block: an index, a newline, a timecode, a newline, a text content and
/// two newlines. Where it fails, the failure is that of the part that does
/// not match, or names the block and the place of the newline that is
/// missing.
pub open spec fn subtitle_block(s: Seq<char>, pos: int) -> Attempt {
    let number = index(s, pos);
    let first_break = digits_end(s, pos);
    let code = timecode(s, first_break + newline_len(s, first_break));
    let second_break = code->end;
    let content = text_content(s, second_break + newline_len(s, second_break));
    let third_break = content->end;
    let fourth_break = third_break + newline_len(s, third_break);
    let end = fourth_break + newline_len(s, fourth_break);
    if number is Failed {
        number
    } else if newline_len(s, first_break) == 0 {
        Attempt::Failed { rule: Rule::subtitle_block, position: first_break }
    } else if code is Failed {
        code
    } else if newline_len(s, second_break) == 0 {
        Attempt::Failed { rule: Rule::subtitle_block, position: second_break }
    } else if content is Failed {
        content
    } else if newline_len(s, third_break) == 0 {
        Attempt::Failed { rule: Rule::subtitle_block, position: third_break }
    } else if newline_len(s, fourth_break) == 0 {
        Attempt::Failed { rule: Rule::subtitle_block, position: fourth_break }
    } else {
        Attempt::Matched {
            fragment: Fragment {
                rule: Rule::subtitle_block,
                text: s.subrange(pos, end),
                inner: seq![number->fragment, code->fragment, content->fragment],
            },
            end,
        }
    }
}

/// Where the block after the one that starts at `pos` starts, if a block
/// matches at `pos`.
pub open spec fn next_block(s: Seq<char>, pos: int) -> Option<int> {
    let block = subtitle_block(s, pos);
    if block is Matched && pos < block->end <= s.len() {
        Some(block->end)
    } else {
        None
    }
}

/// The end of the longest run of blocks that starts at `pos`.
pub open spec fn blocks_end(s: Seq<char>, pos: int) -> int
    decreases s.len() - pos,
{
    match next_block(s, pos) {
        Some(next) => blocks_end(s, next),
        None => pos,
    }
}

/// The fragments of the longest run of blocks that starts at `pos`.
pub open spec fn blocks(s: Seq<char>, pos: int) -> Seq<Fragment>
    decreases s.len() - pos,
{
    match next_block(s, pos) {
        Some(next) => seq![subtitle_block(s, pos)->fragment] + blocks(s, next),
        None => Seq::empty(),
    }
}

/// The end of the input: matches where `pos` is the length of the input,
/// and matches nothing.
pub open spec fn end_of_input(s: Seq<char>, pos: int) -> Attempt {
    if pos == s.len() {
        Attempt::Matched { fragment: leaf(Rule::EOI, s, pos, pos), end: pos }
    } else {
        Attempt::Failed { rule: Rule::EOI, position: pos }
    }
}

/// A whole file: blocks from the first character on, then white space, then
/// the end of the input. Where the end is not reached, the failure is the one
/// that got further: the block that did not match after the last one that
/// did, or the missing end of input.
pub open spec fn subtitle_file(s: Seq<char>) -> Attempt {
    let body_end = blocks_end(s, 0);
    let end = spaces_end(s, body_end);
    let block = subtitle_block(s, body_end);
    if end_of_input(s, end) is Matched {
        Attempt::Matched {
            fragment: Fragment {
                rule: Rule::subtitle_file,
                text: s.subrange(0, end),
                inner: blocks(s, 0).push(end_of_input(s, end)->fragment),
            },
            end,
        }
    } else if block is Failed && block->position >= end {
        block
    } else {
        end_of_input(s, end)
    }
}

/// What trying `rule` at the start of `s` gives.
pub open spec fn parse(rule: Rule, s: Seq<char>) -> Attempt {
    match rule {
        Rule::index => index(s, 0),
        Rule::hours => hours(s, 0),
        Rule::minutes => minutes(s, 0),
        Rule::seconds => seconds(s, 0),
        Rule::milliseconds => milliseconds(s, 0),
        Rule::timestamp => timestamp(s, 0),
        Rule::timecode => timecode(s, 0),
        Rule::text_line => text_line(s, 0),
        Rule::text_content => text_content(s, 0),
        Rule::subtitle_block => subtitle_block(s, 0),
        Rule::subtitle_file => subtitle_file(s),
        Rule::EOI => end_of_input(s, 0),
    }
}

} // verus!
