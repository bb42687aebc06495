//! The parser: executable matching of the grammar's rules, proved to give
//! what the rules in [`crate::grammar`] say.

use crate::decimal::is_digit;
use crate::grammar::{
    blanks_end, blocks, blocks_end, content_end, content_lines, digit_field, digits_end,
    end_of_input, has_char, has_digit, index, is_blank, is_line_break, leaf, line_end,
    newline_len, next_block, next_line, spaces_end, subtitle_block, subtitle_file, text_content,
    text_line, timecode, timestamp, Attempt, Fragment, Rule,
};
use crate::text::{string_of, to_chars};
use vstd::prelude::*;

verus! {

/// A node of a parse tree: the rule that matched, the text it matched and the
/// pairs of the rules it is composed of, in the order they matched.
#[derive(Debug, PartialEq, Eq)]
pub struct Pair {
    pub rule: Rule,
    pub text: String,
    pub inner: Vec<Pair>,
}

impl Pair {
    /// The fragment this pair stands for.
    pub open spec fn fragment(&self) -> Fragment
        decreases self,
    {
        Fragment {
            rule: self.rule,
            text: self.text@,
            inner: Seq::new(
                self.inner@.len(),
                |i: int|
                    if 0 <= i < self.inner@.len() {
                        self.inner@[i].fragment()
                    } else {
                        arbitrary()
                    },
            ),
        }
    }
}

impl View for Pair {
    type V = Fragment;

    open spec fn view(&self) -> Fragment {
        self.fragment()
    }
}

impl Pair {
    /// A pair of `rule` for `text`, with `inner` as its parts.
    pub fn new(rule: Rule, text: &str, inner: Vec<Pair>) -> (pair: Pair)
        ensures
            pair@ == (Fragment { rule, text: text@, inner: fragments(inner@) }),
            pair.rule == rule,
            pair.text@ == text@,
            pair.inner == inner,
    {
        let pair = Pair { rule, text: text.to_owned(), inner };
        assert(pair@.inner =~= fragments(pair.inner@));
        pair
    }

    /// The rule that matched.
    pub fn as_rule(&self) -> (rule: Rule)
        ensures
            rule == self@.rule,
    {
        self.rule
    }

    /// The text that matched.
    pub fn as_str(&self) -> (text: &str)
        ensures
            text@ == self@.text,
    {
        self.text.as_str()
    }

    /// The parts of the pair, in the order they matched.
    pub fn into_inner(self) -> (inner: Vec<Pair>)
        ensures
            fragments(inner@) == self@.inner,
    {
        assert(self@.inner =~= fragments(self.inner@));
        self.inner
    }
}

/// Why and where the input does not match: the rule that could not go on, and
/// the position, counted in characters, at which it stopped.
#[derive(Debug, Clone, Copy, PartialEq, Eq, Structural)]
pub struct ParseError {
    pub rule: Rule,
    pub position: usize,
}

/// The outcome of trying a rule at a position of a character buffer.
pub type Step = Result<(Pair, usize), ParseError>;

/// `step` is what `attempt` says, and a match ends within the first `len`
/// characters at or after `pos`.
pub open spec fn agrees(step: Step, attempt: Attempt, pos: usize, len: nat) -> bool {
    match step {
        Ok((pair, end)) => {
            &&& attempt == Attempt::Matched { fragment: pair@, end: end as int }
            &&& pos <= end <= len
        },
        Err(e) => attempt == Attempt::Failed { rule: e.rule, position: e.position as int },
    }
}

/// Tells whether the input holds `c` at `pos`.
fn has_char_at(input: &[char], pos: usize, c: char) -> (b: bool)
    ensures
        b == has_char(input@, pos as int, c),
        b ==> pos < usize::MAX,
{
    pos < input.len() && input[pos] == c
}

/// Runs over the digits from `pos` on.
fn scan_digits(input: &[char], pos: usize) -> (end: usize)
    requires
        pos <= input@.len(),
    ensures
        end == digits_end(input@, pos as int),
        pos <= end <= input@.len(),
{
    let mut end = pos;
    while end < input.len() && is_digit(input[end])
        invariant
            pos <= end <= input@.len(),
            digits_end(input@, pos as int) == digits_end(input@, end as int),
        decreases input@.len() - end,
    {
        end += 1;
    }
    end
}

/// Runs over the blanks from `pos` on.
fn scan_blanks(input: &[char], pos: usize) -> (end: usize)
    requires
        pos <= input@.len(),
    ensures
        end == blanks_end(input@, pos as int),
        pos <= end <= input@.len(),
{
    let mut end = pos;
    while end < input.len() && is_blank(input[end])
        invariant
            pos <= end <= input@.len(),
            blanks_end(input@, pos as int) == blanks_end(input@, end as int),
        decreases input@.len() - end,
    {
        end += 1;
    }
    end
}

/// Runs to the end of the line that `pos` is on.
fn scan_line(input: &[char], pos: usize) -> (end: usize)
    requires
        pos <= input@.len(),
    ensures
        end == line_end(input@, pos as int),
        pos <= end <= input@.len(),
{
    let mut end = pos;
    while end < input.len() && !is_line_break(input[end])
        invariant
            pos <= end <= input@.len(),
            line_end(input@, pos as int) == line_end(input@, end as int),
        decreases input@.len() - end,
    {
        end += 1;
    }
    end
}

/// Runs over the blanks and line breaks from `pos` on.
fn scan_spaces(input: &[char], pos: usize) -> (end: usize)
    requires
        pos <= input@.len(),
    ensures
        end == spaces_end(input@, pos as int),
        pos <= end <= input@.len(),
{
    let mut end = pos;
    while end < input.len() && (is_blank(input[end]) || is_line_break(input[end]))
        invariant
            pos <= end <= input@.len(),
            spaces_end(input@, pos as int) == spaces_end(input@, end as int),
        decreases input@.len() - end,
    {
        end += 1;
    }
    end
}

/// The length of the newline at `pos`, zero where there is none.
fn newline_at(input: &[char], pos: usize) -> (len: usize)
    requires
        pos <= input@.len(),
    ensures
        len == newline_len(input@, pos as int),
        pos + len <= input@.len(),
        pos + len <= usize::MAX,
{
    if has_char_at(input, pos, '\n') {
        1
    } else if has_char_at(input, pos, '\r') {
        if has_char_at(input, pos + 1, '\n') {
            2
        } else {
            1
        }
    } else {
        0
    }
}

/// A pair without parts for `input[start..end]`.
fn leaf_pair(rule: Rule, input: &[char], start: usize, end: usize) -> (pair: Pair)
    requires
        start <= end <= input@.len(),
    ensures
        pair@ == leaf(rule, input@, start as int, end as int),
{
    let pair = Pair { rule, text: string_of(input, start, end), inner: Vec::new() };
    assert(pair@.inner =~= Seq::empty());
    pair
}

/// Matches `width` digits at `pos`.
fn match_digit_field(rule: Rule, width: usize, input: &[char], pos: usize) -> (step: Step)
    requires
        pos <= input@.len(),
    ensures
        agrees(step, digit_field(rule, width as int, input@, pos as int), pos, input@.len()),
{
    let mut end = pos;
    while end - pos < width
        invariant
            pos <= end <= input@.len(),
            end - pos <= width,
            forall|i: int| pos <= i < end ==> has_digit(input@, i),
        decreases width - (end - pos),
    {
        if end >= input.len() || !is_digit(input[end]) {
            assert(!has_digit(input@, end as int));
            return Err(ParseError { rule, position: pos });
        }
        end += 1;
    }
    Ok((leaf_pair(rule, input, pos, end), end))
}

/// Matches an index at `pos`.
fn match_index(input: &[char], pos: usize) -> (step: Step)
    requires
        pos <= input@.len(),
    ensures
        agrees(step, index(input@, pos as int), pos, input@.len()),
{
    let end = scan_digits(input, pos);
    if pos < end {
        Ok((leaf_pair(Rule::index, input, pos, end), end))
    } else {
        Err(ParseError { rule: Rule::index, position: pos })
    }
}

/// Matches a timestamp at `pos`.
fn match_timestamp(input: &[char], pos: usize) -> (step: Step)
    requires
        pos <= input@.len(),
    ensures
        agrees(step, timestamp(input@, pos as int), pos, input@.len()),
{
    let (h, at) = match_digit_field(Rule::hours, 2, input, pos)?;
    if !has_char_at(input, at, ':') {
        return Err(ParseError { rule: Rule::timestamp, position: at });
    }
    let (m, at) = match_digit_field(Rule::minutes, 2, input, at + 1)?;
    if !has_char_at(input, at, ':') {
        return Err(ParseError { rule: Rule::timestamp, position: at });
    }
    let (sec, at) = match_digit_field(Rule::seconds, 2, input, at + 1)?;
    if !has_char_at(input, at, ',') {
        return Err(ParseError { rule: Rule::timestamp, position: at });
    }
    let (ms, end) = match_digit_field(Rule::milliseconds, 3, input, at + 1)?;
    let ghost parts = seq![h@, m@, sec@, ms@];
    let mut inner: Vec<Pair> = Vec::new();
    inner.push(h);
    inner.push(m);
    inner.push(sec);
    inner.push(ms);
    let pair = Pair { rule: Rule::timestamp, text: string_of(input, pos, end), inner };
    assert(pair@.inner =~= parts);
    Ok((pair, end))
}

/// Matches a timecode at `pos`.
fn match_timecode(input: &[char], pos: usize) -> (step: Step)
    requires
        pos <= input@.len(),
    ensures
        agrees(step, timecode(input@, pos as int), pos, input@.len()),
{
    let (start, at) = match_timestamp(input, pos)?;
    let arrow = scan_blanks(input, at);
    if !(has_char_at(input, arrow, '-') && has_char_at(input, arrow + 1, '-') && has_char_at(
        input,
        arrow + 2,
        '>',
    )) {
        return Err(ParseError { rule: Rule::timecode, position: arrow });
    }
    let second = scan_blanks(input, arrow + 3);
    let (end_stamp, end) = match_timestamp(input, second)?;
    let ghost parts = seq![start@, end_stamp@];
    let mut inner: Vec<Pair> = Vec::new();
    inner.push(start);
    inner.push(end_stamp);
    let pair = Pair { rule: Rule::timecode, text: string_of(input, pos, end), inner };
    assert(pair@.inner =~= parts);
    Ok((pair, end))
}

/// The fragments that a sequence of pairs stands for.
pub open spec fn fragments(pairs: Seq<Pair>) -> Seq<Fragment> {
    Seq::new(pairs.len(), |i: int| pairs[i]@)
}

/// A pair for `input[start..end]` with `inner` as its parts.
fn node_pair(rule: Rule, input: &[char], start: usize, end: usize, inner: Vec<Pair>) -> (pair:
    Pair)
    requires
        start <= end <= input@.len(),
    ensures
        pair@ == (Fragment {
            rule,
            text: input@.subrange(start as int, end as int),
            inner: fragments(inner@),
        }),
{
    let pair = Pair { rule, text: string_of(input, start, end), inner };
    assert(pair@.inner =~= fragments(pair.inner@));
    pair
}

/// Matches a text line at `pos`.
fn match_text_line(input: &[char], pos: usize) -> (step: Step)
    requires
        pos <= input@.len(),
    ensures
        agrees(step, text_line(input@, pos as int), pos, input@.len()),
{
    let end = scan_line(input, pos);
    if pos < end {
        Ok((leaf_pair(Rule::text_line, input, pos, end), end))
    } else {
        Err(ParseError { rule: Rule::text_line, position: pos })
    }
}

/// Matches a text content at `pos`, line by line.
fn match_text_content(input: &[char], pos: usize) -> (step: Step)
    requires
        pos <= input@.len(),
    ensures
        agrees(step, text_content(input@, pos as int), pos, input@.len()),
{
    let first_end = scan_line(input, pos);
    if first_end == pos {
        return Err(ParseError { rule: Rule::text_line, position: pos });
    }
    let mut lines: Vec<Pair> = Vec::new();
    let mut start = pos;
    let mut end = first_end;
    loop
        invariant_except_break
            content_end(input@, pos as int) == content_end(input@, start as int),
            content_lines(input@, pos as int) =~= fragments(lines@) + content_lines(
                input@,
                start as int,
            ),
        invariant
            pos <= start < end <= input@.len(),
            end == line_end(input@, start as int),
        ensures
            end == content_end(input@, pos as int),
            content_lines(input@, pos as int) =~= fragments(lines@),
        decreases input@.len() - start,
    {
        let ghost done = fragments(lines@);
        let line = leaf_pair(Rule::text_line, input, start, end);
        lines.push(line);
        assert(fragments(lines@) =~= done.push(leaf(Rule::text_line, input@, start as int, end as int)));
        let next = end + newline_at(input, end);
        let next_end = scan_line(input, next);
        if next == end || next_end == next {
            assert(next_line(input@, start as int) is None);
            break ;
        }
        assert(next_line(input@, start as int) == Some(next as int));
        start = next;
        end = next_end;
    }
    Ok((node_pair(Rule::text_content, input, pos, end, lines), end))
}

/// Matches a block at `pos`. A block that matches is not empty.
fn match_subtitle_block(input: &[char], pos: usize) -> (step: Step)
    requires
        pos <= input@.len(),
    ensures
        agrees(step, subtitle_block(input@, pos as int), pos, input@.len()),
        step matches Ok((_, end)) ==> pos < end,
{
    let (number, at) = match_index(input, pos)?;
    let newline = newline_at(input, at);
    if newline == 0 {
        return Err(ParseError { rule: Rule::subtitle_block, position: at });
    }
    let (code, at) = match_timecode(input, at + newline)?;
    let newline = newline_at(input, at);
    if newline == 0 {
        return Err(ParseError { rule: Rule::subtitle_block, position: at });
    }
    let (content, at) = match_text_content(input, at + newline)?;
    let newline = newline_at(input, at);
    if newline == 0 {
        return Err(ParseError { rule: Rule::subtitle_block, position: at });
    }
    let at = at + newline;
    let newline = newline_at(input, at);
    if newline == 0 {
        return Err(ParseError { rule: Rule::subtitle_block, position: at });
    }
    let end = at + newline;
    let ghost parts = seq![number@, code@, content@];
    let mut inner: Vec<Pair> = Vec::new();
    inner.push(number);
    inner.push(code);
    inner.push(content);
    let pair = Pair { rule: Rule::subtitle_block, text: string_of(input, pos, end), inner };
    assert(pair@.inner =~= parts);
    Ok((pair, end))
}

/// Matches the end of the input at `pos`.
fn match_end_of_input(input: &[char], pos: usize) -> (step: Step)
    requires
        pos <= input@.len(),
    ensures
        agrees(step, end_of_input(input@, pos as int), pos, input@.len()),
{
    if pos == input.len() {
        Ok((leaf_pair(Rule::EOI, input, pos, pos), pos))
    } else {
        Err(ParseError { rule: Rule::EOI, position: pos })
    }
}

/// Matches a whole file: blocks as long as they match, white space, and
/// the end of the input.
fn match_subtitle_file(input: &[char]) -> (step: Step)
    ensures
        agrees(step, subtitle_file(input@), 0, input@.len()),
{
    let mut inner: Vec<Pair> = Vec::new();
    let mut pos: usize = 0;
    let mut stopped = ParseError { rule: Rule::subtitle_block, position: 0 };
    loop
        invariant_except_break
            blocks_end(input@, 0) == blocks_end(input@, pos as int),
            blocks(input@, 0) =~= fragments(inner@) + blocks(input@, pos as int),
        invariant
            pos <= input@.len(),
        ensures
            pos == blocks_end(input@, 0),
            blocks(input@, 0) =~= fragments(inner@),
            subtitle_block(input@, pos as int) == (Attempt::Failed {
                rule: stopped.rule,
                position: stopped.position as int,
            }),
        decreases input@.len() - pos,
    {
        match match_subtitle_block(input, pos) {
            Ok((block, end)) => {
                let ghost done = fragments(inner@);
                assert(next_block(input@, pos as int) == Some(end as int));
                inner.push(block);
                assert(fragments(inner@) =~= done.push(subtitle_block(input@, pos as int)->fragment));
                pos = end;
            },
            Err(e) => {
                assert(next_block(input@, pos as int) is None);
                stopped = e;
                break ;
            },
        }
    }
    let end = scan_spaces(input, pos);
    match match_end_of_input(input, end) {
        Ok((eoi, _)) => {
            let ghost done = fragments(inner@);
            inner.push(eoi);
            assert(fragments(inner@) =~= done.push(end_of_input(input@, end as int)->fragment));
            Ok((node_pair(Rule::subtitle_file, input, 0, end, inner), end))
        },
        Err(e) => {
            if stopped.position >= end {
                Err(stopped)
            } else {
                Err(e)
            }
        },
    }
}

/// Matches `rule` at the start of the input.
fn match_rule(rule: Rule, input: &[char]) -> (step: Step)
    ensures
        agrees(step, crate::grammar::parse(rule, input@), 0, input@.len()),
{
    match rule {
        Rule::index => match_index(input, 0),
        Rule::hours => match_digit_field(Rule::hours, 2, input, 0),
        Rule::minutes => match_digit_field(Rule::minutes, 2, input, 0),
        Rule::seconds => match_digit_field(Rule::seconds, 2, input, 0),
        Rule::milliseconds => match_digit_field(Rule::milliseconds, 3, input, 0),
        Rule::timestamp => match_timestamp(input, 0),
        Rule::timecode => match_timecode(input, 0),
        Rule::text_line => match_text_line(input, 0),
        Rule::text_content => match_text_content(input, 0),
        Rule::subtitle_block => match_subtitle_block(input, 0),
        Rule::subtitle_file => match_subtitle_file(input),
        Rule::EOI => match_end_of_input(input, 0),
    }
}

/// The parser for subtitle text. It holds no state.
#[derive(Debug, Clone, Copy)]
pub struct SrtSubtitleParser;

impl SrtSubtitleParser {
    /// What a call of [`SrtSubtitleParser::parse`] returns where the
    /// grammar's outcome is `attempt`.
    pub open spec fn reports(result: Result<Pair, ParseError>, attempt: Attempt) -> bool {
        match attempt {
            Attempt::Matched { fragment, end } => result is Ok && result->Ok_0@ == fragment,
            Attempt::Failed { rule, position } => {
                &&& result is Err
                &&& result->Err_0.rule == rule
                &&& result->Err_0.position == position
            },
        }
    }

    /// Tries `rule` at the start of `input`. The rule need not reach the end
    /// of the input, except for `subtitle_file` and `EOI`, which ask for it.
    pub fn parse(rule: Rule, input: &str) -> (result: Result<Pair, ParseError>)
        ensures
            Self::reports(result, crate::grammar::parse(rule, input@)),
    {
        let chars = to_chars(input);
        match match_rule(rule, chars.as_slice()) {
            Ok((pair, _)) => Ok(pair),
            Err(e) => Err(e),
        }
    }
}

} // verus!
