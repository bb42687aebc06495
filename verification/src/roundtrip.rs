//! Rendering and reading back: what the parser makes of text that this
//! library wrote.

use crate::bounds::{lemma_blanks_end_within, lemma_digits_end_within, lemma_timestamp_within};
use crate::decimal::{
    decimal_digits, is_digit, lemma_decimal_digits_shape, lemma_padded_decimal,
    lemma_parsed_decimal_digits, lemma_short_numeral, padded_decimal, parsed_u32,
};
use crate::error::SrtErrorView;
use crate::grammar::{
    blanks_end, blocks, blocks_end, content_end, content_lines, digit_field, digits_end,
    end_of_input, has_arrow, has_blank, has_digit, has_line_char, index, is_line_break, leaf,
    line_end, newline_len, next_block, next_line, spaces_end, subtitle_block, subtitle_file,
    text_content, text_line, timecode, timestamp, Attempt, Fragment, Rule,
};
use crate::mapper::{
    join_lines, parsed_srt, subtitle_of, subtitles_of, text_of, texts, timestamp_at,
    timestamp_of,
};
use crate::subtitle::{arrow, is_block_text, rendered_file, SubtitleView};
use crate::timestamp::Timestamp;
use vstd::prelude::*;

verus! {

/// A run of digits ends where the first character that is no digit stands.
pub proof fn lemma_digits_end_at(s: Seq<char>, pos: int, end: int)
    requires
        0 <= pos <= end <= s.len(),
        forall|i: int| pos <= i < end ==> has_digit(s, i),
        !has_digit(s, end),
    ensures
        digits_end(s, pos) == end,
    decreases end - pos,
{
    if pos < end {
        lemma_digits_end_at(s, pos + 1, end);
    }
}

/// Between a position and the end of its line there is no line break, and
/// the line ends at one or at the end of the input.
pub proof fn lemma_line_end(s: Seq<char>, pos: int)
    requires
        0 <= pos <= s.len(),
    ensures
        pos <= line_end(s, pos) <= s.len(),
        forall|i: int| pos <= i < line_end(s, pos) ==> has_line_char(s, i),
        !has_line_char(s, line_end(s, pos)),
    decreases s.len() - pos,
{
    if has_line_char(s, pos) {
        lemma_line_end(s, pos + 1);
    }
}

/// A field that holds a padded numeral of its own width matches, and reads
/// as the number.
pub proof fn lemma_digit_field_at(rule: Rule, width: int, s: Seq<char>, pos: int, n: u32)
    requires
        0 <= pos,
        0 < width,
        pos + width <= s.len(),
        s.subrange(pos, pos + width) == padded_decimal(n as nat, width as nat),
    ensures
        digit_field(rule, width, s, pos) == (Attempt::Matched {
            fragment: Fragment {
                rule,
                text: padded_decimal(n as nat, width as nat),
                inner: Seq::empty(),
            },
            end: pos + width,
        }),
        parsed_u32(padded_decimal(n as nat, width as nat)) == Some(n),
{
    let field = s.subrange(pos, pos + width);
    lemma_padded_decimal(n as nat, width as nat);
    assert forall|i: int| pos <= i < pos + width implies has_digit(s, i) by {
        assert(is_digit(field[i - pos]));
    }
}

/// Where the input holds two strings one after the other, it holds each of
/// them.
pub proof fn lemma_split_at(s: Seq<char>, pos: int, first: Seq<char>, second: Seq<char>)
    requires
        0 <= pos,
        pos + first.len() + second.len() <= s.len(),
        s.subrange(pos, pos + first.len() + second.len()) == first + second,
    ensures
        s.subrange(pos, pos + first.len()) == first,
        s.subrange(pos + first.len(), pos + first.len() + second.len()) == second,
{
    let whole = s.subrange(pos, pos + first.len() + second.len());
    assert(s.subrange(pos, pos + first.len()) =~= whole.subrange(0, first.len() as int));
    assert(whole.subrange(0, first.len() as int) =~= first);
    assert(s.subrange(pos + first.len(), pos + first.len() + second.len()) =~= whole.subrange(
        first.len() as int,
        whole.len() as int,
    ));
    assert(whole.subrange(first.len() as int, whole.len() as int) =~= second);
}

/// Where the input holds a string of one character, it holds the character.
pub proof fn lemma_char_at(s: Seq<char>, pos: int, c: char)
    requires
        0 <= pos < s.len(),
        s.subrange(pos, pos + 1) == seq![c],
    ensures
        s[pos] == c,
{
    assert(s.subrange(pos, pos + 1)[0] == s[pos]);
}

/// The fields of a rendered timestamp are as wide as the format says, where
/// the timestamp fits the format.
pub proof fn lemma_rendered_widths(t: Timestamp)
    requires
        t.fits_format(),
    ensures
        padded_decimal(t.hours as nat, 2).len() == 2,
        padded_decimal(t.minutes as nat, 2).len() == 2,
        padded_decimal(t.seconds as nat, 2).len() == 2,
        padded_decimal(t.milliseconds as nat, 3).len() == 3,
        t.rendered().len() == 12,
{
    lemma_padded_decimal(t.hours as nat, 2);
    lemma_padded_decimal(t.minutes as nat, 2);
    lemma_padded_decimal(t.seconds as nat, 2);
    lemma_padded_decimal(t.milliseconds as nat, 3);
    lemma_decimal_digits_shape(t.hours as nat);
    lemma_decimal_digits_shape(t.minutes as nat);
    lemma_decimal_digits_shape(t.seconds as nat);
    lemma_decimal_digits_shape(t.milliseconds as nat);
}

/// Where the input holds a rendered timestamp, it holds the four fields and
/// the three separators at their places.
pub proof fn lemma_timestamp_in_input(s: Seq<char>, pos: int, t: Timestamp)
    requires
        t.fits_format(),
        0 <= pos,
        pos + 12 <= s.len(),
        s.subrange(pos, pos + 12) == t.rendered(),
    ensures
        s.subrange(pos, pos + 2) == padded_decimal(t.hours as nat, 2),
        s[pos + 2] == ':',
        s.subrange(pos + 3, pos + 5) == padded_decimal(t.minutes as nat, 2),
        s[pos + 5] == ':',
        s.subrange(pos + 6, pos + 8) == padded_decimal(t.seconds as nat, 2),
        s[pos + 8] == ',',
        s.subrange(pos + 9, pos + 12) == padded_decimal(t.milliseconds as nat, 3),
{
    let h = padded_decimal(t.hours as nat, 2);
    let m = padded_decimal(t.minutes as nat, 2);
    let sec = padded_decimal(t.seconds as nat, 2);
    let ms = padded_decimal(t.milliseconds as nat, 3);
    lemma_rendered_widths(t);
    lemma_split_at(s, pos, h + seq![':'] + m + seq![':'] + sec + seq![','], ms);
    lemma_split_at(s, pos, h + seq![':'] + m + seq![':'] + sec, seq![',']);
    lemma_split_at(s, pos, h + seq![':'] + m + seq![':'], sec);
    lemma_split_at(s, pos, h + seq![':'] + m, seq![':']);
    lemma_split_at(s, pos, h + seq![':'], m);
    lemma_split_at(s, pos, h, seq![':']);
    lemma_char_at(s, pos + 2, ':');
    lemma_char_at(s, pos + 5, ':');
    lemma_char_at(s, pos + 8, ',');
}

/// Where the input holds a rendered timestamp, the grammar matches it and
/// the fragment reads as that timestamp.
pub proof fn lemma_timestamp_at(s: Seq<char>, pos: int, t: Timestamp)
    requires
        t.fits_format(),
        0 <= pos,
        pos + 12 <= s.len(),
        s.subrange(pos, pos + 12) == t.rendered(),
    ensures
        timestamp(s, pos) is Matched,
        timestamp(s, pos)->end == pos + 12,
        timestamp(s, pos)->fragment.text == t.rendered(),
        timestamp_of(timestamp(s, pos)->fragment) == Ok::<Timestamp, SrtErrorView>(t),
        has_digit(s, pos),
{
    lemma_timestamp_in_input(s, pos, t);
    lemma_digit_field_at(Rule::hours, 2, s, pos, t.hours);
    lemma_digit_field_at(Rule::minutes, 2, s, pos + 3, t.minutes);
    lemma_digit_field_at(Rule::seconds, 2, s, pos + 6, t.seconds);
    lemma_digit_field_at(Rule::milliseconds, 3, s, pos + 9, t.milliseconds);
    assert(has_digit(s, pos));
}

/// The timestamp law: a timestamp whose fields fit their widths, rendered
/// and read back, is the same timestamp.
pub proof fn lemma_timestamp_round_trip(t: Timestamp)
    requires
        t.fits_format(),
    ensures
        timestamp(t.rendered(), 0) is Matched,
        timestamp(t.rendered(), 0)->end == t.rendered().len(),
        timestamp_of(timestamp(t.rendered(), 0)->fragment) == Ok::<Timestamp, SrtErrorView>(t),
{
    lemma_rendered_widths(t);
    assert(t.rendered().subrange(0, 12) =~= t.rendered());
    lemma_timestamp_at(t.rendered(), 0, t);
}

/// Where the input holds the arrow, with one blank on each side, and no
/// blank after it, the blanks around the arrow end where the arrow and what
/// follows it start.
pub proof fn lemma_arrow_at(s: Seq<char>, pos: int)
    requires
        0 <= pos,
        pos + 5 < s.len(),
        s.subrange(pos, pos + 5) == arrow(),
        !has_blank(s, pos + 5),
    ensures
        blanks_end(s, pos) == pos + 1,
        has_arrow(s, pos + 1),
        blanks_end(s, pos + 4) == pos + 5,
{
    let part = s.subrange(pos, pos + 5);
    assert(part[0] == s[pos]);
    assert(part[1] == s[pos + 1]);
    assert(part[2] == s[pos + 2]);
    assert(part[3] == s[pos + 3]);
    assert(part[4] == s[pos + 4]);
    reveal_with_fuel(blanks_end, 2);
}

/// Where the input holds two rendered timestamps with the arrow between
/// them, the grammar matches a timecode and its parts read as the two
/// timestamps.
pub proof fn lemma_timecode_at(s: Seq<char>, pos: int, start: Timestamp, end: Timestamp)
    requires
        start.fits_format(),
        end.fits_format(),
        0 <= pos,
        pos + 29 <= s.len(),
        s.subrange(pos, pos + 12) == start.rendered(),
        s.subrange(pos + 12, pos + 17) == arrow(),
        s.subrange(pos + 17, pos + 29) == end.rendered(),
    ensures
        timecode(s, pos) is Matched,
        timecode(s, pos)->end == pos + 29,
        timestamp_at(timecode(s, pos)->fragment, 0, "start timestamp"@) == Ok::<
            Timestamp,
            SrtErrorView,
        >(start),
        timestamp_at(timecode(s, pos)->fragment, 1, "end timestamp"@) == Ok::<
            Timestamp,
            SrtErrorView,
        >(end),
{
    lemma_timestamp_at(s, pos, start);
    lemma_timestamp_at(s, pos + 17, end);
    lemma_arrow_at(s, pos + 12);
}

/// Where the input holds text made of lines, a line feed after each but the
/// last and an empty line after the last, the text content that starts with
/// one of these lines ends with the last, and its lines joined are the text
/// from there on.
pub proof fn lemma_content_at(s: Seq<char>, start: int, end: int)
    requires
        0 <= start < end,
        end + 1 < s.len(),
        s[start] != '\n',
        s[end - 1] != '\n',
        forall|i: int| start <= i < end ==> #[trigger] s[i] != '\r',
        forall|i: int| start <= i < end - 1 ==> !(#[trigger] s[i] == '\n' && s[i + 1] == '\n'),
        s[end] == '\n',
        s[end + 1] == '\n',
    ensures
        text_line(s, start) is Matched,
        content_end(s, start) == end,
        join_lines(texts(content_lines(s, start))) == s.subrange(start, end),
    decreases end - start,
{
    let stop = line_end(s, start);
    lemma_line_end(s, start);
    assert(has_line_char(s, start));
    assert(stop <= end) by {
        if stop > end {
            assert(has_line_char(s, end));
        }
    }
    let line = leaf(Rule::text_line, s, start, stop);
    if stop == end {
        assert(line_end(s, end + 1) == end + 1);
        assert(next_line(s, start) is None);
        assert(texts(content_lines(s, start)) =~= seq![s.subrange(start, end)]);
    } else {
        assert(s[stop] == '\n');
        let next = stop + 1;
        assert(stop != end - 1);
        assert(s[next] != '\n');
        assert(has_line_char(s, next));
        lemma_line_end(s, next + 1);
        assert(newline_len(s, stop) == 1);
        assert(next_line(s, start) == Some(next));
        lemma_content_at(s, next, end);
        let lines = texts(content_lines(s, start));
        let rest = texts(content_lines(s, next));
        lemma_content_lines_nonempty(s, next);
        assert(lines =~= seq![s.subrange(start, stop)] + rest);
        assert(lines.skip(1) =~= rest);
        assert(join_lines(lines) == lines[0] + seq!['\n'] + join_lines(lines.skip(1)));
        assert(join_lines(lines) =~= s.subrange(start, end));
    }
}

/// A text content has at least one line.
pub proof fn lemma_content_lines_nonempty(s: Seq<char>, pos: int)
    ensures
        content_lines(s, pos).len() >= 1,
        content_lines(s, pos)[0] == leaf(Rule::text_line, s, pos, line_end(s, pos)),
{
}

/// The text of a text content that the grammar matched is made of lines:
/// each holds a character and none holds a line break.
pub proof fn lemma_content_is_block_text(s: Seq<char>, pos: int)
    requires
        0 <= pos,
        text_line(s, pos) is Matched,
    ensures
        is_block_text(join_lines(texts(content_lines(s, pos)))),
    decreases s.len() - pos,
{
    let stop = line_end(s, pos);
    lemma_line_end(s, pos);
    let first = s.subrange(pos, stop);
    let lines = texts(content_lines(s, pos));
    assert forall|i: int| 0 <= i < first.len() implies !is_line_break(#[trigger] first[i]) by {
        assert(has_line_char(s, pos + i));
    }
    match next_line(s, pos) {
        None => {
            assert(lines =~= seq![first]);
        },
        Some(next) => {
            lemma_line_end(s, next);
            lemma_content_is_block_text(s, next);
            lemma_content_lines_nonempty(s, next);
            let rest = texts(content_lines(s, next));
            let tail = join_lines(rest);
            assert(lines =~= seq![first] + rest);
            assert(lines.skip(1) =~= rest);
            let head = first + seq!['\n'];
            let text = head + tail;
            assert(join_lines(lines) == text);
            assert forall|i: int| 0 <= i < text.len() implies #[trigger] text[i] != '\r' by {
                if i < first.len() {
                    assert(text[i] == first[i]);
                } else if i >= head.len() {
                    assert(text[i] == tail[i - head.len()]);
                }
            }
            assert forall|i: int| 0 <= i < text.len() - 1 implies !(#[trigger] text[i] == '\n'
                && text[i + 1] == '\n') by {
                if i < first.len() {
                    assert(text[i] == first[i]);
                } else if i == first.len() {
                    assert(text[i + 1] == tail[0]);
                } else {
                    assert(text[i] == tail[i - head.len()]);
                    assert(text[i + 1] == tail[i + 1 - head.len()]);
                }
            }
            assert(text[0] == first[0]);
            assert(text.last() == tail.last());
        },
    }
}

/// Where the input holds a rendered entry, it holds the parts of the entry
/// at the places that the layout gives.
pub proof fn lemma_entry_in_input(s: Seq<char>, pos: int, e: SubtitleView)
    requires
        e.is_canonical(),
        0 <= pos,
        pos + e.rendered().len() <= s.len(),
        s.subrange(pos, pos + e.rendered().len()) == e.rendered(),
    ensures
        ({
            let d = decimal_digits(e.index as nat).len() as int;
            let t = e.text.len() as int;
            &&& d >= 1
            &&& t >= 1
            &&& e.rendered().len() == d + t + 33
            &&& s.subrange(pos, pos + d) == decimal_digits(e.index as nat)
            &&& s[pos + d] == '\n'
            &&& s.subrange(pos + d + 1, pos + d + 13) == e.start.rendered()
            &&& s.subrange(pos + d + 13, pos + d + 18) == arrow()
            &&& s.subrange(pos + d + 18, pos + d + 30) == e.end.rendered()
            &&& s[pos + d + 30] == '\n'
            &&& s.subrange(pos + d + 31, pos + d + 31 + t) == e.text
            &&& s[pos + d + 31 + t] == '\n'
            &&& s[pos + d + 32 + t] == '\n'
        }),
{
    let digits = decimal_digits(e.index as nat);
    let feed = seq!['\n'];
    let from = e.start.rendered();
    let to = e.end.rendered();
    let d = digits.len() as int;
    let t = e.text.len() as int;
    lemma_decimal_digits_shape(e.index as nat);
    lemma_rendered_widths(e.start);
    lemma_rendered_widths(e.end);
    lemma_split_at(
        s,
        pos,
        digits + feed + from + arrow() + to + feed + e.text,
        seq!['\n', '\n'],
    );
    lemma_split_at(s, pos, digits + feed + from + arrow() + to + feed, e.text);
    lemma_split_at(s, pos, digits + feed + from + arrow() + to, feed);
    lemma_split_at(s, pos, digits + feed + from + arrow(), to);
    lemma_split_at(s, pos, digits + feed + from, arrow());
    lemma_split_at(s, pos, digits + feed, from);
    lemma_split_at(s, pos, digits, feed);
    lemma_char_at(s, pos + d, '\n');
    lemma_char_at(s, pos + d + 30, '\n');
    let tail = s.subrange(pos + d + 31 + t, pos + d + 33 + t);
    assert(tail[0] == s[pos + d + 31 + t]);
    assert(tail[1] == s[pos + d + 32 + t]);
}

/// Where the input holds the numeral of an index and a line feed after it,
/// the grammar matches the numeral as the index, and it reads as the number.
pub proof fn lemma_index_at(s: Seq<char>, pos: int, n: u32)
    requires
        0 <= pos,
        pos + decimal_digits(n as nat).len() < s.len(),
        s.subrange(pos, pos + decimal_digits(n as nat).len()) == decimal_digits(n as nat),
        s[pos + decimal_digits(n as nat).len()] == '\n',
    ensures
        digits_end(s, pos) == pos + decimal_digits(n as nat).len(),
        index(s, pos) == (Attempt::Matched {
            fragment: Fragment {
                rule: Rule::index,
                text: decimal_digits(n as nat),
                inner: Seq::empty(),
            },
            end: pos + decimal_digits(n as nat).len(),
        }),
        parsed_u32(decimal_digits(n as nat)) == Some(n),
{
    let digits = decimal_digits(n as nat);
    let end = pos + digits.len();
    lemma_decimal_digits_shape(n as nat);
    lemma_parsed_decimal_digits(n);
    assert forall|i: int| pos <= i < end implies has_digit(s, i) by {
        assert(s.subrange(pos, end)[i - pos] == s[i]);
        assert(is_digit(digits[i - pos]));
    }
    lemma_digits_end_at(s, pos, end);
}

/// Where the input holds text made of lines and an empty line after it, the
/// grammar matches the text as text content, and it reads as the text.
pub proof fn lemma_text_content_at(s: Seq<char>, start: int, text: Seq<char>)
    requires
        is_block_text(text),
        0 <= start,
        start + text.len() + 1 < s.len(),
        s.subrange(start, start + text.len()) == text,
        s[start + text.len()] == '\n',
        s[start + text.len() + 1] == '\n',
    ensures
        text_content(s, start) is Matched,
        text_content(s, start)->end == start + text.len(),
        text_of(text_content(s, start)->fragment) == text,
{
    let end = start + text.len();
    assert forall|i: int| start <= i < end implies s[i] == #[trigger] text[i - start] by {
        assert(s.subrange(start, end)[i - start] == s[i]);
    }
    assert forall|i: int| start <= i < end implies #[trigger] s[i] != '\r' by {
        assert(s[i] == text[i - start]);
    }
    assert forall|i: int| start <= i < end - 1 implies !(#[trigger] s[i] == '\n' && s[i + 1]
        == '\n') by {
        assert(s[i] == text[i - start]);
        assert(s[i + 1] == text[i + 1 - start]);
    }
    assert(s[start] == text[0]);
    assert(s[end - 1] == text[text.len() - 1]);
    lemma_content_at(s, start, end);
}

/// Where the input holds a rendered entry, the grammar matches a block that
/// ends where the entry ends, and the block reads as the entry.
pub proof fn lemma_block_at(s: Seq<char>, pos: int, e: SubtitleView)
    requires
        e.is_canonical(),
        0 <= pos,
        pos + e.rendered().len() <= s.len(),
        s.subrange(pos, pos + e.rendered().len()) == e.rendered(),
    ensures
        subtitle_block(s, pos) is Matched,
        subtitle_block(s, pos)->end == pos + e.rendered().len(),
        subtitle_block(s, pos)->fragment.rule == Rule::subtitle_block,
        subtitle_of(subtitle_block(s, pos)->fragment) == Ok::<SubtitleView, SrtErrorView>(e),
        e.rendered().len() > 0,
{
    let d = decimal_digits(e.index as nat).len() as int;
    let t = e.text.len() as int;
    let code = pos + d + 1;
    let first = pos + d + 31;
    let last = first + t;
    lemma_entry_in_input(s, pos, e);
    lemma_index_at(s, pos, e.index);
    assert(newline_len(s, pos + d) == 1);
    lemma_timecode_at(s, code, e.start, e.end);
    assert(newline_len(s, code + 29) == 1);
    lemma_text_content_at(s, first, e.text);
    assert(newline_len(s, last) == 1);
    assert(newline_len(s, last + 1) == 1);
    let block = subtitle_block(s, pos);
    assert(block is Matched);
    assert(block->fragment.inner =~= seq![
        index(s, pos)->fragment,
        timecode(s, code)->fragment,
        text_content(s, first)->fragment,
    ]);
}

/// A field that the grammar matched reads as a number that fits its width.
pub proof fn lemma_digit_field_value(rule: Rule, width: int, s: Seq<char>, pos: int)
    requires
        0 <= pos,
        1 <= width <= 3,
        digit_field(rule, width, s, pos) is Matched,
    ensures
        parsed_u32(digit_field(rule, width, s, pos)->fragment.text) is Some,
        parsed_u32(digit_field(rule, width, s, pos)->fragment.text)->0 <= 999,
        width <= 2 ==> parsed_u32(digit_field(rule, width, s, pos)->fragment.text)->0 <= 99,
{
    let text = s.subrange(pos, pos + width);
    assert(has_digit(s, pos + width - 1));
    assert forall|i: int| 0 <= i < text.len() implies is_digit(#[trigger] text[i]) by {
        assert(has_digit(s, pos + i));
    }
    lemma_short_numeral(text);
}

/// A timestamp that the grammar matched reads as a timestamp whose fields
/// fit their widths.
pub proof fn lemma_timestamp_fits(s: Seq<char>, pos: int)
    requires
        0 <= pos,
        timestamp(s, pos) is Matched,
    ensures
        timestamp_of(timestamp(s, pos)->fragment) is Ok,
        timestamp_of(timestamp(s, pos)->fragment)->Ok_0.fits_format(),
{
    lemma_digit_field_value(Rule::hours, 2, s, pos);
    lemma_digit_field_value(Rule::minutes, 2, s, pos + 3);
    lemma_digit_field_value(Rule::seconds, 2, s, pos + 6);
    lemma_digit_field_value(Rule::milliseconds, 3, s, pos + 9);
}

/// What a block that the grammar matched reads as: a canonical entry, or no
/// entry because its index does not fit 32 bits.
pub open spec fn is_block_reading(
    block: Fragment,
    reading: Result<SubtitleView, SrtErrorView>,
) -> bool {
    match reading {
        Ok(e) => e.is_canonical(),
        Err(error) => block.inner.len() > 0 && error == SrtErrorView::InvalidIndex(
            block.inner[0].text,
        ),
    }
}

/// A block that the grammar matched holds all its parts, and they are well
/// formed but for the size of the index.
pub proof fn lemma_block_reading(s: Seq<char>, pos: int)
    requires
        0 <= pos <= s.len(),
        subtitle_block(s, pos) is Matched,
    ensures
        subtitle_block(s, pos)->fragment.rule == Rule::subtitle_block,
        is_block_reading(
            subtitle_block(s, pos)->fragment,
            subtitle_of(subtitle_block(s, pos)->fragment),
        ),
{
    let block = subtitle_block(s, pos)->fragment;
    lemma_digits_end_within(s, pos);
    let first_break = digits_end(s, pos);
    let code_start = first_break + newline_len(s, first_break);
    let code = timecode(s, code_start);
    lemma_timestamp_within(s, code_start);
    lemma_timestamp_fits(s, code_start);
    let arrow = blanks_end(s, code_start + 12);
    lemma_blanks_end_within(s, code_start + 12);
    lemma_blanks_end_within(s, arrow + 3);
    let second = blanks_end(s, arrow + 3);
    lemma_timestamp_fits(s, second);
    let content_start = code->end + newline_len(s, code->end);
    lemma_content_is_block_text(s, content_start);
    assert(block.inner.len() == 3);
    assert(code->fragment.inner.len() == 2);
}

/// A fragment of another rule at the end does not change the subtitles of a
/// sequence of fragments.
pub proof fn lemma_subtitles_of_push_other(nodes: Seq<Fragment>, other: Fragment)
    requires
        other.rule != Rule::subtitle_block,
    ensures
        subtitles_of(nodes.push(other)) == subtitles_of(nodes),
    decreases nodes.len(),
{
    let all = nodes.push(other);
    if nodes.len() == 0 {
        assert(all.skip(1) =~= Seq::<Fragment>::empty());
        assert(subtitles_of(all.skip(1)) == Ok::<Seq<SubtitleView>, SrtErrorView>(Seq::empty()));
    } else {
        assert(all[0] == nodes[0]);
        assert(all.skip(1) =~= nodes.skip(1).push(other));
        lemma_subtitles_of_push_other(nodes.skip(1), other);
    }
}

/// Every entry of the collection is canonical.
pub open spec fn all_canonical(entries: Seq<SubtitleView>) -> bool {
    forall|i: int| 0 <= i < entries.len() ==> (#[trigger] entries[i]).is_canonical()
}

/// Where the rest of the input is a rendered collection, the blocks from
/// there on reach the end of the input and read as the collection.
pub proof fn lemma_blocks_at(s: Seq<char>, pos: int, entries: Seq<SubtitleView>)
    requires
        all_canonical(entries),
        0 <= pos <= s.len(),
        s.subrange(pos, s.len() as int) == rendered_file(entries),
    ensures
        blocks_end(s, pos) == s.len(),
        subtitles_of(blocks(s, pos)) == Ok::<Seq<SubtitleView>, SrtErrorView>(entries),
    decreases entries.len(),
{
    if entries.len() == 0 {
        assert(s.subrange(pos, s.len() as int).len() == 0);
        assert(!has_digit(s, pos));
        assert(next_block(s, pos) is None);
        assert(entries =~= Seq::empty());
    } else {
        let e = entries[0];
        let rest = entries.skip(1);
        let whole = rendered_file(entries);
        let next = pos + e.rendered().len();
        assert(whole == e.rendered() + rendered_file(rest));
        assert(s.subrange(pos, next) =~= whole.subrange(0, e.rendered().len() as int));
        assert(whole.subrange(0, e.rendered().len() as int) =~= e.rendered());
        assert(s.subrange(next, s.len() as int) =~= whole.subrange(
            e.rendered().len() as int,
            whole.len() as int,
        ));
        assert(whole.subrange(e.rendered().len() as int, whole.len() as int) =~= rendered_file(
            rest,
        ));
        lemma_block_at(s, pos, e);
        assert(next_block(s, pos) == Some(next));
        lemma_blocks_at(s, next, rest);
        let nodes = blocks(s, pos);
        assert(nodes[0] == subtitle_block(s, pos)->fragment);
        assert(nodes.skip(1) =~= blocks(s, next));
        assert(seq![e] + rest =~= entries);
    }
}

/// The reading law: a canonical collection, rendered and read back, is the
/// same collection.
pub proof fn lemma_render_then_parse(entries: Seq<SubtitleView>)
    requires
        all_canonical(entries),
    ensures
        parsed_srt(rendered_file(entries)) == Ok::<Seq<SubtitleView>, SrtErrorView>(entries),
{
    let s = rendered_file(entries);
    assert(s.subrange(0, s.len() as int) =~= s);
    lemma_blocks_at(s, 0, entries);
    assert(spaces_end(s, s.len() as int) == s.len());
    lemma_subtitles_of_push_other(blocks(s, 0), end_of_input(s, s.len() as int)->fragment);
}

/// What a run of blocks that the grammar matched reads as: canonical
/// entries, or nothing because an index does not fit 32 bits.
pub proof fn lemma_blocks_reading(s: Seq<char>, pos: int)
    requires
        0 <= pos <= s.len(),
    ensures
        match subtitles_of(blocks(s, pos)) {
            Ok(entries) => all_canonical(entries),
            Err(error) => error is InvalidIndex,
        },
    decreases s.len() - pos,
{
    match next_block(s, pos) {
        None => {},
        Some(next) => {
            let nodes = blocks(s, pos);
            lemma_block_reading(s, pos);
            lemma_blocks_reading(s, next);
            assert(nodes[0] == subtitle_block(s, pos)->fragment);
            assert(nodes.skip(1) =~= blocks(s, next));
        },
    }
}

/// Reading subtitle text gives canonical entries. Where it gives none, the
/// text does not match the grammar or an index does not fit 32 bits: a tree
/// that the grammar built lacks no part.
pub proof fn lemma_parsed_is_canonical(s: Seq<char>)
    ensures
        match parsed_srt(s) {
            Ok(entries) => all_canonical(entries),
            Err(error) => error is ParseError || error is InvalidIndex,
        },
{
    if subtitle_file(s) is Matched {
        let end = spaces_end(s, blocks_end(s, 0));
        lemma_blocks_reading(s, 0);
        lemma_subtitles_of_push_other(blocks(s, 0), end_of_input(s, end)->fragment);
    }
}

/// The round-trip law: text that reads as a collection, rendered from that
/// collection and read again, gives the same collection.
pub proof fn lemma_parse_render_parse(s: Seq<char>)
    requires
        parsed_srt(s) is Ok,
    ensures
        parsed_srt(rendered_file(parsed_srt(s)->Ok_0)) == parsed_srt(s),
{
    lemma_parsed_is_canonical(s);
    lemma_render_then_parse(parsed_srt(s)->Ok_0);
}

} // verus!
