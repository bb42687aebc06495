//! Subtitle entries and collections of them.

use crate::decimal::{decimal_digits, push_padded};
use crate::timestamp::{lemma_shift_twice, lemma_shift_zero, Timestamp};
use vstd::prelude::*;

verus! {

/// One subtitle entry.
#[derive(Debug, Clone, PartialEq, Eq)]
pub struct Subtitle {
    pub index: u32,
    pub start: Timestamp,
    pub end: Timestamp,
    pub text: String,
}

/// A [`Subtitle`] with its text as a character sequence.
pub struct SubtitleView {
    pub index: u32,
    pub start: Timestamp,
    pub end: Timestamp,
    pub text: Seq<char>,
}

impl View for Subtitle {
    type V = SubtitleView;

    open spec fn view(&self) -> SubtitleView {
        SubtitleView { index: self.index, start: self.start, end: self.end, text: self.text@ }
    }
}

/// A whole subtitle file: its entries in file order.
#[derive(Debug, Clone, PartialEq, Eq)]
pub struct SubtitleFile {
    pub subtitles: Vec<Subtitle>,
}

impl View for SubtitleFile {
    type V = Seq<SubtitleView>;

    open spec fn view(&self) -> Seq<SubtitleView> {
        self.subtitles@.map_values(|s: Subtitle| s@)
    }
}

/// What stands between the two timestamps of a rendered entry.
pub open spec fn arrow() -> Seq<char> {
    seq![' ', '-', '-', '>', ' ']
}

/// The text is one or more lines that each hold a character, with one line
/// feed between neighbours and no carriage return anywhere.
pub open spec fn is_block_text(text: Seq<char>) -> bool {
    &&& text.len() > 0
    &&& text[0] != '\n'
    &&& text.last() != '\n'
    &&& forall|i: int| 0 <= i < text.len() ==> #[trigger] text[i] != '\r'
    &&& forall|i: int|
        0 <= i < text.len() - 1 ==> !(#[trigger] text[i] == '\n' && text[i + 1] == '\n')
}

impl SubtitleView {
    /// The entry is one that reading subtitle text can give: its timestamps
    /// fit the widths of their fields and its text is made of lines.
    pub open spec fn is_canonical(self) -> bool {
        &&& self.start.fits_format()
        &&& self.end.fits_format()
        &&& is_block_text(self.text)
    }

    /// The entry as text: the index, the two timestamps with an arrow
    /// between them, the text, and an empty line.
    pub open spec fn rendered(self) -> Seq<char> {
        decimal_digits(self.index as nat) + seq!['\n'] + self.start.rendered() + arrow()
            + self.end.rendered() + seq!['\n'] + self.text + seq!['\n', '\n']
    }

    /// The entry with both timestamps moved by `offset` milliseconds.
    pub open spec fn shifted(self, offset: int) -> SubtitleView {
        SubtitleView {
            index: self.index,
            start: self.start.shifted(offset),
            end: self.end.shifted(offset),
            text: self.text,
        }
    }
}

/// The entries as text, one after the other.
pub open spec fn rendered_file(entries: Seq<SubtitleView>) -> Seq<char>
    decreases entries.len(),
{
    if entries.len() == 0 {
        Seq::empty()
    } else {
        entries[0].rendered() + rendered_file(entries.skip(1))
    }
}

/// The entries, each with both timestamps moved by `offset` milliseconds.
pub open spec fn shifted_file(entries: Seq<SubtitleView>, offset: int) -> Seq<SubtitleView> {
    Seq::new(entries.len(), |i: int| entries[i].shifted(offset))
}

fn push_arrow(out: &mut String)
    ensures
        final(out)@ == old(out)@ + arrow(),
{
    out.push(' ');
    out.push('-');
    out.push('-');
    out.push('>');
    out.push(' ');
    assert(out@ =~= old(out)@ + arrow());
}

fn push_line_feed(out: &mut String)
    ensures
        final(out)@ == old(out)@ + seq!['\n'],
{
    out.push('\n');
    assert(out@ =~= old(out)@ + seq!['\n']);
}

fn push_empty_line(out: &mut String)
    ensures
        final(out)@ == old(out)@ + seq!['\n', '\n'],
{
    out.push('\n');
    out.push('\n');
    assert(out@ =~= old(out)@ + seq!['\n', '\n']);
}

impl Subtitle {
    /// Appends the entry as text to `out`.
    pub fn render_into(&self, out: &mut String)
        ensures
            final(out)@ == old(out)@ + self@.rendered(),
    {
        push_padded(out, self.index, 0);
        push_line_feed(out);
        self.start.render_into(out);
        push_arrow(out);
        self.end.render_into(out);
        push_line_feed(out);
        out.append(self.text.as_str());
        push_empty_line(out);
        assert(out@ =~= old(out)@ + self@.rendered());
    }
}

impl SubtitleFile {
    /// Converts the collection back to subtitle text.
    pub fn to_srt(&self) -> (text: String)
        ensures
            text@ == rendered_file(self@),
    {
        let mut text = String::new();
        let n = self.subtitles.len();
        let mut i: usize = 0;
        assert(self@.skip(0) =~= self@);
        while i < n
            invariant
                i <= n,
                n == self.subtitles@.len(),
                rendered_file(self@) == text@ + rendered_file(self@.skip(i as int)),
            decreases n - i,
        {
            let ghost rest = self@.skip(i as int);
            let ghost before = text@;
            self.subtitles[i].render_into(&mut text);
            proof {
                assert(rest[0] == self.subtitles@[i as int]@);
                assert(rest.skip(1) =~= self@.skip(i + 1));
                assert(before + (rest[0].rendered() + rendered_file(rest.skip(1))) =~= text@
                    + rendered_file(self@.skip(i + 1)));
            }
            i += 1;
        }
        assert(text@ + Seq::<char>::empty() =~= text@);
        text
    }

    /// Moves both timestamps of every entry by `offset_ms` milliseconds. A
    /// timestamp that would come to lie before zero is set to zero.
    pub fn shift_time(&mut self, offset_ms: i64)
        ensures
            final(self)@ == shifted_file(old(self)@, offset_ms as int),
    {
        let n = self.subtitles.len();
        let mut i: usize = 0;
        while i < n
            invariant
                i <= n,
                n == self.subtitles@.len(),
                n == old(self).subtitles@.len(),
                forall|k: int|
                    0 <= k < i ==> #[trigger] self.subtitles@[k]@ == old(self).subtitles@[k]@.shifted(
                        offset_ms as int,
                    ),
                forall|k: int| i <= k < n ==> #[trigger] self.subtitles@[k] == old(self).subtitles@[k],
            decreases n - i,
        {
            let subtitle = &mut self.subtitles[i];
            subtitle.start = subtitle.start.shift(offset_ms);
            subtitle.end = subtitle.end.shift(offset_ms);
            i += 1;
        }
        assert(self@ =~= shifted_file(old(self)@, offset_ms as int));
    }
}

/// A shift by zero leaves a collection as it is, where all its timestamps
/// are normalized.
pub proof fn lemma_shift_time_zero(entries: Seq<SubtitleView>)
    requires
        forall|i: int|
            0 <= i < entries.len() ==> (#[trigger] entries[i]).start.is_normalized()
                && entries[i].end.is_normalized(),
    ensures
        shifted_file(entries, 0) == entries,
{
    assert forall|i: int| 0 <= i < entries.len() implies (#[trigger] entries[i]).shifted(0)
        == entries[i] by {
        lemma_shift_zero(entries[i].start);
        lemma_shift_zero(entries[i].end);
    }
    assert(shifted_file(entries, 0) =~= entries);
}

/// Two shifts of a collection in a row equal one shift by the sum of the
/// offsets, where the first moves no timestamp to before zero or beyond what
/// the hours field holds.
pub proof fn lemma_shift_time_twice(entries: Seq<SubtitleView>, a: i64, b: i64)
    requires
        forall|i: int|
            0 <= i < entries.len() ==> {
                &&& 0 <= (#[trigger] entries[i]).start.ms() + a
                &&& 0 <= entries[i].end.ms() + a
                &&& entries[i].start.keeps_hours(a as int)
                &&& entries[i].end.keeps_hours(a as int)
            },
    ensures
        shifted_file(shifted_file(entries, a as int), b as int) == shifted_file(entries, a + b),
{
    assert forall|i: int| 0 <= i < entries.len() implies (#[trigger] entries[i]).shifted(
        a as int,
    ).shifted(b as int) == entries[i].shifted(a + b) by {
        lemma_shift_twice(entries[i].start, a, b);
        lemma_shift_twice(entries[i].end, a, b);
    }
    assert(shifted_file(shifted_file(entries, a as int), b as int) =~= shifted_file(
        entries,
        a + b,
    ));
}

} // verus!
