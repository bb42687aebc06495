//! From parse trees to subtitles.
//!
//! The functions here read a tree by position: the first part of a block is
//! its index, the second its timecode, the third its text. They work on any
//! tree, also one that the parser would never build, and name the part that
//! is missing where one is.

use crate::decimal::{parse_u32, parsed_u32};
use crate::error::{SrtError, SrtErrorView};
use crate::grammar::{subtitle_file, Attempt, Fragment, Rule};
use crate::parser::{fragments, Pair, SrtSubtitleParser};
use crate::subtitle::{Subtitle, SubtitleFile, SubtitleView};
use crate::timestamp::Timestamp;
use vstd::prelude::*;

verus! {

/// The lines, with one line feed between neighbours.
pub open spec fn join_lines(lines: Seq<Seq<char>>) -> Seq<char>
    decreases lines.len(),
{
    if lines.len() == 0 {
        Seq::empty()
    } else if lines.len() == 1 {
        lines[0]
    } else {
        lines[0] + seq!['\n'] + join_lines(lines.skip(1))
    }
}

/// The texts of the fragments.
pub open spec fn texts(nodes: Seq<Fragment>) -> Seq<Seq<char>> {
    Seq::new(nodes.len(), |i: int| nodes[i].text)
}

/// The text of a text content fragment: the texts of its parts, joined by
/// line feeds.
pub open spec fn text_of(node: Fragment) -> Seq<char> {
    join_lines(texts(node.inner))
}

/// The number that part `i` of `node` holds; `name` is what the part is
/// called in an error.
pub open spec fn number_at(node: Fragment, i: int, name: Seq<char>) -> Result<u32, SrtErrorView> {
    if node.inner.len() <= i {
        Err(SrtErrorView::MissingComponent(name))
    } else {
        match parsed_u32(node.inner[i].text) {
            Some(value) => Ok(value),
            None => Err(SrtErrorView::InvalidTimestamp(name)),
        }
    }
}

/// The timestamp of a timestamp fragment. The first field that is missing
/// or out of range decides the error.
pub open spec fn timestamp_of(node: Fragment) -> Result<Timestamp, SrtErrorView> {
    let hours = number_at(node, 0, "hours"@);
    let minutes = number_at(node, 1, "minutes"@);
    let seconds = number_at(node, 2, "seconds"@);
    let milliseconds = number_at(node, 3, "milliseconds"@);
    if hours is Err {
        Err(hours->Err_0)
    } else if minutes is Err {
        Err(minutes->Err_0)
    } else if seconds is Err {
        Err(seconds->Err_0)
    } else if milliseconds is Err {
        Err(milliseconds->Err_0)
    } else {
        Ok(
            Timestamp {
                hours: hours->Ok_0,
                minutes: minutes->Ok_0,
                seconds: seconds->Ok_0,
                milliseconds: milliseconds->Ok_0,
            },
        )
    }
}

/// Part `i` of a timecode fragment as a timestamp; `name` is what the part
/// is called in an error.
pub open spec fn timestamp_at(node: Fragment, i: int, name: Seq<char>) -> Result<
    Timestamp,
    SrtErrorView,
> {
    if node.inner.len() <= i {
        Err(SrtErrorView::MissingComponent(name))
    } else {
        timestamp_of(node.inner[i])
    }
}

/// The subtitle of a block fragment. Parts are looked at in the order index,
/// start, end, text; the first that is missing or invalid decides the error.
pub open spec fn subtitle_of(node: Fragment) -> Result<SubtitleView, SrtErrorView> {
    if node.inner.len() == 0 {
        Err(SrtErrorView::MissingComponent("index"@))
    } else if parsed_u32(node.inner[0].text) is None {
        Err(SrtErrorView::InvalidIndex(node.inner[0].text))
    } else if node.inner.len() == 1 {
        Err(SrtErrorView::MissingComponent("timecode"@))
    } else if timestamp_at(node.inner[1], 0, "start timestamp"@) is Err {
        Err(timestamp_at(node.inner[1], 0, "start timestamp"@)->Err_0)
    } else if timestamp_at(node.inner[1], 1, "end timestamp"@) is Err {
        Err(timestamp_at(node.inner[1], 1, "end timestamp"@)->Err_0)
    } else if node.inner.len() == 2 {
        Err(SrtErrorView::MissingComponent("text content"@))
    } else {
        Ok(
            SubtitleView {
                index: parsed_u32(node.inner[0].text)->0,
                start: timestamp_at(node.inner[1], 0, "start timestamp"@)->Ok_0,
                end: timestamp_at(node.inner[1], 1, "end timestamp"@)->Ok_0,
                text: text_of(node.inner[2]),
            },
        )
    }
}

/// The subtitles of the block fragments among `nodes`, in order; fragments
/// of other rules are passed over. The first block that has no subtitle
/// decides the error.
pub open spec fn subtitles_of(nodes: Seq<Fragment>) -> Result<Seq<SubtitleView>, SrtErrorView>
    decreases nodes.len(),
{
    if nodes.len() == 0 {
        Ok(Seq::empty())
    } else if nodes[0].rule != Rule::subtitle_block {
        subtitles_of(nodes.skip(1))
    } else {
        match subtitle_of(nodes[0]) {
            Err(e) => Err(e),
            Ok(first) => match subtitles_of(nodes.skip(1)) {
                Err(e) => Err(e),
                Ok(rest) => Ok(seq![first] + rest),
            },
        }
    }
}

/// What reading `s` as a subtitle file gives: the subtitles of its blocks,
/// or the first error on the way.
pub open spec fn parsed_srt(s: Seq<char>) -> Result<Seq<SubtitleView>, SrtErrorView> {
    match subtitle_file(s) {
        Attempt::Failed { rule, position } => Err(SrtErrorView::ParseError { rule, position }),
        Attempt::Matched { fragment, .. } => subtitles_of(fragment.inner),
    }
}

/// The parts of a pair stand for the parts of its fragment.
pub proof fn lemma_inner_fragments(pair: &Pair)
    ensures
        pair@.rule == pair.rule,
        pair@.text == pair.text@,
        pair@.inner == fragments(pair.inner@),
        pair@.inner.len() == pair.inner@.len(),
        forall|i: int| 0 <= i < pair.inner@.len() ==> #[trigger] pair@.inner[i] == pair.inner@[i]@,
{
    assert(pair@.inner =~= fragments(pair.inner@));
}

/// Converts a text content pair into a single string: the texts of its
/// lines, joined by line feeds.
pub fn parse_text(pair: &Pair) -> (text: String)
    ensures
        text@ == text_of(pair@),
{
    let ghost lines = texts(pair@.inner);
    let mut text = String::new();
    let n = pair.inner.len();
    let mut i: usize = 0;
    proof {
        lemma_inner_fragments(pair);
        assert(lines.skip(0) =~= lines);
    }
    while i < n
        invariant
            i <= n,
            n == pair.inner@.len(),
            lines == texts(pair@.inner),
            lines.len() == n,
            forall|k: int| 0 <= k < n ==> #[trigger] lines[k] == pair.inner@[k].text@,
            i == 0 ==> text@ == Seq::<char>::empty(),
            i == n ==> join_lines(lines) == text@,
            0 < i < n ==> join_lines(lines) == text@ + seq!['\n'] + join_lines(lines.skip(i as int)),
        decreases n - i,
    {
        let ghost before = text@;
        let ghost rest = lines.skip(i as int);
        if i > 0 {
            text.push('\n');
        }
        text.append(pair.inner[i].text.as_str());
        proof {
            assert(rest[0] == lines[i as int]);
            assert(rest.skip(1) =~= lines.skip(i + 1));
            if i == 0 {
                assert(rest =~= lines);
                assert(text@ =~= lines[0]);
            } else {
                assert(text@ =~= before + seq!['\n'] + lines[i as int]);
            }
            if i + 1 < n {
                assert(join_lines(rest) == rest[0] + seq!['\n'] + join_lines(rest.skip(1)));
                assert(join_lines(lines) =~= text@ + seq!['\n'] + join_lines(lines.skip(i + 1)));
            } else {
                assert(join_lines(rest) == rest[0]);
                assert(join_lines(lines) =~= text@);
            }
        }
        i += 1;
    }
    text
}

fn read_number(pair: &Pair, i: usize, name: &str) -> (result: Result<u32, SrtError>)
    ensures
        match number_at(pair@, i as int, name@) {
            Ok(value) => result == Ok::<u32, SrtError>(value),
            Err(e) => result is Err && result->Err_0@ == e,
        },
{
    proof {
        lemma_inner_fragments(pair);
    }
    if i >= pair.inner.len() {
        return Err(SrtError::MissingComponent(name.to_owned()));
    }
    proof {
        lemma_inner_fragments(&pair.inner@[i as int]);
    }
    match parse_u32(pair.inner[i].text.as_str()) {
        Some(value) => Ok(value),
        None => Err(SrtError::InvalidTimestamp(name.to_owned())),
    }
}

/// What [`parse_timestamp`] returns where the fragment's timestamp is
/// `expected`.
pub open spec fn reports_timestamp(
    result: Result<Timestamp, SrtError>,
    expected: Result<Timestamp, SrtErrorView>,
) -> bool {
    match expected {
        Ok(t) => result == Ok::<Timestamp, SrtError>(t),
        Err(e) => result is Err && result->Err_0@ == e,
    }
}

/// Converts a timestamp pair into a [`Timestamp`].
pub fn parse_timestamp(pair: &Pair) -> (result: Result<Timestamp, SrtError>)
    ensures
        reports_timestamp(result, timestamp_of(pair@)),
{
    let hours = read_number(pair, 0, "hours")?;
    let minutes = read_number(pair, 1, "minutes")?;
    let seconds = read_number(pair, 2, "seconds")?;
    let milliseconds = read_number(pair, 3, "milliseconds")?;
    Ok(Timestamp { hours, minutes, seconds, milliseconds })
}

fn read_timestamp(pair: &Pair, i: usize, name: &str) -> (result: Result<Timestamp, SrtError>)
    ensures
        reports_timestamp(result, timestamp_at(pair@, i as int, name@)),
{
    proof {
        lemma_inner_fragments(pair);
    }
    if i >= pair.inner.len() {
        return Err(SrtError::MissingComponent(name.to_owned()));
    }
    parse_timestamp(&pair.inner[i])
}

/// What [`parse_subtitle_block`] returns where the fragment's subtitle is
/// `expected`.
pub open spec fn reports_subtitle(
    result: Result<Subtitle, SrtError>,
    expected: Result<SubtitleView, SrtErrorView>,
) -> bool {
    match expected {
        Ok(subtitle) => result is Ok && result->Ok_0@ == subtitle,
        Err(e) => result is Err && result->Err_0@ == e,
    }
}

/// Converts a subtitle block pair into a [`Subtitle`].
pub fn parse_subtitle_block(pair: &Pair) -> (result: Result<Subtitle, SrtError>)
    ensures
        reports_subtitle(result, subtitle_of(pair@)),
{
    proof {
        lemma_inner_fragments(pair);
    }
    let parts = pair.inner.len();
    if parts == 0 {
        return Err(SrtError::MissingComponent("index".to_owned()));
    }
    let index_pair = &pair.inner[0];
    proof {
        lemma_inner_fragments(index_pair);
    }
    let index = match parse_u32(index_pair.text.as_str()) {
        Some(value) => value,
        None => {
            return Err(SrtError::InvalidIndex(index_pair.text.clone()));
        },
    };
    if parts == 1 {
        return Err(SrtError::MissingComponent("timecode".to_owned()));
    }
    let start = read_timestamp(&pair.inner[1], 0, "start timestamp")?;
    let end = read_timestamp(&pair.inner[1], 1, "end timestamp")?;
    if parts == 2 {
        return Err(SrtError::MissingComponent("text content".to_owned()));
    }
    let text = parse_text(&pair.inner[2]);
    Ok(Subtitle { index, start, end, text })
}

/// What [`parse_srt`] returns where reading the text gives `expected`.
pub open spec fn reports_file(
    result: Result<SubtitleFile, SrtError>,
    expected: Result<Seq<SubtitleView>, SrtErrorView>,
) -> bool {
    match expected {
        Ok(subtitles) => result is Ok && result->Ok_0@ == subtitles,
        Err(e) => result is Err && result->Err_0@ == e,
    }
}

/// `done`, then what `rest` gives.
pub open spec fn after(done: Seq<SubtitleView>, rest: Result<Seq<SubtitleView>, SrtErrorView>)
    -> Result<Seq<SubtitleView>, SrtErrorView> {
    match rest {
        Ok(more) => Ok(done + more),
        Err(e) => Err(e),
    }
}

/// Reads the content of a subtitle file into a [`SubtitleFile`].
pub fn parse_srt(input: &str) -> (result: Result<SubtitleFile, SrtError>)
    ensures
        reports_file(result, parsed_srt(input@)),
{
    let tree = match SrtSubtitleParser::parse(Rule::subtitle_file, input) {
        Ok(tree) => tree,
        Err(e) => {
            return Err(SrtError::ParseError(e));
        },
    };
    let ghost nodes = tree@.inner;
    let mut subtitles: Vec<Subtitle> = Vec::new();
    let n = tree.inner.len();
    let mut i: usize = 0;
    proof {
        lemma_inner_fragments(&tree);
        assert(nodes.skip(0) =~= nodes);
        assert(subtitles@.map_values(|s: Subtitle| s@) =~= Seq::empty());
        assert(subtitles_of(nodes) == after(Seq::empty(), subtitles_of(nodes))) by {
            if subtitles_of(nodes) is Ok {
                assert(Seq::<SubtitleView>::empty() + subtitles_of(nodes)->Ok_0 =~= subtitles_of(
                    nodes,
                )->Ok_0);
            }
        }
    }
    while i < n
        invariant
            i <= n,
            n == tree.inner@.len(),
            nodes == fragments(tree.inner@),
            parsed_srt(input@) == subtitles_of(nodes),
            subtitles_of(nodes) == after(
                subtitles@.map_values(|s: Subtitle| s@),
                subtitles_of(nodes.skip(i as int)),
            ),
        decreases n - i,
    {
        let ghost done = subtitles@.map_values(|s: Subtitle| s@);
        let ghost rest = nodes.skip(i as int);
        let child = &tree.inner[i];
        proof {
            lemma_inner_fragments(child);
            assert(rest[0] == child@);
            assert(rest.skip(1) =~= nodes.skip(i + 1));
        }
        match child.rule {
            Rule::subtitle_block => {
                let subtitle = parse_subtitle_block(child)?;
                subtitles.push(subtitle);
                proof {
                    let now = subtitles@.map_values(|s: Subtitle| s@);
                    assert(now =~= done.push(subtitle@));
                    if subtitles_of(rest.skip(1)) is Ok {
                        let more = subtitles_of(rest.skip(1))->Ok_0;
                        assert(done + (seq![subtitle@] + more) =~= now + more);
                    }
                }
            },
            Rule::EOI => {},
            _ => {},
        }
        i += 1;
    }
    proof {
        assert(nodes.skip(n as int) =~= Seq::empty());
        let done = subtitles@.map_values(|s: Subtitle| s@);
        assert(done + Seq::<SubtitleView>::empty() =~= done);
    }
    Ok(SubtitleFile { subtitles })
}

} // verus!
