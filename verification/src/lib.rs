//! Reading, writing and shifting SubRip (SRT) subtitles.
//!
//! Subtitle text is a sequence of blocks: an index, a timecode made of two
//! timestamps, and one or more lines of text, closed by an empty line.
//! [`grammar`] states the format as functions on character sequences;
//! [`parser`] matches it and builds parse trees; [`mapper`] turns a tree into
//! [`Subtitle`]s. [`SubtitleFile`] renders a collection back to text and
//! shifts its timestamps. [`roundtrip`] proves that rendering and reading
//! agree.

#![allow(unused_imports)]

pub mod bounds;
pub mod decimal;
pub mod error;
pub mod grammar;
pub mod mapper;
pub mod parser;
pub mod roundtrip;
pub mod subtitle;
pub mod text;
pub mod timestamp;

pub use error::SrtError;
pub use grammar::Rule;
pub use mapper::{parse_srt, parse_subtitle_block, parse_text, parse_timestamp};
pub use parser::{Pair, ParseError, SrtSubtitleParser};
pub use subtitle::{Subtitle, SubtitleFile};
pub use timestamp::Timestamp;
