use vstd::prelude::*;

/// Moving between strings and character sequences.
pub mod text;
/// The `[MM:SS.fff]` timestamp codec.
pub mod timestamp;
/// Words, lines and the ordering of documents.
pub mod model;
/// The line-synchronised LRC format.
pub mod lrc;
/// The word-synchronised formats: QRC, YRC and Lyricify Syllable.
pub mod syllable;

verus! {

} // verus!
