//! Where a speech engine stands in the text it speaks.
use vstd::prelude::*;
use core::ops::Range;

verus! {

/// The positions a speech engine reports, in UTF-16 code units of the spoken text.
#[derive(Clone, Copy, Debug, PartialEq, Eq, Structural)]
pub struct VoiceStatus {
    pub running_state: u32,
    pub word_pos: u32,
    pub word_len: u32,
    pub sent_pos: u32,
    pub sent_len: u32,
}

/// The end of a span at `pos` of `len` units, where `usize` can hold it.
pub open spec fn span_end(pos: u32, len: u32) -> int {
    if pos + len <= usize::MAX {
        pos + len
    } else {
        usize::MAX as int
    }
}

fn span(pos: u32, len: u32) -> (r: Range<usize>)
    ensures
        r.start == pos,
        r.end == span_end(pos, len),
{
    let start = pos as usize;
    let end = start.saturating_add(len as usize);
    Range { start, end }
}

/// The word and the sentence being spoken, as ranges of the spoken text.
pub trait StatusUtil {
    fn word_range(&self) -> Range<usize>;

    fn sent_range(&self) -> Range<usize>;
}

impl StatusUtil for VoiceStatus {
    fn word_range(&self) -> (r: Range<usize>)
        ensures
            r.start == self.word_pos,
            r.end == span_end(self.word_pos, self.word_len),
    {
        span(self.word_pos, self.word_len)
    }

    fn sent_range(&self) -> (r: Range<usize>)
        ensures
            r.start == self.sent_pos,
            r.end == span_end(self.sent_pos, self.sent_len),
    {
        span(self.sent_pos, self.sent_len)
    }
}

} // verus!
