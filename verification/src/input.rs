//! The source text: an immutable byte buffer that every offset produced
//! downstream indexes into.

use vstd::prelude::*;

verus! {

/// Whether a line ends at position `i`: a line feed, or a carriage return
/// that no line feed follows (`\r\n` counts as one break, at the `\n`).
pub open spec fn is_break_at(s: Seq<u8>, i: int) -> bool
    recommends
        0 <= i < s.len(),
{
    s[i] == 10 || (s[i] == 13 && (i + 1 >= s.len() || s[i + 1] != 10))
}

/// How many line breaks lie in the first `n` bytes.
pub open spec fn breaks_before(s: Seq<u8>, n: int) -> int
    decreases n,
{
    if n <= 0 {
        0
    } else {
        breaks_before(s, n - 1) + if is_break_at(s, n - 1) {
            1int
        } else {
            0int
        }
    }
}

/// The offset where the line containing `n` starts.
pub open spec fn line_start(s: Seq<u8>, n: int) -> int
    decreases n,
{
    if n <= 0 {
        0
    } else if is_break_at(s, n - 1) {
        n
    } else {
        line_start(s, n - 1)
    }
}

/// Wraps the raw source bytes.
pub struct Input {
    pub source: Vec<u8>,
}

impl Input {
    pub fn new(source: Vec<u8>) -> (r: Input)
        ensures
            r.source@ == source@,
    {
        Input { source }
    }

    pub fn len(&self) -> (r: usize)
        ensures
            r == self.source@.len(),
    {
        self.source.len()
    }

    /// Translates a byte offset into a one-based line and column for
    /// diagnostics: the line is one more than the number of line breaks
    /// before the offset, and the column counts from the current line's
    /// first byte.
    pub fn line_column(&self, offset: usize) -> (r: (usize, usize))
        requires
            offset <= self.source@.len(),
            offset < usize::MAX,
        ensures
            r.0 as int == 1 + breaks_before(self.source@, offset as int),
            r.1 as int == offset - line_start(self.source@, offset as int) + 1,
    {
        let v = &self.source;
        let mut i: usize = 0;
        let mut line: usize = 1;
        let mut start: usize = 0;
        while i < offset
            invariant
                i <= offset <= v@.len(),
                offset < usize::MAX,
                line as int == 1 + breaks_before(v@, i as int),
                start as int == line_start(v@, i as int),
                line <= i + 1,
                start <= i,
            decreases offset - i,
        {
            let is_break = v[i] == 10 || (v[i] == 13 && (i + 1 >= v.len() || v[i + 1] != 10));
            if is_break {
                line = line + 1;
                start = i + 1;
            }
            i = i + 1;
        }
        (line, offset - start + 1)
    }
}

} // verus!
