//! Byte ranges of features, as a search over HTTP reports them.

use vstd::prelude::*;

verus! {

/// Byte range within a file. Suitable for an HTTP Range request.
///
/// `RangeFrom(start)` is the open range from `start` to the end of the
/// file.
#[derive(Debug)]
pub enum HttpRange {
    Range(core::ops::Range<usize>),
    RangeFrom(usize),
}

impl Clone for HttpRange {
    fn clone(&self) -> (r: HttpRange)
        ensures
            r == *self,
    {
        match self {
            HttpRange::Range(range) => HttpRange::Range(range.start..range.end),
            HttpRange::RangeFrom(start) => HttpRange::RangeFrom(*start),
        }
    }
}

impl HttpRange {
    /// Where the range starts.
    pub fn start(&self) -> (r: usize)
        ensures
            r == match *self {
                HttpRange::Range(range) => range.start,
                HttpRange::RangeFrom(start) => start,
            },
    {
        match self {
            HttpRange::Range(range) => range.start,
            HttpRange::RangeFrom(start) => *start,
        }
    }

    /// Where the range ends, if it is closed.
    pub fn end(&self) -> (r: Option<usize>)
        ensures
            r == match *self {
                HttpRange::Range(range) => Some(range.end),
                HttpRange::RangeFrom(_) => None::<usize>,
            },
    {
        match self {
            HttpRange::Range(range) => Some(range.end),
            HttpRange::RangeFrom(_) => None,
        }
    }

    /// The range with the same start and the given end: closed when `end`
    /// is given, open otherwise.
    pub fn with_end(self, end: Option<usize>) -> (r: HttpRange)
        ensures
            r == match end {
                Some(e) => HttpRange::Range(core::ops::Range { start: self.spec_start(), end: e }),
                None => HttpRange::RangeFrom(self.spec_start()),
            },
    {
        match end {
            Some(end) => HttpRange::Range(self.start()..end),
            None => HttpRange::RangeFrom(self.start()),
        }
    }

    /// The number of bytes of a closed range.
    pub fn length(&self) -> (r: Option<usize>)
        requires
            match *self {
                HttpRange::Range(range) => range.start <= range.end,
                HttpRange::RangeFrom(_) => true,
            },
        ensures
            r == match *self {
                HttpRange::Range(range) => Some((range.end - range.start) as usize),
                HttpRange::RangeFrom(_) => None::<usize>,
            },
    {
        match self {
            HttpRange::Range(range) => Some(range.end - range.start),
            HttpRange::RangeFrom(_) => None,
        }
    }

    /// Where the range starts.
    pub open spec fn spec_start(&self) -> usize {
        match *self {
            HttpRange::Range(range) => range.start,
            HttpRange::RangeFrom(start) => start,
        }
    }
}

#[derive(Debug)]
/// Bbox filter search result
pub struct HttpSearchResultItem {
    /// Byte offset in feature data section
    pub range: HttpRange,
}

} // verus!
