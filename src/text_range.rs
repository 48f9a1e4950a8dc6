//! Half-open spans of byte offsets, with arithmetic that saturates
//! instead of overflowing.
use vstd::prelude::*;

verus! {

/// An offset into a text, counted in UTF-8 bytes.
pub type TextSize = u32;

/// The span `[start, end)` of a text.
#[derive(Clone, Copy, Debug, PartialEq, Eq, Structural)]
pub struct TextRange {
    pub start: TextSize,
    pub end: TextSize,
}

/// `a + b`, or `u32::MAX` when that does not fit.
pub open spec fn sat_add(a: TextSize, b: TextSize) -> TextSize {
    if a + b <= u32::MAX { (a + b) as TextSize } else { u32::MAX }
}

/// `a - b`, or `0` when that would be negative.
pub open spec fn sat_sub(a: TextSize, b: TextSize) -> TextSize {
    if a >= b { (a - b) as TextSize } else { 0 }
}

pub open spec fn min_size(a: TextSize, b: TextSize) -> TextSize {
    if a <= b { a } else { b }
}

pub open spec fn max_size(a: TextSize, b: TextSize) -> TextSize {
    if a >= b { a } else { b }
}

pub fn size_add(a: TextSize, b: TextSize) -> (r: TextSize)
    ensures
        r == sat_add(a, b),
{
    a.saturating_add(b)
}

pub fn size_sub(a: TextSize, b: TextSize) -> (r: TextSize)
    ensures
        r == sat_sub(a, b),
{
    a.saturating_sub(b)
}

pub fn size_min(a: TextSize, b: TextSize) -> (r: TextSize)
    ensures
        r == min_size(a, b),
{
    if a <= b { a } else { b }
}

pub fn size_max(a: TextSize, b: TextSize) -> (r: TextSize)
    ensures
        r == max_size(a, b),
{
    if a >= b { a } else { b }
}

impl TextRange {
    /// A range is well formed when it does not end before it starts.
    pub open spec fn wf(&self) -> bool {
        self.start <= self.end
    }

    /// The range lies inside a text of `len` bytes.
    pub open spec fn within(&self, len: int) -> bool {
        self.start <= self.end && self.end <= len
    }

    pub open spec fn spec_len(&self) -> nat {
        (self.end - self.start) as nat
    }

    /// Two ranges intersect when they overlap or touch: the larger start is
    /// not past the smaller end.
    pub open spec fn spec_intersects(&self, other: TextRange) -> bool {
        max_size(self.start, other.start) <= min_size(self.end, other.end)
    }

    /// The range moved right by `d`, each end saturating.
    pub open spec fn spec_shift_right(&self, d: TextSize) -> TextRange {
        TextRange { start: sat_add(self.start, d), end: sat_add(self.end, d) }
    }

    /// The range moved left by `d`, each end saturating at zero.
    pub open spec fn spec_shift_left(&self, d: TextSize) -> TextRange {
        TextRange { start: sat_sub(self.start, d), end: sat_sub(self.end, d) }
    }

    pub fn new(start: TextSize, end: TextSize) -> (r: TextRange)
        requires
            start <= end,
        ensures
            r == (TextRange { start, end }),
    {
        TextRange { start, end }
    }

    /// The empty range at `offset`.
    pub fn empty(offset: TextSize) -> (r: TextRange)
        ensures
            r == (TextRange { start: offset, end: offset }),
    {
        TextRange { start: offset, end: offset }
    }

    pub fn start(&self) -> (r: TextSize)
        ensures
            r == self.start,
    {
        self.start
    }

    pub fn end(&self) -> (r: TextSize)
        ensures
            r == self.end,
    {
        self.end
    }

    pub fn len(&self) -> (r: TextSize)
        requires
            self.wf(),
        ensures
            r == self.spec_len(),
    {
        self.end - self.start
    }

    pub fn is_empty(&self) -> (r: bool)
        ensures
            r == (self.start == self.end),
    {
        self.start == self.end
    }

    /// The common part of two ranges, when they overlap or touch.
    pub fn intersect(&self, other: TextRange) -> (r: Option<TextRange>)
        ensures
            r is Some <==> self.spec_intersects(other),
            r matches Some(i) ==> i == (TextRange {
                start: max_size(self.start, other.start),
                end: min_size(self.end, other.end),
            }),
    {
        let start = size_max(self.start, other.start);
        let end = size_min(self.end, other.end);
        if end < start {
            None
        } else {
            Some(TextRange { start, end })
        }
    }

    /// Whether `offset` lies in `[start, end)`.
    pub fn contains(&self, offset: TextSize) -> (r: bool)
        ensures
            r == (self.start <= offset && offset < self.end),
    {
        self.start <= offset && offset < self.end
    }

    /// Moves the range right by `d`; each end saturates at `u32::MAX`.
    pub fn shift_right(&self, d: TextSize) -> (r: TextRange)
        ensures
            r == self.spec_shift_right(d),
            self.wf() ==> r.wf(),
    {
        TextRange { start: size_add(self.start, d), end: size_add(self.end, d) }
    }

    /// Moves the range left by `d`; each end saturates at zero.
    pub fn shift_left(&self, d: TextSize) -> (r: TextRange)
        ensures
            r == self.spec_shift_left(d),
            self.wf() ==> r.wf(),
    {
        TextRange { start: size_sub(self.start, d), end: size_sub(self.end, d) }
    }

    /// Moves the range left by `d`, or `None` where its start would pass zero.
    pub fn checked_shift_left(&self, d: TextSize) -> (r: Option<TextRange>)
        requires
            self.wf(),
        ensures
            r is Some <==> d <= self.start,
            r matches Some(m) ==> m == (TextRange {
                start: (self.start - d) as TextSize,
                end: (self.end - d) as TextSize,
            }),
    {
        if d <= self.start {
            Some(TextRange { start: self.start - d, end: self.end - d })
        } else {
            None
        }
    }
}

} // verus!
