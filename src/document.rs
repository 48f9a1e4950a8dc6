//! A document: its text and the spans of its statements, kept up to date
//! edit by edit.
//!
//! Splitting text into statements is done outside this library. An edit is
//! therefore a short exchange: [`Document::begin_change`] returns the text
//! that must be split, and [`Document::resume_change`] takes what the
//! splitter found there. It either asks for one more split or finishes the
//! edit with the list of statement changes.
use vstd::prelude::*;
use crate::change::{AddedStatement, ChangeFileParams, ChangeParams, ModifiedStatement, StatementChange};
use crate::statement_id::{IdGenerator, StatementId};
use crate::utf8_text::{at_char, byte_len, lemma_boundary_in, lemma_boundary_local, lemma_boundary_moves, lemma_utf8_valid, on_char, slice, utf8};
use vstd::utf8::{is_char_boundary_start_end_of_seq, valid_utf8};
use crate::text_range::{TextRange, TextSize, max_size, min_size, sat_add, sat_sub, size_add, size_max, size_min, size_sub};

verus! {

/// A statement and its span in the document.
pub type Position = (StatementId, TextRange);

/// A problem that the statement splitter reported. A fatal one kept it from
/// splitting the text at all.
#[derive(Clone, Debug)]
pub struct SplitDiagnostic {
    pub message: String,
    pub range: Option<TextRange>,
    pub fatal: bool,
}

/// What the statement splitter reported for one text: the spans of the
/// statements, relative to the start of that text, and its diagnostics.
#[derive(Clone, Debug)]
pub struct SplitOutcome {
    pub ranges: Vec<TextRange>,
    pub diagnostics: Vec<SplitDiagnostic>,
}

/// One of the diagnostics is fatal.
pub open spec fn has_fatal(ds: Seq<SplitDiagnostic>) -> bool {
    exists|i: int| 0 <= i < ds.len() && (#[trigger] ds[i]).fatal
}

/// Whether one of the diagnostics is fatal.
pub fn any_fatal(ds: &Vec<SplitDiagnostic>) -> (r: bool)
    ensures
        r == has_fatal(ds@),
{
    let mut i: usize = 0;
    while i < ds.len()
        invariant
            0 <= i <= ds@.len(),
            forall|j: int| 0 <= j < i ==> !(#[trigger] ds@[j]).fatal,
        decreases ds@.len() - i,
    {
        if ds[i].fatal {
            return true;
        }
        i = i + 1;
    }
    false
}

/// The diagnostics kept after a split: exactly the splitter's own where one
/// of them is fatal; otherwise the splitter's own, and where it reported
/// spans out of order or outside the text, one more that is fatal.
pub open spec fn kept_diagnostics(kept: Seq<SplitDiagnostic>, o: SplitOutcome) -> bool {
    &&& has_fatal(o.diagnostics@) ==> kept == o.diagnostics@
    &&& kept.subrange(0, o.diagnostics@.len() as int) == o.diagnostics@
    &&& kept.len() == o.diagnostics@.len() || (kept.len() == o.diagnostics@.len() + 1 && kept.last().fatal)
}

/// The splitter's diagnostics, with a fatal one added where `ok` is false and
/// none of them is fatal.
fn diagnostics_after(o: SplitOutcome, ok: bool) -> (r: Vec<SplitDiagnostic>)
    ensures
        kept_diagnostics(r@, o),
        has_fatal(r@) == (has_fatal(o.diagnostics@) || !ok),
        ok ==> r@ == o.diagnostics@,
{
    let fatal = any_fatal(&o.diagnostics);
    let mut ds = o.diagnostics;
    if !ok && !fatal {
        let ghost before = ds@;
        ds.push(SplitDiagnostic { message: String::from_str("statement spans out of order or outside the text"), range: None, fatal: true });
        proof {
            assert(ds@.subrange(0, before.len() as int) =~= before);
            assert(ds@[before.len() as int].fatal);
        }
    }
    proof {
        if ok || fatal {
            assert(ds@.subrange(0, ds@.len() as int) =~= ds@);
        }
    }
    ds
}

/// Which part of the new text an edit splits.
#[derive(Clone, Copy, Debug, PartialEq, Eq, Structural)]
pub enum SplitScope {
    /// The one statement that the edit touches, with the edit.
    Statement,
    /// The statements that the edit touches, their neighbours and the edit.
    Neighbourhood,
    /// All of it.
    Whole,
}

/// Where an edit lands among the statements of a document.
#[derive(Clone, Copy, Debug)]
pub struct Affected {
    /// The edit's range joined with the statements that it touches, in the
    /// coordinates of the new text.
    pub affected_range: TextRange,
    /// Index of the first statement that the edit touches.
    pub first_affected: usize,
    /// How many statements the edit touches; they follow each other.
    pub affected_count: usize,
    /// The last statement that ends before the edit, if any.
    pub prev_index: Option<usize>,
    /// The first statement after those that the edit touches, if any.
    pub next_index: Option<usize>,
    /// `affected_range` widened to the previous and the next statement.
    pub full_affected_range: TextRange,
}

/// An edit that waits for the splitter.
#[derive(Clone, Debug)]
pub struct PendingEdit {
    pub change: ChangeParams,
    /// The text as it is after the edit.
    pub new_content: String,
    pub affected: Affected,
    pub scope: SplitScope,
    /// The part of `new_content` that is being split.
    pub region: TextRange,
}

/// What the caller does next in an edit.
#[derive(Debug)]
pub enum ChangeStep {
    /// Split this text and hand the outcome to [`Document::resume_change`].
    Split(String),
    /// The edit is done; these are its effects on the statements, in order.
    Finished(Vec<StatementChange>),
}

/// The text of one file and the statements found in it.
#[derive(Debug)]
pub struct Document {
    pub content: String,
    pub version: i32,
    /// The statements, in the order of their spans.
    pub positions: Vec<Position>,
    /// What the last split reported. After a fatal one the document tracks
    /// no statement.
    pub diagnostics: Vec<SplitDiagnostic>,
    pub id_generator: IdGenerator,
    pub pending: Option<PendingEdit>,
}

/// Spans in order, none overlapping another, all inside a text of `len`
/// bytes.
pub open spec fn ranges_wf(rs: Seq<TextRange>, len: int) -> bool {
    &&& forall|i: int| 0 <= i < rs.len() ==> (#[trigger] rs[i]).within(len)
    &&& forall|i: int| 0 <= i < rs.len() - 1 ==> (#[trigger] rs[i]).end <= rs[i + 1].start
}

/// Every span, moved right by `offset`, starts and ends at a character
/// boundary of the UTF-8 text `b`.
pub open spec fn spans_on_chars(rs: Seq<TextRange>, offset: int, b: Seq<u8>) -> bool {
    forall|i: int| 0 <= i < rs.len() ==> on_char(b, (#[trigger] rs[i]).start + offset) && on_char(b, rs[i].end + offset)
}

/// Spans in order, inside the UTF-8 text `b`, at its character boundaries.
pub open spec fn spans_ok(rs: Seq<TextRange>, b: Seq<u8>) -> bool {
    ranges_wf(rs, b.len() as int) && spans_on_chars(rs, 0, b)
}

/// Checks that the spans of `rs`, moved right by `offset`, start and end at
/// character boundaries of `text`.
pub fn spans_land(rs: &Vec<TextRange>, offset: TextSize, text: &str) -> (r: bool)
    requires
        utf8(text@).len() <= u32::MAX,
    ensures
        r == spans_on_chars(rs@, offset as int, utf8(text@)),
{
    let len = byte_len(text) as u64;
    let mut k: usize = 0;
    while k < rs.len()
        invariant
            len == utf8(text@).len(),
            len <= u32::MAX,
            0 <= k <= rs@.len(),
            forall|i: int| 0 <= i < k ==> on_char(utf8(text@), (#[trigger] rs@[i]).start + offset) && on_char(utf8(text@), rs@[i].end + offset),
        decreases rs@.len() - k,
    {
        let r = rs[k];
        let s = r.start as u64 + offset as u64;
        let e = r.end as u64 + offset as u64;
        if s > len || e > len {
            proof {
                lemma_utf8_valid(text@);
                if on_char(utf8(text@), s as int) {
                    lemma_boundary_in(utf8(text@), s as int);
                }
                if on_char(utf8(text@), e as int) {
                    lemma_boundary_in(utf8(text@), e as int);
                }
            }
            return false;
        }
        let si = s as usize;
        let ei = e as usize;
        assert(si == rs@[k as int].start + offset && ei == rs@[k as int].end + offset);
        if !at_char(text, si) || !at_char(text, ei) {
            return false;
        }
        k = k + 1;
    }
    true
}

pub open spec fn ranges_of(ps: Seq<Position>) -> Seq<TextRange> {
    ps.map_values(|p: Position| p.1)
}

/// Every identity is a root issued before `next`, and no two are equal.
pub open spec fn ids_wf(ps: Seq<Position>, next: u64) -> bool {
    &&& forall|i: int| 0 <= i < ps.len() ==> ((#[trigger] ps[i]).0 matches StatementId::Root(n) && n < next)
    &&& forall|i: int, j: int| 0 <= i < ps.len() && 0 <= j < ps.len() && i != j ==> (#[trigger] ps[i]).0 != (#[trigger] ps[j]).0
}

/// The statement lies strictly inside the range: it starts before the edit
/// and ends after it.
pub open spec fn strictly_inside(edit: TextRange, stmt: TextRange) -> bool {
    stmt.start < edit.start && edit.end < stmt.end
}

/// The text after an edit.
pub open spec fn edited(content: Seq<char>, change: ChangeParams) -> Seq<u8> {
    change.spec_apply(content)
}

/// Number of leading positions that end before `c` starts.
pub open spec fn count_before(ps: Seq<Position>, c: TextRange, k: int) -> bool {
    &&& 0 <= k <= ps.len()
    &&& forall|i: int| 0 <= i < k ==> (#[trigger] ps[i]).1.end < c.start
    &&& k < ps.len() ==> !(ps[k].1.end < c.start)
}

/// The positions `[from, from + n)` are those that touch `c`, up to the first
/// one that does not.
pub open spec fn count_touching(ps: Seq<Position>, c: TextRange, from: int, n: int) -> bool {
    &&& 0 <= n && from + n <= ps.len()
    &&& forall|i: int| from <= i < from + n ==> (#[trigger] ps[i]).1.spec_intersects(c)
    &&& from + n < ps.len() ==> !ps[from + n].1.spec_intersects(c)
}

/// Where an edit of range `c` lands among `ps`, given the size `cs` of the
/// new text and the size `d` of the change, which adds text where `add`.
/// `nb` statements end before the edit and the next `na` touch it.
///
/// The affected range is the edit's range joined with the statements that
/// touch it; where none does, it reaches back to the start of the text when
/// no statement comes before, and on to the end of the new text when none
/// comes after. The full range widens it to the start of the previous
/// statement and the end of the next. Ends that were read in the old text
/// move by the size of the edit (not for an edit past the end of the new
/// text that removes text); both ranges are then cut to the new text.
#[verifier::opaque]
pub open spec fn affected_spec(ps: Seq<Position>, c: TextRange, cs: TextSize, d: TextSize, add: bool, nb: int, na: int) -> Affected {
    let prev: Option<usize> = if nb > 0 { Some((nb - 1) as usize) } else { None };
    let next: Option<usize> = if nb + na < ps.len() { Some((nb + na) as usize) } else { None };
    let start0 = if na > 0 { min_size(c.start, ps[nb].1.start) } else { c.start };
    let end0 = if na > 0 { max_size(min_size(c.end, cs), ps[nb + na - 1].1.end) } else { min_size(c.end, cs) };
    let start = if na == 0 && prev is None { 0 } else { start0 };
    let end1 = if na == 0 && next is None { cs } else { end0 };
    let first = match prev { Some(p) => ps[p as int].1.start, None => start };
    let last1 = match next { Some(n) => ps[n as int].1.end, None => end1 };
    let is_trim = c.start >= cs;
    let tail = na == 0 && next is None;
    let end = if tail { cs } else if add { sat_add(end1, d) } else if !is_trim { sat_sub(end1, d) } else { end1 };
    let last = if tail { cs } else if add { sat_add(last1, d) } else if !is_trim { sat_sub(last1, d) } else { last1 };
    let e = min_size(end, cs);
    let f = min_size(first, cs);
    Affected {
        affected_range: TextRange { start: min_size(start, e), end: e },
        first_affected: nb as usize,
        affected_count: na as usize,
        prev_index: prev,
        next_index: next,
        full_affected_range: TextRange { start: f, end: max_size(min_size(last, cs), f) },
    }
}

impl PendingEdit {
    /// The edit was begun on a document with these statements and text.
    pub open spec fn fits(&self, positions: Seq<Position>, content: Seq<char>) -> bool {
        &&& utf8(self.new_content@) == edited(content, self.change)
        &&& utf8(self.new_content@).len() <= u32::MAX
        &&& self.region.within(utf8(self.new_content@).len() as int)
        &&& on_char(utf8(self.new_content@), self.region.start as int)
        &&& on_char(utf8(self.new_content@), self.region.end as int)
        &&& self.change.sizes_fit()
        &&& self.affected.affected_range.within(utf8(self.new_content@).len() as int)
        &&& self.affected.full_affected_range.within(utf8(self.new_content@).len() as int)
        &&& self.affected.first_affected + self.affected.affected_count <= positions.len()
        &&& (self.affected.prev_index matches Some(p) ==> p + 1 == self.affected.first_affected)
        &&& self.affected.prev_index is None ==> self.affected.first_affected == 0
        &&& (self.affected.next_index matches Some(n) ==> n == self.affected.first_affected + self.affected.affected_count && n < positions.len())
        &&& self.affected.next_index is None ==> self.affected.first_affected + self.affected.affected_count == positions.len()
        &&& self.scope == SplitScope::Statement ==> self.affected.affected_count == 1 && self.change.range is Some && self.region == self.affected.affected_range
        &&& self.scope == SplitScope::Neighbourhood ==> self.change.range is Some && self.region == self.affected.full_affected_range
        &&& self.scope == SplitScope::Whole ==> self.region == (TextRange { start: 0, end: utf8(self.new_content@).len() as TextSize })
    }

    /// The region that an edit of a range splits first: the one statement
    /// that it touches, or else the neighbourhood.
    pub open spec fn planned_region(&self) -> TextRange {
        if self.affected.affected_count == 1 { self.affected.affected_range } else { self.affected.full_affected_range }
    }

    /// How an edit of a range is split first; the whole text where the
    /// planned region does not start and end at character boundaries.
    pub open spec fn planned_scope(&self) -> SplitScope {
        let planned = self.planned_region();
        if !(on_char(utf8(self.new_content@), planned.start as int) && on_char(utf8(self.new_content@), planned.end as int)) {
            SplitScope::Whole
        } else if self.affected.affected_count == 1 {
            SplitScope::Statement
        } else {
            SplitScope::Neighbourhood
        }
    }

    /// First index of the statements that a split of the neighbourhood replaces.
    pub open spec fn block_start(&self) -> int {
        match self.affected.prev_index {
            Some(p) => p as int,
            None => self.affected.first_affected as int,
        }
    }

    /// End of the statements that a split of the neighbourhood replaces.
    pub open spec fn block_end(&self) -> int {
        match self.affected.next_index {
            Some(n) => n + 1,
            None => (self.affected.first_affected + self.affected.affected_count) as int,
        }
    }
}

impl Document {
    /// The statements are in order, inside the text, and carry distinct
    /// identities that the generator has issued; a pending edit belongs to
    /// this state.
    pub open spec fn wf(&self) -> bool {
        &&& spans_ok(ranges_of(self.positions@), utf8(self.content@))
        &&& ids_wf(self.positions@, self.id_generator.next_id)
        &&& utf8(self.content@).len() <= u32::MAX
        &&& (self.pending matches Some(p) ==> p.fits(self.positions@, self.content@))
    }

    /// Counts the leading positions that end before `c` starts.
    fn positions_before(&self, c: TextRange) -> (nb: usize)
        ensures
            count_before(self.positions@, c, nb as int),
    {
        let mut k: usize = 0;
        while k < self.positions.len() && self.positions[k].1.end < c.start
            invariant
                0 <= k <= self.positions@.len(),
                forall|i: int| 0 <= i < k ==> (#[trigger] self.positions@[i]).1.end < c.start,
            decreases self.positions@.len() - k,
        {
            k = k + 1;
        }
        k
    }

    /// Counts the positions from `from` on that touch `c`.
    fn positions_touching(&self, c: TextRange, from: usize) -> (na: usize)
        requires
            from <= self.positions@.len(),
        ensures
            count_touching(self.positions@, c, from as int, na as int),
    {
        let mut n: usize = 0;
        while n < self.positions.len() - from && self.positions[from + n].1.intersect(c).is_some()
            invariant
                from <= self.positions@.len(),
                from + n <= self.positions@.len(),
                forall|i: int| from <= i < from + n ==> (#[trigger] self.positions@[i]).1.spec_intersects(c),
            decreases self.positions@.len() - from - n,
        {
            n = n + 1;
        }
        n
    }

    /// Where an edit of `change_range` lands. `content_size` is the size of
    /// the new text, `diff_size` the size of the change, which adds text where
    /// `is_addition`.
    pub fn get_affected(&self, change_range: TextRange, content_size: TextSize, diff_size: TextSize, is_addition: bool) -> (r: Affected)
        requires
            ranges_wf(ranges_of(self.positions@), u32::MAX as int),
        ensures
            count_before(self.positions@, change_range, r.first_affected as int),
            count_touching(self.positions@, change_range, r.first_affected as int, r.affected_count as int),
            r == affected_spec(self.positions@, change_range, content_size, diff_size, is_addition, r.first_affected as int, r.affected_count as int),
            r.affected_range.within(content_size as int),
            r.full_affected_range.within(content_size as int),
            r.first_affected + r.affected_count <= self.positions@.len(),
            r.prev_index matches Some(p) ==> p + 1 == r.first_affected,
            r.prev_index is None ==> r.first_affected == 0,
            r.next_index matches Some(n) ==> n == r.first_affected + r.affected_count && n < self.positions@.len(),
            r.next_index is None ==> r.first_affected + r.affected_count == self.positions@.len(),
    {
        reveal(affected_spec);
        let nb = self.positions_before(change_range);
        let na = self.positions_touching(change_range, nb);
        let len = self.positions.len();
        let prev_index: Option<usize> = if nb > 0 { Some(nb - 1) } else { None };
        let next_index: Option<usize> = if nb + na < len { Some(nb + na) } else { None };
        let mut start = change_range.start;
        let mut end = size_min(change_range.end, content_size);
        if na > 0 {
            start = size_min(start, self.positions[nb].1.start);
            end = size_max(end, self.positions[nb + na - 1].1.end);
        }
        if na == 0 && prev_index.is_none() {
            start = 0;
        }
        if na == 0 && next_index.is_none() {
            end = content_size;
        }
        let first = match prev_index {
            Some(p) => self.positions[p].1.start,
            None => start,
        };
        let mut last = match next_index {
            Some(n) => self.positions[n].1.end,
            None => end,
        };
        let is_trim = change_range.start >= content_size;
        if is_addition {
            end = size_add(end, diff_size);
            last = size_add(last, diff_size);
        } else if !is_trim {
            end = size_sub(end, diff_size);
            last = size_sub(last, diff_size);
        }
        if na == 0 && next_index.is_none() {
            end = content_size;
            last = content_size;
        }
        let e = size_min(end, content_size);
        let f = size_min(first, content_size);
        Affected {
            affected_range: TextRange { start: size_min(start, e), end: e },
            first_affected: nb,
            affected_count: na,
            prev_index,
            next_index,
            full_affected_range: TextRange { start: f, end: size_max(size_min(last, content_size), f) },
        }
    }
}


/// Spans in order are also pairwise in order.
pub proof fn lemma_ranges_ordered(rs: Seq<TextRange>, len: int, i: int, j: int)
    requires
        ranges_wf(rs, len),
        0 <= i < j < rs.len(),
    ensures
        rs[i].end <= rs[j].start,
    decreases j - i,
{
    if j > i + 1 {
        lemma_ranges_ordered(rs, len, i + 1, j);
        assert(rs[i + 1].within(len));
    }
}

/// Well-formed spans stay well formed inside a larger text.
proof fn lemma_ranges_wider(rs: Seq<TextRange>, len: int, wider: int)
    requires
        ranges_wf(rs, len),
        len <= wider,
    ensures
        ranges_wf(rs, wider),
{
    assert forall|i: int| 0 <= i < rs.len() implies (#[trigger] rs[i]).within(wider) by {
        assert(rs[i].within(len));
    }
}

/// Checks that spans are in order and inside a text of `len` bytes.
pub fn ranges_valid(rs: &Vec<TextRange>, len: TextSize) -> (r: bool)
    ensures
        r == ranges_wf(rs@, len as int),
{
    let mut k: usize = 0;
    while k < rs.len()
        invariant
            0 <= k <= rs@.len(),
            forall|i: int| 0 <= i < k ==> (#[trigger] rs@[i]).within(len as int),
            forall|i: int| 0 <= i < k - 1 ==> (#[trigger] rs@[i]).end <= rs@[i + 1].start,
        decreases rs@.len() - k,
    {
        let r = rs[k];
        if !(r.start <= r.end && r.end <= len) {
            assert(!rs@[k as int].within(len as int));
            return false;
        }
        if k > 0 && rs[k - 1].end > r.start {
            assert(!(rs@[k - 1].end <= rs@[k - 1 + 1].start));
            return false;
        }
        k = k + 1;
    }
    true
}

/// Checks that the spans of `ps` are in order, inside `text`, and at its
/// character boundaries.
fn positions_valid(ps: &Vec<Position>, text: &str) -> (r: bool)
    requires
        utf8(text@).len() <= u32::MAX,
    ensures
        r == spans_ok(ranges_of(ps@), utf8(text@)),
{
    let len = byte_len(text) as TextSize;
    let ghost rs = ranges_of(ps@);
    let mut k: usize = 0;
    while k < ps.len()
        invariant
            rs == ranges_of(ps@),
            len == utf8(text@).len(),
            0 <= k <= ps@.len(),
            forall|i: int| 0 <= i < k ==> (#[trigger] rs[i]).within(len as int),
            forall|i: int| 0 <= i < k - 1 ==> (#[trigger] rs[i]).end <= rs[i + 1].start,
            forall|i: int| 0 <= i < k ==> on_char(utf8(text@), (#[trigger] rs[i]).start + 0) && on_char(utf8(text@), rs[i].end + 0),
        decreases ps@.len() - k,
    {
        let r = ps[k].1;
        if !(r.start <= r.end && r.end <= len) {
            assert(!rs[k as int].within(len as int));
            return false;
        }
        if k > 0 && ps[k - 1].1.end > r.start {
            assert(!(rs[k - 1].end <= rs[k - 1 + 1].start));
            return false;
        }
        if !at_char(text, r.start as usize) || !at_char(text, r.end as usize) {
            assert(!(on_char(utf8(text@), rs[k as int].start + 0) && on_char(utf8(text@), rs[k as int].end + 0)));
            return false;
        }
        k = k + 1;
    }
    true
}

/// The position moved by the size `d` of an edit, right where it adds text.
pub open spec fn shift_pos(p: Position, d: TextSize, add: bool) -> Position {
    (p.0, if add { p.1.spec_shift_right(d) } else { p.1.spec_shift_left(d) })
}

pub open spec fn shift_all(ps: Seq<Position>, d: TextSize, add: bool) -> Seq<Position> {
    ps.map_values(|p: Position| shift_pos(p, d, add))
}

/// New statements for the spans `rs`, found at `offset`, with the
/// identities that follow `base` in order.
pub open spec fn fresh_positions(rs: Seq<TextRange>, offset: TextSize, base: u64) -> Seq<Position> {
    Seq::new(rs.len(), |k: int| (StatementId::Root((base + k) as u64), rs[k].spec_shift_right(offset)))
}

/// The statements `ps[lo..hi]` replaced by new ones for `rs` at `offset`,
/// and those after them moved by the size of the edit.
pub open spec fn spliced(ps: Seq<Position>, lo: int, hi: int, rs: Seq<TextRange>, offset: TextSize, base: u64, d: TextSize, add: bool) -> Seq<Position> {
    ps.subrange(0, lo) + fresh_positions(rs, offset, base) + shift_all(ps.subrange(hi, ps.len() as int), d, add)
}

pub open spec fn text_of(content: Seq<u8>, r: TextRange) -> Seq<u8> {
    content.subrange(r.start as int, r.end as int)
}

/// `cs` reports each of `ps` as added, with its text in `content`.
pub open spec fn reports_added(cs: Seq<StatementChange>, ps: Seq<Position>, content: Seq<u8>) -> bool {
    &&& cs.len() == ps.len()
    &&& forall|k: int| 0 <= k < cs.len() ==> (#[trigger] cs[k] matches StatementChange::Added(a) && a.stmt == ps[k].0 && utf8(a.text@) == text_of(content, ps[k].1))
}

/// `cs` reports each of `ps` as deleted, in order.
pub open spec fn reports_deleted(cs: Seq<StatementChange>, ps: Seq<Position>) -> bool {
    &&& cs.len() == ps.len()
    &&& forall|k: int| 0 <= k < cs.len() ==> #[trigger] cs[k] == StatementChange::Deleted(ps[k].0)
}

/// The identities that a change speaks of.
pub open spec fn change_ids(c: StatementChange) -> Set<StatementId> {
    match c {
        StatementChange::Added(a) => set![a.stmt],
        StatementChange::Deleted(id) => set![id],
        StatementChange::Modified(m) => set![m.old_stmt, m.new_stmt],
    }
}

/// A modified statement changes identity, and no identity is named by two
/// changes.
pub open spec fn changes_coherent(cs: Seq<StatementChange>) -> bool {
    &&& forall|i: int| 0 <= i < cs.len() ==> (#[trigger] cs[i] matches StatementChange::Modified(m) ==> m.old_stmt != m.new_stmt)
    &&& forall|i: int, j: int| 0 <= i < cs.len() && 0 <= j < cs.len() && i != j ==> (#[trigger] change_ids(cs[i])).disjoint(#[trigger] change_ids(cs[j]))
}

/// Appends `ps[from..to]`, each moved by the size `d` of an edit.
fn push_shifted(ps: &Vec<Position>, from: usize, to: usize, d: TextSize, add: bool, out: &mut Vec<Position>)
    requires
        from <= to <= ps@.len(),
    ensures
        final(out)@ == old(out)@ + shift_all(ps@.subrange(from as int, to as int), d, add),
{
    let mut k = from;
    while k < to
        invariant
            from <= k <= to <= ps@.len(),
            out@ == old(out)@ + shift_all(ps@.subrange(from as int, k as int), d, add),
        decreases to - k,
    {
        let (id, r) = ps[k];
        let moved = if add { r.shift_right(d) } else { r.shift_left(d) };
        out.push((id, moved));
        proof {
            assert(shift_all(ps@.subrange(from as int, k + 1), d, add) =~= shift_all(ps@.subrange(from as int, k as int), d, add).push(shift_pos(ps@[k as int], d, add)));
        }
        k = k + 1;
    }
}

/// Appends a new statement for each span of `rs` found at `offset` of
/// `content`, with identities from `base` on, and reports each as added.
fn push_fresh(rs: &Vec<TextRange>, offset: TextSize, base: u64, content: &str, out: &mut Vec<Position>, changes: &mut Vec<StatementChange>)
    requires
        base + rs@.len() < u64::MAX,
        spans_on_chars(rs@, offset as int, utf8(content@)),
        utf8(content@).len() <= u32::MAX,
        forall|k: int| 0 <= k < rs@.len() ==> (#[trigger] rs@[k]).spec_shift_right(offset).within(utf8(content@).len() as int),
    ensures
        final(out)@ == old(out)@ + fresh_positions(rs@, offset, base),
        final(changes)@.len() == old(changes)@.len() + rs@.len(),
        final(changes)@.subrange(0, old(changes)@.len() as int) == old(changes)@,
        reports_added(final(changes)@.subrange(old(changes)@.len() as int, final(changes)@.len() as int), fresh_positions(rs@, offset, base), utf8(content@)),
{
    let ghost out0 = out@;
    let ghost ch0 = changes@;
    let ghost fresh = fresh_positions(rs@, offset, base);
    let mut k: usize = 0;
    while k < rs.len()
        invariant
            0 <= k <= rs@.len(),
            base + rs@.len() < u64::MAX,
            spans_on_chars(rs@, offset as int, utf8(content@)),
            utf8(content@).len() <= u32::MAX,
            fresh == fresh_positions(rs@, offset, base),
            forall|j: int| 0 <= j < rs@.len() ==> (#[trigger] rs@[j]).spec_shift_right(offset).within(utf8(content@).len() as int),
            out@ == out0 + fresh.subrange(0, k as int),
            changes@.len() == ch0.len() + k,
            changes@.subrange(0, ch0.len() as int) == ch0,
            reports_added(changes@.subrange(ch0.len() as int, changes@.len() as int), fresh.subrange(0, k as int), utf8(content@)),
        decreases rs@.len() - k,
    {
        let r = rs[k].shift_right(offset);
        assert(rs@[k as int].spec_shift_right(offset).within(utf8(content@).len() as int));
        proof {
            lemma_utf8_valid(content@);
            lemma_boundary_in(utf8(content@), rs@[k as int].start + offset);
            lemma_boundary_in(utf8(content@), rs@[k as int].end + offset);
            assert(r.start == rs@[k as int].start + offset && r.end == rs@[k as int].end + offset);
        }
        let id = StatementId::Root(base + k as u64);
        let text = slice(content, r.start as usize, r.end as usize);
        out.push((id, r));
        let ghost before = changes@;
        changes.push(StatementChange::Added(AddedStatement { stmt: id, text }));
        proof {
            assert(fresh[k as int] == (id, r));
            assert(fresh.subrange(0, k + 1) =~= fresh.subrange(0, k as int).push((id, r)));
            assert(changes@.subrange(0, ch0.len() as int) =~= before.subrange(0, ch0.len() as int));
            let added = changes@.subrange(ch0.len() as int, changes@.len() as int);
            let prev = before.subrange(ch0.len() as int, before.len() as int);
            assert(added =~= prev.push(changes@.last()));
            assert forall|j: int| 0 <= j < added.len() implies (#[trigger] added[j] matches StatementChange::Added(a) && a.stmt == fresh.subrange(0, k + 1)[j].0 && utf8(a.text@) == text_of(utf8(content@), fresh.subrange(0, k + 1)[j].1)) by {
                if j < k {
                    assert(added[j] == prev[j]);
                }
            }
        }
        k = k + 1;
    }
    proof {
        assert(fresh.subrange(0, rs@.len() as int) =~= fresh);
    }
}

/// A deletion for each of `ps[from..to]`, the last first.
fn deleted_reversed(ps: &Vec<Position>, from: usize, to: usize) -> (r: Vec<StatementChange>)
    requires
        from <= to <= ps@.len(),
    ensures
        r@.len() == to - from,
        forall|k: int| 0 <= k < to - from ==> #[trigger] r@[k] == StatementChange::Deleted(ps@[to - 1 - k].0),
{
    let mut changes: Vec<StatementChange> = Vec::new();
    let mut k = to;
    while k > from
        invariant
            from <= k <= to <= ps@.len(),
            changes@.len() == to - k,
            forall|j: int| 0 <= j < to - k ==> #[trigger] changes@[j] == StatementChange::Deleted(ps@[to - 1 - j].0),
        decreases k - from,
    {
        changes.push(StatementChange::Deleted(ps[k - 1].0));
        k = k - 1;
    }
    changes
}

/// Fresh identities are distinct, and differ from those issued before.
proof fn lemma_fresh_ids(rs: Seq<TextRange>, offset: TextSize, base: u64)
    requires
        base + rs.len() < u64::MAX,
    ensures
        ids_wf(fresh_positions(rs, offset, base), (base + rs.len()) as u64),
        forall|k: int| 0 <= k < rs.len() ==> (#[trigger] fresh_positions(rs, offset, base)[k]).0 == StatementId::Root((base + k) as u64),
{
}

/// Replacing a block of statements by fresh ones keeps the identities
/// distinct.
proof fn lemma_spliced_ids(ps: Seq<Position>, lo: int, hi: int, rs: Seq<TextRange>, offset: TextSize, base: u64, d: TextSize, add: bool)
    requires
        ids_wf(ps, base),
        0 <= lo <= hi <= ps.len(),
        base + rs.len() < u64::MAX,
    ensures
        ids_wf(spliced(ps, lo, hi, rs, offset, base, d, add), (base + rs.len()) as u64),
{
    let sp = spliced(ps, lo, hi, rs, offset, base, d, add);
    let fresh = fresh_positions(rs, offset, base);
    let n1 = lo;
    let n2 = lo + rs.len();
    assert(sp.len() == n2 + (ps.len() - hi));
    assert forall|i: int| 0 <= i < sp.len() implies
        (if i < n1 { sp[i] == ps[i] } else if i < n2 { sp[i] == fresh[i - n1] } else { sp[i].0 == ps[i - n2 + hi].0 }) by {
    }
    assert forall|i: int| 0 <= i < sp.len() implies ((#[trigger] sp[i]).0 matches StatementId::Root(n) && n < base + rs.len()) by {
        if i < n1 {
            assert(ps[i].0 matches StatementId::Root(n) && n < base);
        } else if i < n2 {
        } else {
            assert(ps[i - n2 + hi].0 matches StatementId::Root(n) && n < base);
        }
    }
    assert forall|i: int, j: int| 0 <= i < sp.len() && 0 <= j < sp.len() && i != j implies (#[trigger] sp[i]).0 != (#[trigger] sp[j]).0 by {
        let oi = if i < n1 { i } else { i - n2 + hi };
        let oj = if j < n1 { j } else { j - n2 + hi };
        if n1 <= i < n2 {
            if !(n1 <= j < n2) {
                assert(ps[oj].0 matches StatementId::Root(n) && n < base);
            }
        } else if n1 <= j < n2 {
            assert(ps[oi].0 matches StatementId::Root(n) && n < base);
        } else {
            assert(ps[oi].0 != ps[oj].0);
        }
    }
}

/// A list of changes that deletes statements with distinct identities issued
/// before `base`, then adds statements with the identities that follow
/// `base`, is coherent.
proof fn lemma_deletions_then_additions(cs: Seq<StatementChange>, nd: int, base: u64)
    requires
        0 <= nd <= cs.len(),
        forall|i: int| 0 <= i < nd ==> (#[trigger] cs[i] matches StatementChange::Deleted(id) && (id matches StatementId::Root(n) && n < base)),
        forall|i: int, j: int| 0 <= i < nd && 0 <= j < nd && i != j ==> #[trigger] cs[i] != #[trigger] cs[j],
        forall|i: int| nd <= i < cs.len() ==> (#[trigger] cs[i] matches StatementChange::Added(a) && a.stmt == StatementId::Root((base + i - nd) as u64)),
        base + (cs.len() - nd) <= u64::MAX,
    ensures
        changes_coherent(cs),
{
    assert forall|i: int, j: int| 0 <= i < cs.len() && 0 <= j < cs.len() && i != j implies (#[trigger] change_ids(cs[i])).disjoint(#[trigger] change_ids(cs[j])) by {
        if i < nd && j < nd {
            assert(cs[i] != cs[j]);
        } else if i < nd {
        } else if j < nd {
        } else {
        }
    }
}

impl Document {
    /// A document for `content`, where the splitter found `outcome`. A failed
    /// or inconsistent split leaves it without statements.
    pub fn new(content: String, version: i32, outcome: SplitOutcome) -> (r: Document)
        requires
            utf8(content@).len() <= u32::MAX,
            outcome.ranges@.len() < u64::MAX,
        ensures
            r.wf(),
            utf8(r.content@) == utf8(content@),
            r.version == version,
            r.pending is None,
            kept_diagnostics(r.diagnostics@, outcome),
            has_fatal(r.diagnostics@) == (has_fatal(outcome.diagnostics@) || !ranges_wf(outcome.ranges@, utf8(content@).len() as int)
                || !spans_on_chars(outcome.ranges@, 0, utf8(content@))),
            !has_fatal(r.diagnostics@) ==> r.positions@ == fresh_positions(outcome.ranges@, 0, 0),
            has_fatal(r.diagnostics@) ==> r.positions@.len() == 0,
            r.id_generator.next_id == (if has_fatal(r.diagnostics@) { 0 } else { outcome.ranges@.len() }),
    {
        let len = byte_len(content.as_str()) as TextSize;
        let valid = ranges_valid(&outcome.ranges, len) && spans_land(&outcome.ranges, 0, content.as_str());
        let ok = valid && !any_fatal(&outcome.diagnostics);
        let mut positions: Vec<Position> = Vec::new();
        let mut next_id: u64 = 0;
        if ok {
            let mut reported: Vec<StatementChange> = Vec::new();
            proof {
                assert forall|k: int| 0 <= k < outcome.ranges@.len() implies (#[trigger] outcome.ranges@[k]).spec_shift_right(0).within(utf8(content@).len() as int) by {
                    assert(outcome.ranges@[k].within(len as int));
                }
            }
            push_fresh(&outcome.ranges, 0, 0, content.as_str(), &mut positions, &mut reported);
            next_id = outcome.ranges.len() as u64;
            proof {
                assert(positions@ =~= fresh_positions(outcome.ranges@, 0, 0));
                lemma_fresh_ids(outcome.ranges@, 0, 0);
                assert(ranges_of(positions@) =~= outcome.ranges@);
            }
        }
        Document {
            content,
            version,
            positions,
            diagnostics: diagnostics_after(outcome, valid),
            id_generator: IdGenerator { next_id },
            pending: None,
        }
    }

    /// Whether the last split reported a fatal error.
    pub fn has_fatal_error(&self) -> (r: bool)
        ensures
            r == has_fatal(self.diagnostics@),
    {
        any_fatal(&self.diagnostics)
    }

    /// Drops the diagnostics, whose ranges an edit may invalidate.
    pub fn clear_diagnostics(&mut self)
        ensures
            final(self).diagnostics@.len() == 0,
            final(self).version == old(self).version,
            final(self).content == old(self).content,
            final(self).positions == old(self).positions,
            final(self).id_generator == old(self).id_generator,
            final(self).pending == old(self).pending,
    {
        self.diagnostics = Vec::new();
    }

    /// Stamps the document with the editor's version.
    pub fn set_version(&mut self, version: i32)
        ensures
            final(self).version == version,
            final(self).content == old(self).content,
            final(self).positions == old(self).positions,
            final(self).diagnostics == old(self).diagnostics,
            final(self).id_generator == old(self).id_generator,
            final(self).pending == old(self).pending,
    {
        self.version = version;
    }

    /// Removes all statements and reports each as deleted, in order.
    fn drain_positions(&mut self) -> (r: Vec<StatementChange>)
        ensures
            final(self).positions@.len() == 0,
            reports_deleted(r@, old(self).positions@),
            final(self).content == old(self).content,
            final(self).version == old(self).version,
            final(self).diagnostics == old(self).diagnostics,
            final(self).id_generator == old(self).id_generator,
            final(self).pending == old(self).pending,
    {
        let mut r: Vec<StatementChange> = Vec::new();
        let mut k: usize = 0;
        while k < self.positions.len()
            invariant
                0 <= k <= self.positions@.len(),
                self.positions@ == old(self).positions@,
                r@.len() == k,
                forall|j: int| 0 <= j < k ==> #[trigger] r@[j] == StatementChange::Deleted(self.positions@[j].0),
            decreases self.positions@.len() - k,
        {
            r.push(StatementChange::Deleted(self.positions[k].0));
            k = k + 1;
        }
        self.positions = Vec::new();
        r
    }

    /// The pending state of an edit that replaces the whole text.
    fn plan_full_replace(&self, change: &ChangeParams) -> (r: (PendingEdit, String))
        requires
            change.range is None,
            change.sizes_fit(),
        ensures
            r.0.fits(self.positions@, self.content@),
            r.0.change.range == change.range,
            r.0.change.text@ == change.text@,
            r.0.scope == SplitScope::Whole,
            utf8(r.1@) == text_of(utf8(r.0.new_content@), r.0.region),
    {
        let new_content = change.text.clone();
        let new_len = byte_len(new_content.as_str()) as TextSize;
        let region = TextRange { start: 0, end: new_len };
        proof {
            lemma_utf8_valid(new_content@);
            is_char_boundary_start_end_of_seq(utf8(new_content@));
        }
        let text = slice(new_content.as_str(), 0, new_len as usize);
        let affected = Affected {
            affected_range: region,
            first_affected: 0,
            affected_count: self.positions.len(),
            prev_index: None,
            next_index: None,
            full_affected_range: region,
        };
        let p = PendingEdit { change: change.duplicate(), new_content, affected, scope: SplitScope::Whole, region };
        assert(utf8(p.new_content@) == edited(self.content@, p.change));
        (p, text)
    }

    /// The pending state of an edit of a range.
    #[verifier::rlimit(40)]
    #[verifier::spinoff_prover]
    fn plan_range_edit(&self, change: &ChangeParams) -> (r: (PendingEdit, String))
        requires
            self.wf(),
            change.range is Some,
            change.sizes_fit(),
            change.applies_to(self.content@),
            utf8(self.content@).len() + change.text_len() <= u32::MAX,
        ensures
            r.0.fits(self.positions@, self.content@),
            r.0.change.range == change.range,
            r.0.change.text@ == change.text@,
            utf8(r.1@) == text_of(utf8(r.0.new_content@), r.0.region),
            r.0.affected == affected_spec(self.positions@, change.range->0, utf8(r.0.new_content@).len() as TextSize, change.spec_diff_size() as TextSize, change.spec_is_addition(), r.0.affected.first_affected as int, r.0.affected.affected_count as int),
            count_before(self.positions@, change.range->0, r.0.affected.first_affected as int),
            count_touching(self.positions@, change.range->0, r.0.affected.first_affected as int, r.0.affected.affected_count as int),
            r.0.scope == r.0.planned_scope(),
    {
        let c = change.range.unwrap();
        let len = byte_len(self.content.as_str()) as TextSize;
        let new_content = change.apply_to_text(self.content.as_str());
        let new_len = byte_len(new_content.as_str()) as TextSize;
        proof {
            lemma_ranges_wider(ranges_of(self.positions@), len as int, u32::MAX as int);
        }
        let affected = self.get_affected(c, new_len, change.diff_size(), change.is_addition());
        let planned = if affected.affected_count == 1 { affected.affected_range } else { affected.full_affected_range };
        proof {
            lemma_utf8_valid(new_content@);
            is_char_boundary_start_end_of_seq(utf8(new_content@));
        }
        let (scope, region) = if at_char(new_content.as_str(), planned.start as usize) && at_char(new_content.as_str(), planned.end as usize) {
            (if affected.affected_count == 1 { SplitScope::Statement } else { SplitScope::Neighbourhood }, planned)
        } else {
            (SplitScope::Whole, TextRange { start: 0, end: new_len })
        };
        let text = slice(new_content.as_str(), region.start as usize, region.end as usize);
        let p = PendingEdit { change: change.duplicate(), new_content, affected, scope, region };
        assert(utf8(p.new_content@) == edited(self.content@, p.change));
        (p, text)
    }

    /// Starts an edit. The document stays as it is until the splitter's
    /// outcome for the returned text comes back through `resume_change`.
    ///
    /// An edit without a range replaces the whole text, which is then split
    /// whole. An edit that touches exactly one statement first splits that
    /// statement alone; any other edit splits the statements that it touches
    /// together with their neighbours. An edit strictly inside one statement
    /// touches that statement alone. An edit still under way is dropped.
    pub fn begin_change(&mut self, change: &ChangeParams) -> (r: String)
        requires
            old(self).wf(),
            change.sizes_fit(),
            change.applies_to(old(self).content@),
            utf8(old(self).content@).len() + change.text_len() <= u32::MAX,
        ensures
            final(self).wf(),
            final(self).content == old(self).content,
            final(self).positions == old(self).positions,
            final(self).version == old(self).version,
            final(self).diagnostics == old(self).diagnostics,
            final(self).id_generator == old(self).id_generator,
            final(self).pending matches Some(p) && {
                &&& p.change.range == change.range
                &&& p.change.text@ == change.text@
                &&& utf8(p.new_content@) == edited(old(self).content@, *change)
                &&& utf8(r@) == text_of(utf8(p.new_content@), p.region)
                &&& change.range is None ==> p.scope == SplitScope::Whole
                &&& change.range matches Some(c) ==> {
                    &&& p.affected == affected_spec(old(self).positions@, c, utf8(p.new_content@).len() as TextSize, change.spec_diff_size() as TextSize, change.spec_is_addition(), p.affected.first_affected as int, p.affected.affected_count as int)
                    &&& count_before(old(self).positions@, c, p.affected.first_affected as int)
                    &&& count_touching(old(self).positions@, c, p.affected.first_affected as int, p.affected.affected_count as int)
                    &&& p.scope == p.planned_scope()
                    &&& forall|i: int| 0 <= i < old(self).positions@.len() && strictly_inside(c, (#[trigger] old(self).positions@[i]).1) ==> p.affected.affected_count == 1 && p.affected.first_affected == i
                }
            },
    {
        let (p, text) = if change.range.is_none() {
            self.plan_full_replace(change)
        } else {
            self.plan_range_edit(change)
        };
        proof {
            if let Some(c) = change.range {
                assert forall|i: int| 0 <= i < self.positions@.len() && strictly_inside(c, (#[trigger] self.positions@[i]).1) implies p.affected.affected_count == 1 && p.affected.first_affected == i by {
                    lemma_inside_one(self.positions@, utf8(self.content@).len() as int, c, i, p.affected.first_affected as int, p.affected.affected_count as int);
                }
            }
        }
        self.pending = Some(p);
        text
    }
}

/// An edit strictly inside one statement touches that statement alone.
proof fn lemma_inside_one(ps: Seq<Position>, len: int, c: TextRange, i: int, nb: int, na: int)
    requires
        ranges_wf(ranges_of(ps), len),
        0 <= i < ps.len(),
        c.wf(),
        strictly_inside(c, ps[i].1),
        count_before(ps, c, nb),
        count_touching(ps, c, nb, na),
    ensures
        nb == i,
        na == 1,
{
    let rs = ranges_of(ps);
    assert(rs[i] == ps[i].1);
    assert forall|j: int| 0 <= j < i implies (#[trigger] ps[j]).1.end < c.start by {
        lemma_ranges_ordered(rs, len, j, i);
        assert(rs[j] == ps[j].1);
    }
    if nb < i {
        assert(ps[nb].1.end < c.start);
    }
    if nb > i {
        assert(ps[i].1.end < c.start);
    }
    assert(ps[i].1.spec_intersects(c));
    if na == 0 {
        assert(!ps[nb].1.spec_intersects(c));
    }
    if na > 1 {
        lemma_ranges_ordered(rs, len, i, i + 1);
        assert(rs[i + 1] == ps[i + 1].1);
        assert(ps[i + 1].1.spec_intersects(c));
    }
}


/// Appends `ps[from..to]` as they are.
fn push_copied(ps: &Vec<Position>, from: usize, to: usize, out: &mut Vec<Position>)
    requires
        from <= to <= ps@.len(),
    ensures
        final(out)@ == old(out)@ + ps@.subrange(from as int, to as int),
{
    let mut k = from;
    while k < to
        invariant
            from <= k <= to <= ps@.len(),
            out@ == old(out)@ + ps@.subrange(from as int, k as int),
        decreases to - k,
    {
        out.push(ps[k]);
        proof {
            assert(ps@.subrange(from as int, k + 1) =~= ps@.subrange(from as int, k as int).push(ps@[k as int]));
        }
        k = k + 1;
    }
}

/// The splitter failed on the region, or reported spans that are out of
/// order or outside it.
pub open spec fn split_failed(p: PendingEdit, o: SplitOutcome) -> bool {
    has_fatal(o.diagnostics@) || !ranges_wf(o.ranges@, p.region.spec_len() as int)
        || !spans_on_chars(o.ranges@, p.region.start as int, utf8(p.new_content@))
}

/// The edit `p`, now splitting `region` of the new text.
pub open spec fn rescoped(p: PendingEdit, scope: SplitScope, region: TextRange) -> PendingEdit {
    PendingEdit { change: p.change, new_content: p.new_content, affected: p.affected, scope, region }
}

/// The whole of the new text, as a region.
pub open spec fn whole_region(p: PendingEdit) -> TextRange {
    TextRange { start: 0, end: utf8(p.new_content@).len() as TextSize }
}

/// The statements after an edit that replaces `ps[lo..hi]` with what the
/// splitter found in the region of `p`.
pub open spec fn candidate(p: PendingEdit, ps: Seq<Position>, lo: int, hi: int, o: SplitOutcome, base: u64) -> Seq<Position> {
    spliced(ps, lo, hi, o.ranges@, p.region.start, base, p.change.spec_diff_size() as TextSize, p.change.spec_is_addition())
}

/// The range of an edit, relative to the start of the statement at `start`;
/// where the edit begins before it, the edit's own extent from zero.
pub open spec fn relative_change(c: TextRange, start: TextSize) -> TextRange {
    if start <= c.start {
        TextRange { start: (c.start - start) as TextSize, end: (c.end - start) as TextSize }
    } else {
        TextRange { start: 0, end: (c.end - c.start) as TextSize }
    }
}

/// Reporting deleted statements with distinct identities issued before
/// `base`, then statements added with the identities from `base` on, is
/// coherent.
proof fn lemma_report_coherent(cs: Seq<StatementChange>, nd: int, ps: Seq<Position>, base: u64)
    requires
        0 <= nd <= cs.len(),
        ids_wf(ps, base),
        forall|i: int| 0 <= i < nd ==> exists|k: int| 0 <= k < ps.len() && #[trigger] cs[i] == StatementChange::Deleted(ps[k].0),
        forall|i: int, j: int| 0 <= i < nd && 0 <= j < nd && i != j ==> #[trigger] cs[i] != #[trigger] cs[j],
        forall|i: int| nd <= i < cs.len() ==> (#[trigger] cs[i] matches StatementChange::Added(a) && a.stmt == StatementId::Root((base + i - nd) as u64)),
        base + (cs.len() - nd) <= u64::MAX,
    ensures
        changes_coherent(cs),
{
    assert forall|i: int| 0 <= i < nd implies (#[trigger] cs[i] matches StatementChange::Deleted(id) && (id matches StatementId::Root(n) && n < base)) by {
        let k = choose|k: int| 0 <= k < ps.len() && cs[i] == StatementChange::Deleted(ps[k].0);
        assert(ps[k].0 matches StatementId::Root(n) && n < base);
    }
    lemma_deletions_then_additions(cs, nd, base);
}


/// The statements are replaced by the new ones that the splitter found, and
/// those after them move by the size of the edit; where that would leave
/// them out of order, the whole text is split next. `lo..hi` are the
/// replaced statements; they are reported deleted, the last first.
pub open spec fn replaced_step(d0: Document, p: PendingEdit, o: SplitOutcome, lo: int, hi: int, d1: Document, r: ChangeStep) -> bool {
    let ps = d0.positions@;
    let base = d0.id_generator.next_id;
    let cand = candidate(p, ps, lo, hi, o, base);
    &&& d1.wf()
    &&& d1.version == d0.version
    &&& spans_ok(ranges_of(cand), utf8(p.new_content@)) ==> (r matches ChangeStep::Finished(cs) && {
        &&& d1.pending is None
        &&& d1.diagnostics@ == o.diagnostics@
        &&& utf8(d1.content@) == utf8(p.new_content@)
        &&& d1.positions@ == cand
        &&& d1.id_generator.next_id == base + o.ranges@.len()
        &&& changes_coherent(cs@)
    })
    &&& !spans_ok(ranges_of(cand), utf8(p.new_content@)) ==> widened_step(d0, p, SplitScope::Whole, whole_region(p), d1, r)
}

/// The edit goes back to the splitter over `region`; nothing else changes.
pub open spec fn widened_step(d0: Document, p: PendingEdit, scope: SplitScope, region: TextRange, d1: Document, r: ChangeStep) -> bool {
    &&& d1.wf()
    &&& r matches ChangeStep::Split(t) && utf8(t@) == text_of(utf8(p.new_content@), region)
    &&& d1.pending == Some(rescoped(p, scope, region))
    &&& d1.positions == d0.positions
    &&& d1.content == d0.content
    &&& d1.diagnostics == d0.diagnostics
    &&& d1.version == d0.version
    &&& d1.id_generator == d0.id_generator
}

/// An edit inside one statement that stays one statement: it is reported as
/// modified, with a new identity.
pub open spec fn statement_step(d0: Document, p: PendingEdit, o: SplitOutcome, d1: Document, r: ChangeStep) -> bool {
    let ps = d0.positions@;
    let i = p.affected.first_affected as int;
    let base = d0.id_generator.next_id;
    &&& replaced_step(d0, p, o, i, i + 1, d1, r)
    &&& r matches ChangeStep::Finished(cs) ==> {
        &&& cs@.len() == 1
        &&& cs@[0] matches StatementChange::Modified(m) && {
            &&& m.old_stmt == ps[i].0
            &&& utf8(m.old_stmt_text@) == text_of(utf8(d0.content@), ps[i].1)
            &&& m.new_stmt == StatementId::Root(base)
            &&& utf8(m.new_stmt_text@) == text_of(utf8(p.new_content@), d1.positions@[i].1)
            &&& m.change_range == relative_change(p.change.range->0, ps[i].1.start)
            &&& m.change_text@ == p.change.text@
        }
    }
}

/// An edit of the statements around a change: the previous statement, those
/// that the edit touches and the next one are deleted, and the statements
/// that the splitter found there are added.
pub open spec fn neighbourhood_step(d0: Document, p: PendingEdit, o: SplitOutcome, d1: Document, r: ChangeStep) -> bool {
    let ps = d0.positions@;
    let lo = p.block_start();
    let hi = p.block_end();
    let base = d0.id_generator.next_id;
    &&& replaced_step(d0, p, o, lo, hi, d1, r)
    &&& r matches ChangeStep::Finished(cs) ==> {
        &&& cs@.len() == (hi - lo) + o.ranges@.len()
        &&& forall|k: int| 0 <= k < hi - lo ==> #[trigger] cs@[k] == StatementChange::Deleted(ps[hi - 1 - k].0)
        &&& reports_added(cs@.subrange(hi - lo, cs@.len() as int), fresh_positions(o.ranges@, p.region.start, base), utf8(p.new_content@))
    }
}

/// An edit of the whole text: every statement is deleted, in order, and one
/// is added for each span that the splitter found.
pub open spec fn whole_step(d0: Document, p: PendingEdit, o: SplitOutcome, d1: Document, r: ChangeStep) -> bool {
    let n = d0.positions@.len();
    &&& d1.wf()
    &&& d1.version == d0.version
    &&& d1.pending is None
    &&& d1.diagnostics@ == o.diagnostics@
    &&& utf8(d1.content@) == utf8(p.new_content@)
    &&& d1.positions@ == fresh_positions(o.ranges@, 0, d0.id_generator.next_id)
    &&& d1.id_generator.next_id == d0.id_generator.next_id + o.ranges@.len()
    &&& r matches ChangeStep::Finished(cs) && {
        &&& cs@.len() == n + o.ranges@.len()
        &&& reports_deleted(cs@.subrange(0, n as int), d0.positions@)
        &&& reports_added(cs@.subrange(n as int, cs@.len() as int), d1.positions@, utf8(p.new_content@))
        &&& changes_coherent(cs@)
    }
}

/// A failed split: every statement is deleted, in order, and the document
/// keeps the new text without statements.
pub open spec fn failed_step(d0: Document, p: PendingEdit, o: SplitOutcome, d1: Document, r: ChangeStep) -> bool {
    &&& d1.wf()
    &&& d1.version == d0.version
    &&& d1.pending is None
    &&& kept_diagnostics(d1.diagnostics@, o)
    &&& has_fatal(d1.diagnostics@)
    &&& d1.positions@.len() == 0
    &&& utf8(d1.content@) == utf8(p.new_content@)
    &&& d1.id_generator == d0.id_generator
    &&& r matches ChangeStep::Finished(cs) && reports_deleted(cs@, d0.positions@) && changes_coherent(cs@)
}

impl Document {
    /// Ends an edit whose split failed: the document keeps the new text and
    /// no statement.
    fn fail_edit(&mut self, p: PendingEdit, outcome: SplitOutcome, valid: bool) -> (r: Vec<StatementChange>)
        requires
            old(self).wf(),
            old(self).pending is None,
            p.fits(old(self).positions@, old(self).content@),
            valid == (ranges_wf(outcome.ranges@, p.region.spec_len() as int) && spans_on_chars(outcome.ranges@, p.region.start as int, utf8(p.new_content@))),
            split_failed(p, outcome),
        ensures
            final(self).wf(),
            final(self).pending is None,
            final(self).positions@.len() == 0,
            utf8(final(self).content@) == utf8(p.new_content@),
            kept_diagnostics(final(self).diagnostics@, outcome),
            has_fatal(final(self).diagnostics@),
            final(self).version == old(self).version,
            final(self).id_generator == old(self).id_generator,
            reports_deleted(r@, old(self).positions@),
            changes_coherent(r@),
    {
        let ghost ps = self.positions@;
        self.diagnostics = diagnostics_after(outcome, valid);
        let r = self.drain_positions();
        self.content = p.new_content;
        proof {
            assert forall|i: int| 0 <= i < r@.len() implies exists|k: int| 0 <= k < ps.len() && #[trigger] r@[i] == StatementChange::Deleted(ps[k].0) by {
                assert(r@[i] == StatementChange::Deleted(ps[i].0));
            }
            assert forall|i: int, j: int| 0 <= i < r@.len() && 0 <= j < r@.len() && i != j implies #[trigger] r@[i] != #[trigger] r@[j] by {
                assert(ps[i].0 != ps[j].0);
            }
            lemma_report_coherent(r@, r@.len() as int, ps, self.id_generator.next_id);
        }
        r
    }

    /// Hands the edit back to the splitter, over a wider region.
    fn widen_edit(&mut self, p: PendingEdit, scope: SplitScope, region: TextRange) -> (r: ChangeStep)
        requires
            old(self).wf(),
            old(self).pending is None,
            p.fits(old(self).positions@, old(self).content@),
            rescoped(p, scope, region).fits(old(self).positions@, old(self).content@),
        ensures
            final(self).wf(),
            final(self).pending == Some(rescoped(p, scope, region)),
            final(self).positions == old(self).positions,
            final(self).content == old(self).content,
            final(self).diagnostics == old(self).diagnostics,
            final(self).version == old(self).version,
            final(self).id_generator == old(self).id_generator,
            r matches ChangeStep::Split(t) && utf8(t@) == text_of(utf8(p.new_content@), region),
    {
        let text = slice(p.new_content.as_str(), region.start as usize, region.end as usize);
        self.pending = Some(PendingEdit { change: p.change, new_content: p.new_content, affected: p.affected, scope, region });
        ChangeStep::Split(text)
    }

    /// Ends an edit of the whole text: every statement is replaced.
    fn finish_whole(&mut self, p: PendingEdit, outcome: SplitOutcome) -> (r: Vec<StatementChange>)
        requires
            old(self).wf(),
            old(self).pending is None,
            p.fits(old(self).positions@, old(self).content@),
            p.scope == SplitScope::Whole,
            !split_failed(p, outcome),
            old(self).id_generator.has_room(outcome.ranges@.len() as int),
        ensures
            final(self).wf(),
            final(self).pending is None,
            final(self).diagnostics@ == outcome.diagnostics@,
            utf8(final(self).content@) == utf8(p.new_content@),
            final(self).version == old(self).version,
            final(self).positions@ == fresh_positions(outcome.ranges@, 0, old(self).id_generator.next_id),
            final(self).id_generator.next_id == old(self).id_generator.next_id + outcome.ranges@.len(),
            r@.len() == old(self).positions@.len() + outcome.ranges@.len(),
            reports_deleted(r@.subrange(0, old(self).positions@.len() as int), old(self).positions@),
            reports_added(r@.subrange(old(self).positions@.len() as int, r@.len() as int), final(self).positions@, utf8(p.new_content@)),
            changes_coherent(r@),
    {
        let ghost ps = self.positions@;
        let nd = self.positions.len();
        let mut changes = self.drain_positions();
        let base = self.id_generator.next_id;
        let mut fresh: Vec<Position> = Vec::new();
        proof {
            assert forall|k: int| 0 <= k < outcome.ranges@.len() implies (#[trigger] outcome.ranges@[k]).spec_shift_right(0).within(utf8(p.new_content@).len() as int) by {
                assert(outcome.ranges@[k].within(p.region.spec_len() as int));
            }
        }
        let ghost dels = changes@;
        push_fresh(&outcome.ranges, 0, base, p.new_content.as_str(), &mut fresh, &mut changes);
        self.id_generator.next_id = base + outcome.ranges.len() as u64;
        self.positions = fresh;
        self.content = p.new_content;
        self.diagnostics = outcome.diagnostics;
        proof {
            let f = fresh_positions(outcome.ranges@, 0, base);
            assert(self.positions@ =~= f);
            lemma_fresh_ids(outcome.ranges@, 0, base);
            assert(ranges_of(self.positions@) =~= outcome.ranges@);
            let cs = changes@;
            assert(cs.subrange(0, nd as int) == dels);
            assert forall|i: int| 0 <= i < nd implies exists|k: int| 0 <= k < ps.len() && #[trigger] cs[i] == StatementChange::Deleted(ps[k].0) by {
                assert(cs[i] == dels[i]);
            }
            assert forall|i: int, j: int| 0 <= i < nd && 0 <= j < nd && i != j implies #[trigger] cs[i] != #[trigger] cs[j] by {
                assert(cs[i] == dels[i]);
                assert(cs[j] == dels[j]);
                assert(ps[i].0 != ps[j].0);
            }
            let added = cs.subrange(nd as int, cs.len() as int);
            assert forall|i: int| nd <= i < cs.len() implies (#[trigger] cs[i] matches StatementChange::Added(a) && a.stmt == StatementId::Root((base + i - nd) as u64)) by {
                assert(cs[i] == added[i - nd]);
            }
            lemma_report_coherent(cs, nd as int, ps, base);
        }
        changes
    }
}


/// Spans found in a region lie, moved to its start, inside the text.
proof fn lemma_region_ranges(rs: Seq<TextRange>, region: TextRange, len: int)
    requires
        ranges_wf(rs, region.spec_len() as int),
        region.within(len),
    ensures
        forall|k: int| 0 <= k < rs.len() ==> (#[trigger] rs[k]).spec_shift_right(region.start).within(len),
{
    assert forall|k: int| 0 <= k < rs.len() implies (#[trigger] rs[k]).spec_shift_right(region.start).within(len) by {
        assert(rs[k].within(region.spec_len() as int));
    }
}

/// The statements `ps[lo..hi]` replaced by new ones for `rs` at `offset`,
/// those after them moved; and the report of the new ones.
fn build_spliced(ps: &Vec<Position>, lo: usize, hi: usize, rs: &Vec<TextRange>, offset: TextSize, base: u64, d: TextSize, add: bool, content: &str) -> (r: (Vec<Position>, Vec<StatementChange>))
    requires
        lo <= hi <= ps@.len(),
        base + rs@.len() < u64::MAX,
        forall|k: int| 0 <= k < rs@.len() ==> (#[trigger] rs@[k]).spec_shift_right(offset).within(utf8(content@).len() as int),
        spans_on_chars(rs@, offset as int, utf8(content@)),
        utf8(content@).len() <= u32::MAX,
    ensures
        r.0@ == spliced(ps@, lo as int, hi as int, rs@, offset, base, d, add),
        reports_added(r.1@, fresh_positions(rs@, offset, base), utf8(content@)),
{
    let mut out: Vec<Position> = Vec::new();
    let mut added: Vec<StatementChange> = Vec::new();
    push_copied(ps, 0, lo, &mut out);
    push_fresh(rs, offset, base, content, &mut out, &mut added);
    push_shifted(ps, hi, ps.len(), d, add, &mut out);
    proof {
        assert(out@ =~= spliced(ps@, lo as int, hi as int, rs@, offset, base, d, add));
        assert(added@.subrange(0, added@.len() as int) =~= added@);
    }
    (out, added)
}

impl Document {
    /// Ends an edit of the statements around a change: they are replaced by
    /// what the splitter found there, unless that would leave the statements
    /// out of order, in which case the whole text is split again.
    #[verifier::rlimit(100)]
    #[verifier::spinoff_prover]
    fn finish_neighbourhood(&mut self, p: PendingEdit, outcome: SplitOutcome) -> (r: ChangeStep)
        requires
            old(self).wf(),
            old(self).pending is None,
            p.fits(old(self).positions@, old(self).content@),
            p.scope == SplitScope::Neighbourhood,
            !split_failed(p, outcome),
            old(self).id_generator.has_room(outcome.ranges@.len() as int),
        ensures
            neighbourhood_step(*old(self), p, outcome, *final(self), r),
    {
        let ghost ps = self.positions@;
        assert(p.fits(self.positions@, self.content@));
        let lo = match p.affected.prev_index {
            Some(i) => i,
            None => p.affected.first_affected,
        };
        let count = self.positions.len();
        let hi = match p.affected.next_index {
            Some(n) => if n < count { n + 1 } else { count },
            None => if p.affected.first_affected + p.affected.affected_count <= count { p.affected.first_affected + p.affected.affected_count } else { count },
        };
        let base = self.id_generator.next_id;
        let new_len = byte_len(p.new_content.as_str()) as TextSize;
        proof {
            lemma_region_ranges(outcome.ranges@, p.region, utf8(p.new_content@).len() as int);
        }
        let (cand, added) = build_spliced(&self.positions, lo, hi, &outcome.ranges, p.region.start, base, p.change.diff_size(), p.change.is_addition(), p.new_content.as_str());
        if positions_valid(&cand, p.new_content.as_str()) {
            let mut changes = deleted_reversed(&self.positions, lo, hi);
            let ghost dels = changes@;
            let mut added = added;
            let ghost added_seq = added@;
            changes.append(&mut added);
            self.diagnostics = outcome.diagnostics;
            self.id_generator.next_id = base + outcome.ranges.len() as u64;
            self.positions = cand;
            self.content = p.new_content;
            proof {
                lemma_spliced_ids(ps, lo as int, hi as int, outcome.ranges@, p.region.start, base, p.change.spec_diff_size() as TextSize, p.change.spec_is_addition());
                let cs = changes@;
                let nd = (hi - lo) as int;
                assert(cs.subrange(nd, cs.len() as int) =~= added_seq);
                assert forall|i: int| 0 <= i < nd implies exists|k: int| 0 <= k < ps.len() && #[trigger] cs[i] == StatementChange::Deleted(ps[k].0) by {
                    assert(cs[i] == dels[i]);
                    assert(cs[i] == StatementChange::Deleted(ps[hi - 1 - i].0));
                }
                assert forall|i: int, j: int| 0 <= i < nd && 0 <= j < nd && i != j implies #[trigger] cs[i] != #[trigger] cs[j] by {
                    assert(cs[i] == dels[i]);
                    assert(cs[j] == dels[j]);
                    assert(ps[hi - 1 - i].0 != ps[hi - 1 - j].0);
                }
                assert forall|i: int| nd <= i < cs.len() implies (#[trigger] cs[i] matches StatementChange::Added(a) && a.stmt == StatementId::Root((base + i - nd) as u64)) by {
                    assert(cs[i] == added_seq[i - nd]);
                }
                lemma_report_coherent(cs, nd, ps, base);
                assert forall|k: int| 0 <= k < hi - lo implies #[trigger] cs[k] == StatementChange::Deleted(ps[hi - 1 - k].0) by {
                    assert(cs[k] == dels[k]);
                }
            }
            ChangeStep::Finished(changes)
        } else {
            let whole = TextRange { start: 0, end: new_len };
            proof {
                lemma_utf8_valid(p.new_content@);
                is_char_boundary_start_end_of_seq(utf8(p.new_content@));
            }
            self.widen_edit(p, SplitScope::Whole, whole)
        }
    }
}


impl Document {
    /// Ends an edit inside one statement that is still one statement: it is
    /// reported as modified, and those after it move by the size of the edit.
    /// Where that would leave the statements out of order, the whole text is
    /// split again.
    #[verifier::rlimit(100)]
    #[verifier::spinoff_prover]
    fn finish_statement(&mut self, p: PendingEdit, outcome: SplitOutcome) -> (r: ChangeStep)
        requires
            old(self).wf(),
            old(self).pending is None,
            p.fits(old(self).positions@, old(self).content@),
            p.scope == SplitScope::Statement,
            !split_failed(p, outcome),
            outcome.ranges@.len() == 1,
            old(self).id_generator.has_room(1),
        ensures
            statement_step(*old(self), p, outcome, *final(self), r),
    {
        let ghost ps = self.positions@;
        assert(p.fits(self.positions@, self.content@));
        let count = self.positions.len();
        let i = p.affected.first_affected;
        assert(i < count);
        let base = self.id_generator.next_id;
        let new_len = byte_len(p.new_content.as_str()) as TextSize;
        proof {
            lemma_region_ranges(outcome.ranges@, p.region, utf8(p.new_content@).len() as int);
        }
        let (cand, _added) = build_spliced(&self.positions, i, i + 1, &outcome.ranges, p.region.start, base, p.change.diff_size(), p.change.is_addition(), p.new_content.as_str());
        if positions_valid(&cand, p.new_content.as_str()) {
            let (old_id, old_range) = self.positions[i];
            let new_range = cand[i].1;
            proof {
                assert(ranges_of(ps)[i as int] == old_range);
                assert(ranges_of(ps)[i as int].within(utf8(self.content@).len() as int));
                assert(ranges_of(cand@)[i as int] == new_range);
                assert(ranges_of(cand@)[i as int].within(new_len as int));
            }
            let old_text = slice(self.content.as_str(), old_range.start as usize, old_range.end as usize);
            let new_text = slice(p.new_content.as_str(), new_range.start as usize, new_range.end as usize);
            let c = p.change.range.unwrap();
            let change_range = match c.checked_shift_left(old_range.start) {
                Some(r) => r,
                None => TextRange { start: 0, end: c.end - c.start },
            };
            let modified = ModifiedStatement {
                old_stmt: old_id,
                old_stmt_text: old_text,
                new_stmt: StatementId::Root(base),
                new_stmt_text: new_text,
                change_range,
                change_text: p.change.text.clone(),
            };
            let mut changes: Vec<StatementChange> = Vec::new();
            changes.push(StatementChange::Modified(modified));
            self.diagnostics = outcome.diagnostics;
            self.id_generator.next_id = base + 1;
            self.positions = cand;
            self.content = p.new_content;
            proof {
                lemma_spliced_ids(ps, i as int, i + 1, outcome.ranges@, p.region.start, base, p.change.spec_diff_size() as TextSize, p.change.spec_is_addition());
                assert(ps[i as int].0 matches StatementId::Root(n) && n < base);
                assert(changes@.len() == 1);
            }
            ChangeStep::Finished(changes)
        } else {
            let whole = TextRange { start: 0, end: new_len };
            proof {
                lemma_utf8_valid(p.new_content@);
                is_char_boundary_start_end_of_seq(utf8(p.new_content@));
            }
            self.widen_edit(p, SplitScope::Whole, whole)
        }
    }
}


impl Document {
    /// Takes the splitter's outcome for the text that the last step asked
    /// for, and either finishes the edit or asks for one more split.
    ///
    /// A split of the one statement that the edit touches that finds one
    /// statement reports it as modified; one that fails or finds any other
    /// number asks for a split of the neighbourhood, or of the whole text
    /// where the neighbourhood does not start and end at character
    /// boundaries. Any other failed split (a fatal diagnostic, or spans out of
    /// order, outside the text that was split or off its character
    /// boundaries) leaves the document with the new text and no statement
    /// until a later edit splits cleanly. Without an edit under way there is
    /// nothing to do.
    pub fn resume_change(&mut self, outcome: SplitOutcome) -> (r: ChangeStep)
        requires
            old(self).wf(),
            old(self).id_generator.has_room(outcome.ranges@.len() as int),
        ensures
            final(self).wf(),
            old(self).pending is None ==> (r matches ChangeStep::Finished(cs) && cs@.len() == 0 && *final(self) == *old(self)),
            old(self).pending matches Some(p) ==> {
                &&& split_failed(p, outcome) && p.scope != SplitScope::Statement ==> failed_step(*old(self), p, outcome, *final(self), r)
                &&& !split_failed(p, outcome) && p.scope == SplitScope::Whole ==> whole_step(*old(self), p, outcome, *final(self), r)
                &&& p.scope == SplitScope::Statement && (split_failed(p, outcome) || outcome.ranges@.len() != 1) ==> {
                    let full = p.affected.full_affected_range;
                    &&& on_char(utf8(p.new_content@), full.start as int) && on_char(utf8(p.new_content@), full.end as int)
                        ==> widened_step(*old(self), p, SplitScope::Neighbourhood, full, *final(self), r)
                    &&& !(on_char(utf8(p.new_content@), full.start as int) && on_char(utf8(p.new_content@), full.end as int))
                        ==> widened_step(*old(self), p, SplitScope::Whole, whole_region(p), *final(self), r)
                }
                &&& !split_failed(p, outcome) && p.scope == SplitScope::Statement && outcome.ranges@.len() == 1 ==> statement_step(*old(self), p, outcome, *final(self), r)
                &&& !split_failed(p, outcome) && p.scope == SplitScope::Neighbourhood ==> neighbourhood_step(*old(self), p, outcome, *final(self), r)
            },
            r matches ChangeStep::Finished(cs) ==> (changes_coherent(cs@) && final(self).pending is None),
            r matches ChangeStep::Split(_) ==> final(self).pending is Some,
    {
        let pending = self.pending.take();
        match pending {
            None => ChangeStep::Finished(Vec::new()),
            Some(p) => {
                let valid = ranges_valid(&outcome.ranges, p.region.end - p.region.start)
                    && spans_land(&outcome.ranges, p.region.start, p.new_content.as_str());
                let failed = !valid || any_fatal(&outcome.diagnostics);
                match p.scope {
                    SplitScope::Statement => {
                        if !failed && outcome.ranges.len() == 1 {
                            self.finish_statement(p, outcome)
                        } else {
                            let full = p.affected.full_affected_range;
                            if at_char(p.new_content.as_str(), full.start as usize) && at_char(p.new_content.as_str(), full.end as usize) {
                                self.widen_edit(p, SplitScope::Neighbourhood, full)
                            } else {
                                proof {
                                    lemma_utf8_valid(p.new_content@);
                                    is_char_boundary_start_end_of_seq(utf8(p.new_content@));
                                }
                                let whole = TextRange { start: 0, end: byte_len(p.new_content.as_str()) as TextSize };
                                self.widen_edit(p, SplitScope::Whole, whole)
                            }
                        }
                    },
                    SplitScope::Whole => {
                        if failed {
                            return ChangeStep::Finished(self.fail_edit(p, outcome, valid));
                        }
                        let cs = self.finish_whole(p, outcome);
                        ChangeStep::Finished(cs)
                    },
                    SplitScope::Neighbourhood => {
                        if failed {
                            return ChangeStep::Finished(self.fail_edit(p, outcome, valid));
                        }
                        self.finish_neighbourhood(p, outcome)
                    },
                }
            },
        }
    }
}


/// The text rebuilt from `from` on: each gap before a span, then the span,
/// and what follows the last span.
pub open spec fn reassemble(text: Seq<u8>, rs: Seq<TextRange>, from: int) -> Seq<u8>
    decreases rs.len(),
{
    if rs.len() == 0 {
        text.subrange(from, text.len() as int)
    } else {
        text.subrange(from, rs[0].start as int) + text.subrange(rs[0].start as int, rs[0].end as int) + reassemble(text, rs.drop_first(), rs[0].end as int)
    }
}

proof fn lemma_reassemble(text: Seq<u8>, rs: Seq<TextRange>, from: int)
    requires
        ranges_wf(rs, text.len() as int),
        0 <= from <= text.len(),
        rs.len() > 0 ==> from <= rs[0].start,
    ensures
        reassemble(text, rs, from) == text.subrange(from, text.len() as int),
    decreases rs.len(),
{
    if rs.len() > 0 {
        let rest = rs.drop_first();
        assert(rs[0].within(text.len() as int));
        assert forall|i: int| 0 <= i < rest.len() implies (#[trigger] rest[i]).within(text.len() as int) by {
            assert(rest[i] == rs[i + 1]);
            assert(rs[i + 1].within(text.len() as int));
        }
        assert forall|i: int| 0 <= i < rest.len() - 1 implies (#[trigger] rest[i]).end <= rest[i + 1].start by {
            assert(rest[i] == rs[i + 1]);
            assert(rs[i + 1].end <= rs[i + 1 + 1].start);
        }
        if rest.len() > 0 {
            assert(rs[0].end <= rs[0int + 1].start);
        }
        lemma_reassemble(text, rest, rs[0].end as int);
        assert(text.subrange(from, rs[0].start as int) + text.subrange(rs[0].start as int, rs[0].end as int) + text.subrange(rs[0].end as int, text.len() as int) =~= text.subrange(from, text.len() as int));
    }
}

/// Lossless tracking: in a well-formed document, which every edit leaves
/// well formed, the statements' texts put back in order with the gaps
/// between them give the whole text.
pub proof fn lemma_coverage(d: Document)
    requires
        d.wf(),
    ensures
        reassemble(utf8(d.content@), ranges_of(d.positions@), 0) == utf8(d.content@),
{
    lemma_reassemble(utf8(d.content@), ranges_of(d.positions@), 0);
    assert(utf8(d.content@).subrange(0, utf8(d.content@).len() as int) =~= utf8(d.content@));
}

/// An edit that writes over a range the text that is already there leaves
/// the text as it is. The statements it touches are still split again, and
/// each gets a new identity.
pub proof fn lemma_noop_edit(content: Seq<char>, change: ChangeParams)
    requires
        change.range matches Some(r) && r.within(utf8(content).len() as int) && utf8(change.text@) == text_of(utf8(content), r),
    ensures
        edited(content, change) == utf8(content),
{
    assert(edited(content, change) =~= utf8(content));
}


/// The statements after an edit strictly inside statement `i`, with the one
/// span that the splitter found there, are in order and inside the new text.
#[verifier::rlimit(60)]
#[verifier::spinoff_prover]
proof fn lemma_inside_edit_in_order(d0: Document, p: PendingEdit, o: SplitOutcome, i: int)
    requires
        d0.wf(),
        p.fits(d0.positions@, d0.content@),
        p.change.range matches Some(c) && {
            &&& 0 <= i < d0.positions@.len()
            &&& strictly_inside(c, d0.positions@[i].1)
            &&& p.affected == affected_spec(d0.positions@, c, utf8(p.new_content@).len() as TextSize, p.change.spec_diff_size() as TextSize, p.change.spec_is_addition(), i, 1)
        },
        p.region == p.affected.affected_range,
        o.ranges@.len() == 1,
        ranges_wf(o.ranges@, p.region.spec_len() as int),
    ensures
        ranges_wf(ranges_of(candidate(p, d0.positions@, i, i + 1, o, d0.id_generator.next_id)), utf8(p.new_content@).len() as int),
{
    reveal(affected_spec);
    let ps = d0.positions@;
    let rs = ranges_of(ps);
    let len = utf8(d0.content@).len() as int;
    let c = p.change.range->0;
    let t = p.change.text_len();
    let clen = c.end - c.start;
    let cs = utf8(p.new_content@).len() as int;
    let d = p.change.spec_diff_size() as TextSize;
    let add = p.change.spec_is_addition();
    assert(rs[i] == ps[i].1);
    assert(rs[i].within(len));
    assert(c.start <= len);
    assert(cs == len - clen + t);
    let e = ps[i].1.end + t - clen;
    assert(p.affected.affected_range == TextRange { start: ps[i].1.start, end: e as TextSize });
    let r0 = o.ranges@[0];
    assert(r0.within(p.region.spec_len() as int));
    let nr = r0.spec_shift_right(p.region.start);
    assert(nr.start == r0.start + ps[i].1.start && nr.end == r0.end + ps[i].1.start);
    let cand = candidate(p, ps, i, i + 1, o, d0.id_generator.next_id);
    let crs = ranges_of(cand);
    let fresh = fresh_positions(o.ranges@, p.region.start, d0.id_generator.next_id);
    let suffix = shift_all(ps.subrange(i + 1, ps.len() as int), d, add);
    assert(cand == ps.subrange(0, i) + fresh + suffix);
    assert(cand.len() == ps.len());
    assert forall|k: int| i < k < ps.len() implies (#[trigger] crs[k]).start == ps[k].1.start + t - clen && crs[k].end == ps[k].1.end + t - clen by {
        assert(cand[k] == suffix[k - i - 1]);
        assert(suffix[k - i - 1] == shift_pos(ps[k], d, add));
        assert(rs[k] == ps[k].1);
        assert(rs[k].within(len));
        lemma_ranges_ordered(rs, len, i, k);
    }
    assert forall|k: int| 0 <= k < i implies (#[trigger] crs[k]) == rs[k] && rs[k].end <= ps[i].1.start by {
        assert(cand[k] == ps[k]);
        lemma_ranges_ordered(rs, len, k, i);
    }
    assert(cand[i] == fresh[0]);
    assert(crs[i] == nr);
    assert forall|k: int| 0 <= k < crs.len() implies (#[trigger] crs[k]).within(cs) by {
        if i < k {
            assert(rs[k] == ps[k].1);
            assert(rs[k].within(len));
        } else if k < i {
            assert(rs[k].within(len));
        }
    }
    assert forall|k: int| 0 <= k < crs.len() - 1 implies (#[trigger] crs[k]).end <= crs[k + 1].start by {
        if i < k {
            assert(rs[k] == ps[k].1);
            assert(rs[k + 1] == ps[k + 1].1);
            assert(rs[k].end <= rs[k + 1].start);
        } else if k == i {
            assert(rs[i + 1] == ps[i + 1].1);
            lemma_ranges_ordered(rs, len, i, i + 1);
        } else if k + 1 < i {
            assert(rs[k].end <= rs[k + 1].start);
        }
    }
}

/// The region and the statements after an edit strictly inside statement
/// `i` start and end at character boundaries of the new text.
#[verifier::rlimit(60)]
#[verifier::spinoff_prover]
proof fn lemma_inside_edit_on_chars(d0: Document, p: PendingEdit, o: SplitOutcome, i: int)
    requires
        d0.wf(),
        p.fits(d0.positions@, d0.content@),
        p.change.range matches Some(c) && {
            &&& 0 <= i < d0.positions@.len()
            &&& strictly_inside(c, d0.positions@[i].1)
            &&& p.affected == affected_spec(d0.positions@, c, utf8(p.new_content@).len() as TextSize, p.change.spec_diff_size() as TextSize, p.change.spec_is_addition(), i, 1)
        },
    ensures
        on_char(utf8(p.new_content@), p.affected.affected_range.start as int),
        on_char(utf8(p.new_content@), p.affected.affected_range.end as int),
        p.region == p.affected.affected_range && o.ranges@.len() == 1 && spans_on_chars(o.ranges@, p.region.start as int, utf8(p.new_content@))
            ==> spans_on_chars(ranges_of(candidate(p, d0.positions@, i, i + 1, o, d0.id_generator.next_id)), 0, utf8(p.new_content@)),
{
    reveal(affected_spec);
    let ps = d0.positions@;
    let rs = ranges_of(ps);
    let old = utf8(d0.content@);
    let new = utf8(p.new_content@);
    let len = old.len() as int;
    let c = p.change.range->0;
    let tb = utf8(p.change.text@);
    let t = tb.len() as int;
    let clen = c.end - c.start;
    assert(rs[i] == ps[i].1);
    assert(rs[i].within(len));
    assert(new == old.subrange(0, c.start as int) + tb + old.subrange(c.end as int, len));
    lemma_utf8_valid(d0.content@);
    lemma_utf8_valid(p.new_content@);
    assert forall|j: int| 0 <= j < c.start implies new[j] == old[j] by {}
    assert forall|j: int| c.end <= j < len implies new[j - c.end + c.start + t] == old[j] by {}
    let e = ps[i].1.end + t - clen;
    assert(p.affected.affected_range == TextRange { start: ps[i].1.start, end: e as TextSize });
    assert(on_char(old, rs[i].start + 0) && on_char(old, rs[i].end + 0));
    lemma_boundary_moves(old, new, c.start as int, c.end as int, t, ps[i].1.start as int);
    lemma_boundary_moves(old, new, c.start as int, c.end as int, t, ps[i].1.end as int);
    if p.region == p.affected.affected_range && o.ranges@.len() == 1 && spans_on_chars(o.ranges@, p.region.start as int, new) {
        let d = p.change.spec_diff_size() as TextSize;
        let add = p.change.spec_is_addition();
        let cand = candidate(p, ps, i, i + 1, o, d0.id_generator.next_id);
        let crs = ranges_of(cand);
        let fresh = fresh_positions(o.ranges@, p.region.start, d0.id_generator.next_id);
        let suffix = shift_all(ps.subrange(i + 1, ps.len() as int), d, add);
        assert(cand == ps.subrange(0, i) + fresh + suffix);
        assert forall|k: int| 0 <= k < crs.len() implies on_char(new, (#[trigger] crs[k]).start + 0) && on_char(new, crs[k].end + 0) by {
            if k < i {
                assert(cand[k] == ps[k]);
                assert(rs[k] == ps[k].1);
                lemma_ranges_ordered(rs, len, k, i);
                assert(on_char(old, rs[k].start + 0) && on_char(old, rs[k].end + 0));
                assert(rs[k].within(len));
                lemma_boundary_moves(old, new, c.start as int, c.end as int, t, rs[k].start as int);
                lemma_boundary_moves(old, new, c.start as int, c.end as int, t, rs[k].end as int);
            } else if k == i {
                assert(cand[i] == fresh[0]);
                let r0 = o.ranges@[0];
                assert(on_char(new, r0.start + p.region.start) && on_char(new, r0.end + p.region.start));
                lemma_boundary_in(new, r0.start + p.region.start);
                lemma_boundary_in(new, r0.end + p.region.start);
            } else {
                assert(cand[k] == suffix[k - i - 1]);
                assert(suffix[k - i - 1] == shift_pos(ps[k], d, add));
                assert(rs[k] == ps[k].1);
                assert(rs[k].within(len));
                lemma_ranges_ordered(rs, len, i, k);
                assert(on_char(old, rs[k].start + 0) && on_char(old, rs[k].end + 0));
                lemma_boundary_moves(old, new, c.start as int, c.end as int, t, rs[k].start as int);
                lemma_boundary_moves(old, new, c.start as int, c.end as int, t, rs[k].end as int);
                lemma_boundary_in(new, rs[k].end - c.end + c.start + t);
            }
        }
    }
}

/// Locality: begun on a well-formed document, an edit strictly inside one
/// statement splits that statement alone; where the splitter finds one
/// statement there, the edit ends as exactly one modified statement, and
/// nothing is added or deleted.
pub proof fn lemma_locality(d0: Document, change: ChangeParams, i: int, p: PendingEdit, o: SplitOutcome, d2: Document, r: ChangeStep)
    requires
        d0.wf(),
        change.range matches Some(c) && 0 <= i < d0.positions@.len() && strictly_inside(c, d0.positions@[i].1),
        p.fits(d0.positions@, d0.content@),
        p.change.range == change.range,
        p.change.text@ == change.text@,
        change.range matches Some(c) && {
            &&& p.affected == affected_spec(d0.positions@, c, utf8(p.new_content@).len() as TextSize, change.spec_diff_size() as TextSize, change.spec_is_addition(), p.affected.first_affected as int, p.affected.affected_count as int)
            &&& count_before(d0.positions@, c, p.affected.first_affected as int)
            &&& count_touching(d0.positions@, c, p.affected.first_affected as int, p.affected.affected_count as int)
            &&& p.scope == p.planned_scope()
        },
        !split_failed(p, o),
        o.ranges@.len() == 1,
        statement_step(d0, p, o, d2, r),
    ensures
        p.scope == SplitScope::Statement,
        p.affected.first_affected == i,
        r matches ChangeStep::Finished(cs) && cs@.len() == 1 && cs@[0] is Modified,
{
    let c = change.range->0;
    lemma_inside_one(d0.positions@, utf8(d0.content@).len() as int, c, i, p.affected.first_affected as int, p.affected.affected_count as int);
    assert(p.change.spec_diff_size() == change.spec_diff_size());
    assert(p.change.spec_is_addition() == change.spec_is_addition());
    lemma_inside_edit_on_chars(d0, p, o, i);
    assert(p.scope == SplitScope::Statement);
    lemma_inside_edit_in_order(d0, p, o, i);
}


/// Self-healing: begun on a document that tracks no statement (after a
/// failed split, say), an edit splits the whole new text; where the splitter
/// succeeds there, the edit ends with exactly the statements it found.
pub proof fn lemma_self_heal(d0: Document, change: ChangeParams, p: PendingEdit, o: SplitOutcome, d2: Document, r: ChangeStep)
    requires
        d0.wf(),
        d0.positions@.len() == 0,
        p.fits(d0.positions@, d0.content@),
        p.change.range == change.range,
        p.change.text@ == change.text@,
        change.range is None ==> p.scope == SplitScope::Whole,
        change.range matches Some(c) ==> {
            &&& p.affected == affected_spec(d0.positions@, c, utf8(p.new_content@).len() as TextSize, change.spec_diff_size() as TextSize, change.spec_is_addition(), p.affected.first_affected as int, p.affected.affected_count as int)
            &&& count_before(d0.positions@, c, p.affected.first_affected as int)
            &&& count_touching(d0.positions@, c, p.affected.first_affected as int, p.affected.affected_count as int)
            &&& p.scope == p.planned_scope()
        },
        !split_failed(p, o),
        p.scope == SplitScope::Whole ==> whole_step(d0, p, o, d2, r),
        p.scope == SplitScope::Neighbourhood ==> neighbourhood_step(d0, p, o, d2, r),
        r is Finished,
    ensures
        p.region == whole_region(p),
        d2.positions@ == fresh_positions(o.ranges@, 0, d0.id_generator.next_id),
{
    reveal(affected_spec);
    lemma_utf8_valid(p.new_content@);
    is_char_boundary_start_end_of_seq(utf8(p.new_content@));
    if let Some(c) = change.range {
        assert(p.affected.first_affected == 0);
        assert(p.affected.affected_count == 0);
        assert(p.scope == SplitScope::Neighbourhood);
        let cand = candidate(p, d0.positions@, p.block_start(), p.block_end(), o, d0.id_generator.next_id);
        assert(cand =~= fresh_positions(o.ranges@, 0, d0.id_generator.next_id));
    }
}

} // verus!
