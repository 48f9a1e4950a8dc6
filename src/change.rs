//! Text edits and the statement changes that they cause.
use vstd::prelude::*;
use crate::statement_id::StatementId;
use crate::text_range::{TextRange, TextSize};
use crate::utf8_text::{at_char, byte_len, lemma_utf8_concat, lemma_utf8_valid, on_char, slice, utf8};
use vstd::utf8::is_char_boundary_start_end_of_seq;

verus! {

/// One edit of a document: `text` replaces the bytes of `range`, or the
/// whole text where `range` is `None`.
#[derive(Clone, Debug)]
pub struct ChangeParams {
    pub range: Option<TextRange>,
    pub text: String,
}

/// A batch of edits of one file, stamped with the editor's version.
#[derive(Clone, Debug)]
pub struct ChangeFileParams {
    pub version: i32,
    pub changes: Vec<ChangeParams>,
}

/// The bytes that result from replacing `[start, end)` of `text` with
/// `new_text`. A start past the end of the text appends; bytes from `end` on
/// are kept only where `end` lies inside the text.
pub open spec fn replaced(text: Seq<u8>, start: int, end: int, new_text: Seq<u8>) -> Seq<u8> {
    let s = if start <= text.len() { start } else { text.len() as int };
    let kept = if end < text.len() { text.subrange(end, text.len() as int) } else { seq![] };
    text.subrange(0, s) + new_text + kept
}

impl ChangeParams {
    /// The bytes of the text after this edit.
    pub open spec fn spec_apply(&self, text: Seq<char>) -> Seq<u8> {
        match self.range {
            None => utf8(self.text@),
            Some(r) => replaced(utf8(text), r.start as int, r.end as int, utf8(self.text@)),
        }
    }

    /// The edit's ends that lie inside `text` are character boundaries of it.
    pub open spec fn applies_to(&self, text: Seq<char>) -> bool {
        match self.range {
            None => true,
            Some(r) => {
                &&& (r.start >= utf8(text).len() || on_char(utf8(text), r.start as int))
                &&& (r.end >= utf8(text).len() || on_char(utf8(text), r.end as int))
            },
        }
    }

    /// The number of bytes of the new text.
    pub open spec fn text_len(&self) -> int {
        utf8(self.text@).len() as int
    }

    /// How many bytes the edit adds (positive) or removes (negative).
    pub open spec fn spec_change_size(&self) -> int {
        match self.range {
            None => self.text_len(),
            Some(r) => self.text_len() - (r.end - r.start),
        }
    }

    /// The size of the change, without its sign.
    pub open spec fn spec_diff_size(&self) -> int {
        let d = self.spec_change_size();
        if d < 0 { -d } else { d }
    }

    pub open spec fn spec_is_addition(&self) -> bool {
        match self.range {
            None => false,
            Some(r) => self.text_len() > r.end - r.start,
        }
    }

    pub open spec fn spec_is_deletion(&self) -> bool {
        match self.range {
            None => false,
            Some(r) => self.text_len() < r.end - r.start,
        }
    }

    /// The sizes involved fit the offsets' type.
    pub open spec fn sizes_fit(&self) -> bool {
        &&& self.text_len() <= u32::MAX
        &&& self.range matches Some(r) ==> r.wf()
    }

    /// A copy of this edit.
    pub fn duplicate(&self) -> (r: ChangeParams)
        ensures
            r.range == self.range,
            r.text@ == self.text@,
    {
        ChangeParams { range: self.range, text: self.text.clone() }
    }

    /// The change in size of the text that this edit makes.
    pub fn change_size(&self) -> (r: i64)
        requires
            self.sizes_fit(),
        ensures
            r == self.spec_change_size(),
    {
        let text_length = byte_len(self.text.as_str()) as i64;
        match self.range {
            Some(range) => text_length - range.len() as i64,
            None => text_length,
        }
    }

    /// The size of the change, without its sign.
    pub fn diff_size(&self) -> (r: TextSize)
        requires
            self.sizes_fit(),
        ensures
            r == self.spec_diff_size(),
    {
        let text_length = byte_len(self.text.as_str()) as u32;
        match self.range {
            Some(range) => {
                let range_length = range.len();
                if text_length >= range_length {
                    text_length - range_length
                } else {
                    range_length - text_length
                }
            },
            None => text_length,
        }
    }

    /// The edit makes the text longer.
    pub fn is_addition(&self) -> (r: bool)
        requires
            self.sizes_fit(),
        ensures
            r == self.spec_is_addition(),
    {
        match self.range {
            Some(range) => byte_len(self.text.as_str()) > range.len() as usize,
            None => false,
        }
    }

    /// The edit makes the text shorter.
    pub fn is_deletion(&self) -> (r: bool)
        requires
            self.sizes_fit(),
        ensures
            r == self.spec_is_deletion(),
    {
        match self.range {
            Some(range) => byte_len(self.text.as_str()) < (range.len() as usize),
            None => false,
        }
    }

    /// The text after this edit, with `range` in bytes. An edit that starts
    /// past the end of the text appends to it.
    pub fn apply_to_text(&self, text: &str) -> (r: String)
        requires
            self.applies_to(text@),
            utf8(text@).len() <= usize::MAX,
        ensures
            utf8(r@) == self.spec_apply(text@),
    {
        match self.range {
            None => self.text.clone(),
            Some(range) => {
                let len = byte_len(text);
                let start = if (range.start as usize) <= len { range.start as usize } else { len };
                let end = range.end as usize;
                proof {
                    lemma_utf8_valid(text@);
                    is_char_boundary_start_end_of_seq(utf8(text@));
                }
                let prefix = slice(text, 0, start);
                let mut new_text = String::new();
                new_text.append(prefix.as_str());
                new_text.append(self.text.as_str());
                let ghost mid = new_text@;
                proof {
                    lemma_utf8_concat(prefix@, self.text@);
                    assert(seq![] + prefix@ =~= prefix@);
                }
                if end < len {
                    let suffix = slice(text, end, len);
                    new_text.append(suffix.as_str());
                    proof {
                        lemma_utf8_concat(mid, suffix@);
                    }
                }
                proof {
                    assert(utf8(new_text@) =~= self.spec_apply(text@));
                }
                new_text
            },
        }
    }
}

/// A statement that an edit brought into being.
#[derive(Debug, PartialEq, Eq)]
pub struct AddedStatement {
    pub stmt: StatementId,
    pub text: String,
}

/// A statement that an edit changed in place: it gets a new identity.
/// `change_range` is relative to the start of the old statement.
#[derive(Debug, PartialEq, Eq)]
pub struct ModifiedStatement {
    pub old_stmt: StatementId,
    pub old_stmt_text: String,
    pub new_stmt: StatementId,
    pub new_stmt_text: String,
    pub change_range: TextRange,
    pub change_text: String,
}

/// What an edit did to one statement.
#[derive(Debug, PartialEq, Eq)]
pub enum StatementChange {
    Added(AddedStatement),
    Deleted(StatementId),
    Modified(ModifiedStatement),
}

impl StatementChange {
    pub open spec fn spec_statement(&self) -> StatementId {
        match self {
            StatementChange::Added(a) => a.stmt,
            StatementChange::Deleted(id) => *id,
            StatementChange::Modified(m) => m.new_stmt,
        }
    }

    /// The statement that exists after the change, or the one that was deleted.
    pub fn statement(&self) -> (r: &StatementId)
        ensures
            *r == self.spec_statement(),
    {
        match self {
            StatementChange::Added(stmt) => &stmt.stmt,
            StatementChange::Deleted(stmt) => stmt,
            StatementChange::Modified(changed) => &changed.new_stmt,
        }
    }
}


/// The key by which a batch of edits is applied: an edit of the whole text
/// comes before any edit of a range, and edits of ranges go from the last
/// start to the first.
pub open spec fn order_key(c: ChangeParams) -> int {
    match c.range {
        None => u32::MAX + 1,
        Some(r) => r.start as int,
    }
}

/// Edit `a` of a batch is applied before edit `b`: it has the larger key,
/// or the same key and comes first in the batch.
pub open spec fn applied_before(cs: Seq<ChangeParams>, a: int, b: int) -> bool {
    order_key(cs[a]) > order_key(cs[b]) || (order_key(cs[a]) == order_key(cs[b]) && a < b)
}

fn key_of(c: &ChangeParams) -> (r: u64)
    ensures
        r == order_key(*c),
{
    match c.range {
        None => u32::MAX as u64 + 1,
        Some(r) => r.start as u64,
    }
}

/// The order in which the edits of a batch are applied: every index once,
/// whole-text edits first, then edits of ranges by descending start, each
/// tie kept in the order of the batch. Applying the later edits first keeps
/// the ranges of the earlier ones valid.
pub fn change_order(changes: &Vec<ChangeParams>) -> (r: Vec<usize>)
    ensures
        r@.len() == changes@.len(),
        forall|i: int| 0 <= i < r@.len() ==> #[trigger] r@[i] < changes@.len(),
        forall|i: int, j: int| 0 <= i < j < r@.len() ==> applied_before(changes@, #[trigger] r@[i] as int, #[trigger] r@[j] as int),
{
    let mut order: Vec<usize> = Vec::new();
    let mut k: usize = 0;
    while k < changes.len()
        invariant
            0 <= k <= changes@.len(),
            order@.len() == k,
            forall|i: int| 0 <= i < order@.len() ==> #[trigger] order@[i] < k,
            forall|i: int, j: int| 0 <= i < j < order@.len() ==> applied_before(changes@, #[trigger] order@[i] as int, #[trigger] order@[j] as int),
        decreases changes@.len() - k,
    {
        let key = key_of(&changes[k]);
        let mut pos: usize = 0;
        while pos < order.len() && key_of(&changes[order[pos]]) >= key
            invariant
                0 <= pos <= order@.len(),
                k < changes@.len(),
                key == order_key(changes@[k as int]),
                forall|i: int| 0 <= i < order@.len() ==> #[trigger] order@[i] < k,
                forall|i: int| 0 <= i < pos ==> order_key(changes@[#[trigger] order@[i] as int]) >= key,
            decreases order@.len() - pos,
        {
            pos = pos + 1;
        }
        let ghost before = order@;
        order.insert(pos, k);
        proof {
            assert forall|i: int, j: int| 0 <= i < j < order@.len() implies applied_before(changes@, #[trigger] order@[i] as int, #[trigger] order@[j] as int) by {
                if j < pos {
                    assert(order@[i] == before[i] && order@[j] == before[j]);
                } else if j == pos {
                    assert(order@[i] == before[i]);
                    assert(order_key(changes@[before[i] as int]) >= key);
                } else if i == pos {
                    assert(order@[j] == before[j - 1]);
                    assert(pos < before.len());
                    assert(order_key(changes@[before[pos as int] as int]) < key);
                    if j - 1 > pos {
                        assert(applied_before(changes@, before[pos as int] as int, before[j - 1] as int));
                    }
                } else if i < pos {
                    assert(order@[i] == before[i] && order@[j] == before[j - 1]);
                } else {
                    assert(order@[i] == before[i - 1] && order@[j] == before[j - 1]);
                }
            }
        }
        k = k + 1;
    }
    order
}

} // verus!
