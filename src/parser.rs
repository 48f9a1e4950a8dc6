//! The token cursor that a grammar drives to build a lossless tree: it turns
//! node starts, node ends and consumed tokens into an ordered list of events.
//!
//! Runs of spaces are held back and handed out just before the next node or token,
//! so that it joins the node that opens after it. A grammar can look ahead by
//! opening a buffer, advancing, and closing the buffer again, which rewinds
//! the cursor without emitting the tokens it passed.
use vstd::prelude::*;
use std::ops::Range;
use crate::syntax_kind::{SyntaxKind, Token};

verus! {

/// One step of the tree: a token by its index, or the start or end of a node.
#[derive(Clone, Copy, Debug, PartialEq, Eq, Structural)]
pub enum ParserEvent {
    Token(usize),
    StartNode(SyntaxKind),
    FinishNode,
}

/// The indices of the tokens among `es`, in order.
pub open spec fn emitted(es: Seq<ParserEvent>) -> Seq<usize>
    decreases es.len(),
{
    if es.len() == 0 {
        seq![]
    } else {
        let rest = emitted(es.drop_last());
        match es.last() {
            ParserEvent::Token(i) => rest.push(i),
            _ => rest,
        }
    }
}

/// Node starts minus node ends among `es`.
pub open spec fn open_count(es: Seq<ParserEvent>) -> int
    decreases es.len(),
{
    if es.len() == 0 {
        0
    } else {
        let rest = open_count(es.drop_last());
        match es.last() {
            ParserEvent::StartNode(_) => rest + 1,
            ParserEvent::FinishNode => rest - 1,
            ParserEvent::Token(_) => rest,
        }
    }
}

/// `a, a + 1, ..., b - 1`.
pub open spec fn indices(a: int, b: int) -> Seq<usize> {
    Seq::new((b - a) as nat, |i: int| (a + i) as usize)
}

/// The events for the tokens `from..to`.
pub open spec fn token_events(from: int, to: int) -> Seq<ParserEvent> {
    Seq::new((to - from) as nat, |i: int| ParserEvent::Token((from + i) as usize))
}

/// Index of the token `lookahead` places on from `from` that is not trivia,
/// if there is one.
pub open spec fn nth_significant(tokens: Seq<Token>, from: int, lookahead: int) -> Option<int>
    decreases tokens.len() - from,
{
    if from < 0 || from >= tokens.len() {
        None
    } else if tokens[from].kind.spec_is_trivia() {
        nth_significant(tokens, from + 1, lookahead)
    } else if lookahead == 0 {
        Some(from)
    } else {
        nth_significant(tokens, from + 1, lookahead - 1)
    }
}

proof fn lemma_emitted_push(es: Seq<ParserEvent>, e: ParserEvent)
    ensures
        emitted(es.push(e)) == (match e {
            ParserEvent::Token(i) => emitted(es).push(i),
            _ => emitted(es),
        }),
        open_count(es.push(e)) == (match e {
            ParserEvent::StartNode(_) => open_count(es) + 1,
            ParserEvent::FinishNode => open_count(es) - 1,
            ParserEvent::Token(_) => open_count(es),
        }),
{
    assert(es.push(e).drop_last() =~= es);
}

proof fn lemma_emitted_tokens(es: Seq<ParserEvent>, from: int, to: int)
    requires
        0 <= from <= to,
    ensures
        emitted(es + token_events(from, to)) == emitted(es) + indices(from, to),
        open_count(es + token_events(from, to)) == open_count(es),
    decreases to - from,
{
    if to == from {
        assert(es + token_events(from, to) =~= es);
        assert(emitted(es) + indices(from, to) =~= emitted(es));
    } else {
        lemma_emitted_tokens(es, from, to - 1);
        assert(es + token_events(from, to) =~= (es + token_events(from, to - 1)).push(ParserEvent::Token((to - 1) as usize)));
        lemma_emitted_push(es + token_events(from, to - 1), ParserEvent::Token((to - 1) as usize));
        assert(emitted(es) + indices(from, to) =~= (emitted(es) + indices(from, to - 1)).push((to - 1) as usize));
    }
}

pub(crate) proof fn lemma_token_events_join(a: int, b: int, c: int)
    requires
        0 <= a <= b <= c,
    ensures
        token_events(a, b) + token_events(b, c) == token_events(a, c),
{
    assert(token_events(a, b) + token_events(b, c) =~= token_events(a, c));
}

/// Drives the building of a statement's tree over a fixed list of tokens.
#[derive(Debug)]
pub struct Parser {
    /// The tokens to parse.
    pub tokens: Vec<Token>,
    /// The index of the current token.
    pub pos: usize,
    /// Index from which space tokens are held back.
    pub whitespace_token_buffer: Option<usize>,
    /// Where the open lookahead buffer started, if one is open.
    pub token_buffer: Option<usize>,
    /// The held-back whitespace when the lookahead buffer was opened.
    pub token_buffer_whitespace: Option<usize>,
    /// Nodes started and not finished.
    pub depth: usize,
    /// What has been built so far.
    pub events: Vec<ParserEvent>,
    pub eof_token: Token,
}

impl Parser {
    /// The tokens emitted so far are exactly those before the held-back
    /// whitespace, or before the cursor, in order; while a lookahead buffer
    /// is open, those before the point where it was opened. `depth` counts
    /// the open nodes.
    pub open spec fn wf(&self) -> bool {
        &&& self.pos <= self.tokens@.len()
        &&& (self.whitespace_token_buffer matches Some(w) ==> w <= self.pos)
        &&& self.depth == open_count(self.events@)
        &&& self.eof_token.kind == SyntaxKind::Eof
        &&& match self.token_buffer {
            None => emitted(self.events@) == indices(0, self.emit_point()),
            Some(b) => {
                &&& b <= self.pos
                &&& (self.token_buffer_whitespace matches Some(w) ==> w <= b)
                &&& emitted(self.events@) == indices(0, match self.token_buffer_whitespace { Some(w) => w as int, None => b as int })
            },
        }
    }

    /// Where emitting resumes: the held-back whitespace, or the cursor.
    pub open spec fn emit_point(&self) -> int {
        match self.whitespace_token_buffer {
            Some(w) => w as int,
            None => self.pos as int,
        }
    }

    /// The token `lookahead` places on from the cursor, counting every token,
    /// or the end token.
    pub open spec fn spec_nth_raw(&self, lookahead: int) -> Token {
        if self.pos + lookahead < self.tokens@.len() { self.tokens@[self.pos + lookahead] } else { self.eof_token }
    }

    /// The token `lookahead` places on from the cursor, counting only tokens
    /// that are not trivia, or the end token.
    pub open spec fn spec_nth_significant(&self, lookahead: int) -> Token {
        match nth_significant(self.tokens@, self.pos as int, lookahead) {
            Some(i) => self.tokens@[i],
            None => self.eof_token,
        }
    }

    /// The tokens from the cursor on are of `kinds`, one by one.
    pub open spec fn spec_at_all(&self, kinds: Seq<SyntaxKind>) -> bool {
        forall|i: int| 0 <= i < kinds.len() ==> self.spec_nth_raw(i).kind == #[trigger] kinds[i]
    }

    pub open spec fn spec_eof(&self) -> bool {
        self.pos == self.tokens@.len()
    }

    /// A parser at the first of `tokens`; the end token stands where the last
    /// one ends.
    pub fn new(tokens: Vec<Token>) -> (r: Parser)
        ensures
            r.wf(),
            r.tokens@ == tokens@,
            r.pos == 0,
            r.whitespace_token_buffer is None,
            r.token_buffer is None,
            r.depth == 0,
            r.events@.len() == 0,
            r.eof_token.span.start == (if tokens@.len() > 0 { tokens@.last().span.end } else { 0 }),
    {
        let end = if tokens.len() > 0 { tokens[tokens.len() - 1].span.end } else { 0 };
        let p = Parser {
            eof_token: Token::eof(end),
            tokens,
            pos: 0,
            whitespace_token_buffer: None,
            token_buffer: None,
            token_buffer_whitespace: None,
            depth: 0,
            events: Vec::new(),
        };
        assert(emitted(p.events@) =~= indices(0, 0));
        p
    }

    /// The indices of all tokens.
    pub fn token_range(&self) -> (r: Range<usize>)
        ensures
            r.start == 0,
            r.end == self.tokens@.len(),
    {
        Range { start: 0, end: self.tokens.len() }
    }

    /// Emits the held-back whitespace, unless a lookahead buffer is open.
    pub fn flush_token_buffer(&mut self)
        requires
            old(self).wf(),
        ensures
            final(self).wf(),
            final(self).whitespace_token_buffer is None,
            final(self).tokens == old(self).tokens,
            final(self).pos == old(self).pos,
            final(self).token_buffer == old(self).token_buffer,
            final(self).token_buffer_whitespace == old(self).token_buffer_whitespace,
            final(self).depth == old(self).depth,
            final(self).eof_token == old(self).eof_token,
            final(self).events@ == old(self).events@ + (match (old(self).whitespace_token_buffer, old(self).token_buffer) {
                (Some(w), None) => token_events(w as int, old(self).pos as int),
                _ => seq![],
            }),
    {
        let ghost es0 = self.events@;
        match self.whitespace_token_buffer {
            None => {
                assert(self.events@ =~= es0 + seq![]);
            },
            Some(w) => {
                let mut k = w;
                while k < self.pos
                    invariant
                        w <= k <= self.pos <= self.tokens@.len(),
                        self.events@ == es0 + (if self.token_buffer is None { token_events(w as int, k as int) } else { seq![] }),
                        self.tokens == old(self).tokens,
                        self.pos == old(self).pos,
                        self.token_buffer == old(self).token_buffer,
                        self.token_buffer_whitespace == old(self).token_buffer_whitespace,
                        self.depth == old(self).depth,
                        self.eof_token == old(self).eof_token,
                        self.whitespace_token_buffer == old(self).whitespace_token_buffer,
                    decreases self.pos - k,
                {
                    if self.token_buffer.is_none() {
                        self.events.push(ParserEvent::Token(k));
                        assert(token_events(w as int, k + 1) =~= token_events(w as int, k as int).push(ParserEvent::Token(k)));
                    }
                    k = k + 1;
                }
                self.whitespace_token_buffer = None;
                proof {
                    if self.token_buffer is None {
                        lemma_emitted_tokens(es0, w as int, self.pos as int);
                        assert(indices(0, w as int) + indices(w as int, self.pos as int) =~= indices(0, self.pos as int));
                    } else {
                        assert(self.events@ =~= es0);
                    }
                }
            },
        }
    }

    /// Starts a node of `kind`, after the held-back whitespace.
    pub fn start_node(&mut self, kind: SyntaxKind)
        requires
            old(self).wf(),
            old(self).depth < usize::MAX,
        ensures
            final(self).wf(),
            final(self).depth == old(self).depth + 1,
            final(self).pos == old(self).pos,
            final(self).tokens == old(self).tokens,
            final(self).whitespace_token_buffer is None,
            final(self).token_buffer == old(self).token_buffer,
            final(self).events@ == old(self).events@ + (match (old(self).whitespace_token_buffer, old(self).token_buffer) {
                (Some(w), None) => token_events(w as int, old(self).pos as int),
                _ => seq![],
            }).push(ParserEvent::StartNode(kind)),
    {
        self.flush_token_buffer();
        let ghost es = self.events@;
        self.events.push(ParserEvent::StartNode(kind));
        proof {
            lemma_emitted_push(es, ParserEvent::StartNode(kind));
        }
        self.depth = self.depth + 1;
    }

    /// Finishes the innermost open node.
    pub fn finish_node(&mut self)
        requires
            old(self).wf(),
            old(self).depth > 0,
        ensures
            final(self).wf(),
            final(self).depth == old(self).depth - 1,
            final(self).pos == old(self).pos,
            final(self).tokens == old(self).tokens,
            final(self).whitespace_token_buffer == old(self).whitespace_token_buffer,
            final(self).token_buffer == old(self).token_buffer,
            final(self).events@ == old(self).events@.push(ParserEvent::FinishNode),
    {
        let ghost es = self.events@;
        self.events.push(ParserEvent::FinishNode);
        proof {
            lemma_emitted_push(es, ParserEvent::FinishNode);
        }
        self.depth = self.depth - 1;
    }

    /// Opens a lookahead buffer at the cursor. While it is open, tokens are
    /// not emitted.
    pub fn open_buffer(&mut self)
        requires
            old(self).wf(),
            old(self).token_buffer is None,
        ensures
            final(self).wf(),
            final(self).token_buffer == Some(old(self).pos),
            final(self).token_buffer_whitespace == old(self).whitespace_token_buffer,
            final(self).pos == old(self).pos,
            final(self).tokens == old(self).tokens,
            final(self).whitespace_token_buffer == old(self).whitespace_token_buffer,
            final(self).events == old(self).events,
            final(self).depth == old(self).depth,
    {
        self.token_buffer = Some(self.pos);
        self.token_buffer_whitespace = self.whitespace_token_buffer;
    }

    /// Closes the lookahead buffer and rewinds the cursor to where it was
    /// opened, with the whitespace held back then; returns the tokens passed
    /// over, up to any whitespace held back at the end.
    pub fn close_buffer(&mut self) -> (r: Range<usize>)
        requires
            old(self).wf(),
            old(self).token_buffer is Some,
        ensures
            final(self).wf(),
            r.start == old(self).token_buffer->0,
            r.end == old(self).emit_point(),
            final(self).token_buffer is None,
            final(self).pos == old(self).token_buffer->0,
            final(self).whitespace_token_buffer == old(self).token_buffer_whitespace,
            final(self).tokens == old(self).tokens,
            final(self).events == old(self).events,
            final(self).depth == old(self).depth,
    {
        let start = match self.token_buffer {
            Some(b) => b,
            None => 0,
        };
        let end = match self.whitespace_token_buffer {
            Some(w) => w,
            None => self.pos,
        };
        self.token_buffer = None;
        self.pos = start;
        self.whitespace_token_buffer = self.token_buffer_whitespace;
        self.token_buffer_whitespace = None;
        Range { start, end }
    }

    /// Applies the current token and moves past it. Spaces are held back;
    /// any other token first emits the held-back whitespace, then itself,
    /// unless a lookahead buffer is open.
    pub fn advance(&mut self)
        requires
            old(self).wf(),
            !old(self).spec_eof(),
        ensures
            final(self).wf(),
            final(self).pos == old(self).pos + 1,
            final(self).tokens == old(self).tokens,
            final(self).token_buffer == old(self).token_buffer,
            final(self).depth == old(self).depth,
            old(self).tokens@[old(self).pos as int].kind == SyntaxKind::Whitespace ==> {
                &&& final(self).events == old(self).events
                &&& final(self).whitespace_token_buffer == (match old(self).whitespace_token_buffer {
                    Some(w) => Some(w),
                    None => Some(old(self).pos),
                })
            },
            old(self).tokens@[old(self).pos as int].kind != SyntaxKind::Whitespace ==> {
                &&& final(self).whitespace_token_buffer is None
                &&& final(self).events@ == old(self).events@ + (if old(self).token_buffer is None {
                    token_events(old(self).emit_point(), old(self).pos + 1)
                } else {
                    seq![]
                })
            },
    {
        let count = self.tokens.len();
        assert(self.pos < count);
        if self.tokens[self.pos].kind == SyntaxKind::Whitespace {
            if self.whitespace_token_buffer.is_none() {
                self.whitespace_token_buffer = Some(self.pos);
            }
            self.pos = self.pos + 1;
        } else {
            let ghost es0 = self.events@;
            let ghost from = self.emit_point();
            self.flush_token_buffer();
            let ghost es1 = self.events@;
            if self.token_buffer.is_none() {
                self.events.push(ParserEvent::Token(self.pos));
                proof {
                    lemma_emitted_push(es1, ParserEvent::Token(self.pos));
                    assert(indices(0, self.pos as int).push(self.pos) =~= indices(0, self.pos + 1));
                    assert(es1 + seq![ParserEvent::Token(self.pos)] =~= self.events@);
                    assert(token_events(from, self.pos as int).push(ParserEvent::Token(self.pos)) =~= token_events(from, self.pos + 1));
                    if old(self).whitespace_token_buffer is None {
                        assert(es1 =~= es0);
                        assert(token_events(from, self.pos as int) =~= seq![]);
                    }
                    assert(self.events@ =~= es0 + token_events(from, self.pos + 1));
                }
            } else {
                assert(es1 =~= es0);
                assert(self.events@ =~= es0 + seq![]);
            }
            self.pos = self.pos + 1;
        }
    }

    /// Whether the cursor is past the last token.
    pub fn eof(&self) -> (r: bool)
        ensures
            r == self.spec_eof(),
    {
        self.pos == self.tokens.len()
    }

    /// Looks ahead `lookahead` tokens from the cursor, skipping trivia where
    /// `ignore_whitespace`; past the last token, the end token.
    pub fn nth(&self, lookahead: usize, ignore_whitespace: bool) -> (r: &Token)
        requires
            self.pos <= self.tokens@.len(),
        ensures
            ignore_whitespace ==> *r == self.spec_nth_significant(lookahead as int),
            !ignore_whitespace ==> *r == self.spec_nth_raw(lookahead as int),
    {
        if ignore_whitespace {
            let mut idx: usize = self.pos;
            let mut remaining: usize = lookahead;
            while idx < self.tokens.len()
                invariant
                    ignore_whitespace,
                    self.pos <= idx <= self.tokens@.len(),
                    nth_significant(self.tokens@, self.pos as int, lookahead as int) == nth_significant(self.tokens@, idx as int, remaining as int),
                decreases self.tokens@.len() - idx,
            {
                let token = &self.tokens[idx];
                if !token.kind.is_trivia() {
                    if remaining == 0 {
                        return token;
                    }
                    remaining = remaining - 1;
                }
                idx = idx + 1;
            }
            &self.eof_token
        } else {
            if lookahead < self.tokens.len() - self.pos {
                &self.tokens[self.pos + lookahead]
            } else {
                &self.eof_token
            }
        }
    }

    /// Whether the current token is of `kind`.
    pub fn at(&self, kind: SyntaxKind) -> (r: bool)
        requires
            self.pos <= self.tokens@.len(),
        ensures
            r == (self.spec_nth_raw(0).kind == kind),
    {
        self.nth(0, false).kind == kind
    }

    /// Whether the current token is of one of `kinds`.
    pub fn at_any(&self, kinds: &[SyntaxKind]) -> (r: bool)
        requires
            self.pos <= self.tokens@.len(),
        ensures
            r == exists|i: int| 0 <= i < kinds@.len() && self.spec_nth_raw(0).kind == #[trigger] kinds@[i],
    {
        let mut i: usize = 0;
        while i < kinds.len()
            invariant
                0 <= i <= kinds@.len(),
                self.pos <= self.tokens@.len(),
                forall|j: int| 0 <= j < i ==> self.spec_nth_raw(0).kind != #[trigger] kinds@[j],
            decreases kinds@.len() - i,
        {
            if self.at(kinds[i]) {
                return true;
            }
            i = i + 1;
        }
        false
    }

    /// Whether the tokens from the cursor on are of `kinds`, one by one.
    pub fn at_all(&self, kinds: &[SyntaxKind]) -> (r: bool)
        requires
            self.pos <= self.tokens@.len(),
        ensures
            r == self.spec_at_all(kinds@),
    {
        let mut i: usize = 0;
        while i < kinds.len()
            invariant
                0 <= i <= kinds@.len(),
                self.pos <= self.tokens@.len(),
                forall|j: int| 0 <= j < i ==> self.spec_nth_raw(j).kind == #[trigger] kinds@[j],
            decreases kinds@.len() - i,
        {
            if self.nth(i, false).kind != kinds[i] {
                return false;
            }
            i = i + 1;
        }
        true
    }

    /// Whether the tokens from the cursor on match one of the sequences of
    /// `kinds`.
    pub fn at_any_all(&self, kinds: &Vec<&[SyntaxKind]>) -> (r: bool)
        requires
            self.pos <= self.tokens@.len(),
        ensures
            r == exists|k: int| 0 <= k < kinds@.len() && self.spec_at_all(#[trigger] kinds@[k]@),
    {
        let mut k: usize = 0;
        while k < kinds.len()
            invariant
                0 <= k <= kinds@.len(),
                self.pos <= self.tokens@.len(),
                forall|j: int| 0 <= j < k ==> !self.spec_at_all(#[trigger] kinds@[j]@),
            decreases kinds@.len() - k,
        {
            if self.at_all(kinds[k]) {
                return true;
            }
            k = k + 1;
        }
        false
    }

    /// Consumes the current token where it is of `kind`.
    pub fn eat(&mut self, kind: SyntaxKind) -> (r: bool)
        requires
            old(self).wf(),
            kind == SyntaxKind::Eof ==> !old(self).spec_eof(),
        ensures
            final(self).wf(),
            r == (old(self).spec_nth_raw(0).kind == kind),
            !r ==> *final(self) == *old(self),
            r ==> {
                &&& final(self).pos == old(self).pos + 1
                &&& final(self).tokens == old(self).tokens
                &&& final(self).token_buffer == old(self).token_buffer
                &&& final(self).depth == old(self).depth
                &&& kind == SyntaxKind::Whitespace ==> {
                    &&& final(self).events == old(self).events
                    &&& final(self).whitespace_token_buffer == (match old(self).whitespace_token_buffer {
                        Some(w) => Some(w),
                        None => Some(old(self).pos),
                    })
                }
                &&& kind != SyntaxKind::Whitespace ==> {
                    &&& final(self).whitespace_token_buffer is None
                    &&& final(self).events@ == old(self).events@ + (if old(self).token_buffer is None {
                        token_events(old(self).emit_point(), old(self).pos + 1)
                    } else {
                        seq![]
                    })
                }
            },
    {
        if self.at(kind) {
            self.advance();
            true
        } else {
            false
        }
    }

    /// Whether the current token is a run of spaces.
    pub fn at_whitespace(&self) -> (r: bool)
        requires
            self.pos <= self.tokens@.len(),
        ensures
            r == (self.spec_nth_raw(0).kind == SyntaxKind::Whitespace),
    {
        self.nth(0, false).kind == SyntaxKind::Whitespace
    }

    /// Consumes the spaces, line breaks and tabs at the cursor, as
    /// `advance` does one by one.
    pub fn eat_whitespace(&mut self)
        requires
            old(self).wf(),
        ensures
            final(self).wf(),
            final(self).pos >= old(self).pos,
            !final(self).spec_nth_raw(0).kind.spec_is_whitespace(),
            forall|i: int| old(self).pos <= i < final(self).pos ==> (#[trigger] final(self).tokens@[i]).kind.spec_is_whitespace(),
            final(self).tokens == old(self).tokens,
            final(self).token_buffer == old(self).token_buffer,
            final(self).depth == old(self).depth,
            final(self).emit_point() >= old(self).emit_point(),
            final(self).events@ == old(self).events@ + (if old(self).token_buffer is None {
                token_events(old(self).emit_point(), final(self).emit_point())
            } else {
                seq![]
            }),
    {
        let ghost e0 = self.emit_point();
        while self.nth(0, false).kind.is_whitespace()
            invariant
                self.wf(),
                self.pos >= old(self).pos,
                self.tokens == old(self).tokens,
                self.token_buffer == old(self).token_buffer,
                self.depth == old(self).depth,
                e0 == old(self).emit_point(),
                self.emit_point() >= e0,
                self.events@ == old(self).events@ + (if old(self).token_buffer is None { token_events(e0, self.emit_point()) } else { seq![] }),
                forall|i: int| old(self).pos <= i < self.pos ==> (#[trigger] self.tokens@[i]).kind.spec_is_whitespace(),
            decreases self.tokens@.len() - self.pos,
        {
            let ghost e1 = self.emit_point();
            let ghost ev1 = self.events@;
            self.advance();
            proof {
                if old(self).token_buffer is None && self.whitespace_token_buffer is None {
                    lemma_token_events_join(e0, e1, self.pos as int);
                    assert(self.events@ =~= old(self).events@ + token_events(e0, self.emit_point()));
                }
            }
        }
    }
}


/// Lossless emission: once the cursor is past the last token, with no
/// whitespace held back and no lookahead buffer open, every token has been
/// emitted exactly once, in order.
pub proof fn lemma_all_tokens_emitted(p: Parser)
    requires
        p.wf(),
        p.spec_eof(),
        p.whitespace_token_buffer is None,
        p.token_buffer is None,
    ensures
        emitted(p.events@) == indices(0, p.tokens@.len() as int),
{
}

} // verus!
