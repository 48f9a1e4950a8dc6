//! The tokens of one statement: those of the structured parser, with the
//! gaps between them filled by a small lexer for what that parser skips
//! (spaces, line breaks, tabs and comments); and the statement's tree built
//! from them.
use vstd::prelude::*;
use crate::parser::{ParserEvent, Parser, lemma_token_events_join, token_events};
use crate::syntax_kind::{SyntaxKind, Token};
use crate::text_range::TextRange;
use crate::utf8_text::{at_char, lemma_boundary_in, lemma_utf8_valid, on_char, slice, utf8};

verus! {

/// What the fallback lexer recognises.
#[derive(Clone, Copy, Debug, PartialEq, Eq, Structural)]
pub enum StatementToken {
    /// A run of spaces.
    Whitespace,
    /// A run of line breaks.
    Newline,
    /// A run of tabs.
    Tab,
    /// `--` up to the end of the line, or `/*` up to the first `*/`.
    Comment,
}

impl StatementToken {
    pub open spec fn spec_syntax_kind(self) -> SyntaxKind {
        match self {
            StatementToken::Whitespace => SyntaxKind::Whitespace,
            StatementToken::Newline => SyntaxKind::Newline,
            StatementToken::Tab => SyntaxKind::Tab,
            StatementToken::Comment => SyntaxKind::Comment,
        }
    }

    /// The syntax kind of this token.
    pub fn syntax_kind(&self) -> (r: SyntaxKind)
        ensures
            r == self.spec_syntax_kind(),
    {
        match self {
            StatementToken::Whitespace => SyntaxKind::Whitespace,
            StatementToken::Newline => SyntaxKind::Newline,
            StatementToken::Tab => SyntaxKind::Tab,
            StatementToken::Comment => SyntaxKind::Comment,
        }
    }
}

/// A token of the structured parser: its span in the statement and its kind.
#[derive(Clone, Copy, Debug, PartialEq, Eq, Structural)]
pub struct ScannedToken {
    pub start: u32,
    pub end: u32,
    pub kind: u32,
}

pub const SPACE: u8 = 32;
pub const LINE_FEED: u8 = 10;
pub const TAB: u8 = 9;
pub const DASH: u8 = 45;
pub const SLASH: u8 = 47;
pub const STAR: u8 = 42;

/// How many times `c` repeats from `i` on.
pub open spec fn run_len(t: Seq<u8>, i: int, c: u8) -> int
    decreases t.len() - i,
{
    if 0 <= i < t.len() && t[i] == c { 1 + run_len(t, i + 1, c) } else { 0 }
}

/// How many bytes from `i` on come before the next line break.
pub open spec fn line_len(t: Seq<u8>, i: int) -> int
    decreases t.len() - i,
{
    if 0 <= i < t.len() && t[i] != LINE_FEED { 1 + line_len(t, i + 1) } else { 0 }
}

/// The first `k >= i` where `*/` starts.
pub open spec fn close_from(t: Seq<u8>, i: int) -> Option<int>
    decreases t.len() - i,
{
    if i < 0 || i + 1 >= t.len() {
        None
    } else if t[i] == STAR && t[i + 1] == SLASH {
        Some(i)
    } else {
        close_from(t, i + 1)
    }
}

/// The token that the fallback lexer reads at `i`, with its length.
pub open spec fn lexeme(t: Seq<u8>, i: int) -> Option<(StatementToken, int)> {
    if i < 0 || i >= t.len() {
        None
    } else if t[i] == SPACE {
        Some((StatementToken::Whitespace, run_len(t, i, SPACE)))
    } else if t[i] == LINE_FEED {
        Some((StatementToken::Newline, run_len(t, i, LINE_FEED)))
    } else if t[i] == TAB {
        Some((StatementToken::Tab, run_len(t, i, TAB)))
    } else if t[i] == DASH && i + 1 < t.len() && t[i + 1] == DASH {
        Some((StatementToken::Comment, 2 + line_len(t, i + 2)))
    } else if t[i] == SLASH && i + 1 < t.len() && t[i + 1] == STAR {
        match close_from(t, i + 2) {
            Some(k) => Some((StatementToken::Comment, k + 2 - i)),
            None => None,
        }
    } else {
        None
    }
}

/// The span `[from, to)` is read by the fallback lexer, token after token,
/// without a token running past `to`.
pub open spec fn gap_lexes(t: Seq<u8>, from: int, to: int) -> bool
    decreases to - from,
{
    if from >= to {
        from == to
    } else {
        match lexeme(t, from) {
            Some((_, l)) => l > 0 && from + l <= to && gap_lexes(t, from + l, to),
            None => false,
        }
    }
}

/// The tokens that the fallback lexer reads in `[from, to)`.
pub open spec fn gap_tokens(t: Seq<u8>, from: int, to: int) -> Seq<(SyntaxKind, TextRange)>
    decreases to - from,
{
    if from >= to {
        seq![]
    } else {
        match lexeme(t, from) {
            Some((k, l)) => if l > 0 && from + l <= to {
                seq![(k.spec_syntax_kind(), TextRange { start: from as u32, end: (from + l) as u32 })] + gap_tokens(t, from + l, to)
            } else {
                seq![]
            },
            None => seq![],
        }
    }
}

/// The structured tokens are in order, none overlapping another, all inside
/// a text of `len` bytes.
pub open spec fn scan_ok(s: Seq<ScannedToken>, len: int) -> bool {
    &&& forall|j: int| 0 <= j < s.len() ==> (#[trigger] s[j]).start <= s[j].end && s[j].end <= len
    &&& forall|j: int| 0 <= j < s.len() - 1 ==> (#[trigger] s[j]).end <= s[j + 1].start
}

/// Where the gap before structured token `j` starts.
pub open spec fn gap_start(s: Seq<ScannedToken>, j: int) -> int {
    if j == 0 { 0 } else { s[j - 1].end as int }
}

/// Where the gap before structured token `j` ends: at that token, or at the
/// end of the text after the last one.
pub open spec fn gap_end(s: Seq<ScannedToken>, j: int, len: int) -> int {
    if j < s.len() { s[j].start as int } else { len }
}

/// The structured tokens are in order and every gap around them is read by
/// the fallback lexer.
pub open spec fn gaps_lex(t: Seq<u8>, s: Seq<ScannedToken>) -> bool {
    &&& scan_ok(s, t.len() as int)
    &&& forall|j: int| 0 <= j <= s.len() ==> #[trigger] gap_lexes(t, gap_start(s, j), gap_end(s, j, t.len() as int))
}

/// Every span starts no later than it ends, at character boundaries of `t`.
pub open spec fn spans_on_chars(spans: Seq<(SyntaxKind, TextRange)>, t: Seq<u8>) -> bool {
    forall|k: int| 0 <= k < spans.len() ==> (#[trigger] spans[k]).1.start <= spans[k].1.end
        && on_char(t, spans[k].1.start as int) && on_char(t, spans[k].1.end as int)
}

/// The tokens of a statement can be merged: the structured tokens are in
/// order, every gap is read by the fallback lexer, and every token starts
/// and ends at a character boundary.
pub open spec fn mergeable(t: Seq<u8>, s: Seq<ScannedToken>) -> bool {
    &&& gaps_lex(t, s)
    &&& spans_on_chars(merged(t, s), t)
}

/// The tokens up to structured token `j`: each gap, then that token.
pub open spec fn merged_upto(t: Seq<u8>, s: Seq<ScannedToken>, j: int) -> Seq<(SyntaxKind, TextRange)>
    decreases j,
{
    if j <= 0 {
        seq![]
    } else {
        merged_upto(t, s, j - 1) + gap_tokens(t, gap_start(s, j - 1), gap_end(s, j - 1, t.len() as int))
            + seq![(SyntaxKind::Token(s[j - 1].kind), TextRange { start: s[j - 1].start, end: s[j - 1].end })]
    }
}

/// All tokens of a statement, in order.
pub open spec fn merged(t: Seq<u8>, s: Seq<ScannedToken>) -> Seq<(SyntaxKind, TextRange)> {
    merged_upto(t, s, s.len() as int) + gap_tokens(t, gap_start(s, s.len() as int), t.len() as int)
}

/// The kinds and spans of tokens.
pub open spec fn kinds_and_spans(ts: Seq<Token>) -> Seq<(SyntaxKind, TextRange)> {
    ts.map_values(|tk: Token| (tk.kind, tk.span))
}

/// Each token's text is the part of `t` that its span covers.
pub open spec fn texts_match(ts: Seq<Token>, t: Seq<u8>) -> bool {
    forall|k: int| 0 <= k < ts.len() ==> #[trigger] utf8(ts[k].text@) == t.subrange(ts[k].span.start as int, ts[k].span.end as int)
}

fn run_length(t: &Vec<u8>, i: usize, c: u8) -> (r: usize)
    requires
        i <= t@.len(),
    ensures
        r == run_len(t@, i as int, c),
        i + r <= t@.len(),
{
    let mut j = i;
    while j < t.len() && t[j] == c
        invariant
            i <= j <= t@.len(),
            run_len(t@, i as int, c) == (j - i) + run_len(t@, j as int, c),
        decreases t@.len() - j,
    {
        j = j + 1;
    }
    j - i
}

fn line_length(t: &Vec<u8>, i: usize) -> (r: usize)
    requires
        i <= t@.len(),
    ensures
        r == line_len(t@, i as int),
        i + r <= t@.len(),
{
    let mut j = i;
    while j < t.len() && t[j] != LINE_FEED
        invariant
            i <= j <= t@.len(),
            line_len(t@, i as int) == (j - i) + line_len(t@, j as int),
        decreases t@.len() - j,
    {
        j = j + 1;
    }
    j - i
}

fn find_close(t: &Vec<u8>, i: usize) -> (r: Option<usize>)
    requires
        i <= t@.len(),
    ensures
        r matches Some(k) ==> close_from(t@, i as int) == Some(k as int) && i <= k && k + 2 <= t@.len(),
        r is None ==> close_from(t@, i as int) is None,
{
    let mut k = i;
    while k < t.len() && k + 1 < t.len()
        invariant
            i <= k <= t@.len(),
            close_from(t@, i as int) == close_from(t@, k as int),
        decreases t@.len() - k,
    {
        if t[k] == STAR && t[k + 1] == SLASH {
            return Some(k);
        }
        k = k + 1;
    }
    None
}

/// The token that the fallback lexer reads at `i`, with its length.
pub fn lex_at(t: &Vec<u8>, i: usize) -> (r: Option<(StatementToken, usize)>)
    ensures
        r matches Some((k, l)) ==> lexeme(t@, i as int) == Some((k, l as int)) && i + l <= t@.len(),
        r is None ==> lexeme(t@, i as int) is None,
{
    if i >= t.len() {
        return None;
    }
    let c = t[i];
    if c == SPACE {
        Some((StatementToken::Whitespace, run_length(t, i, SPACE)))
    } else if c == LINE_FEED {
        Some((StatementToken::Newline, run_length(t, i, LINE_FEED)))
    } else if c == TAB {
        Some((StatementToken::Tab, run_length(t, i, TAB)))
    } else if c == DASH && i + 1 < t.len() && t[i + 1] == DASH {
        Some((StatementToken::Comment, 2 + line_length(t, i + 2)))
    } else if c == SLASH && i + 1 < t.len() && t[i + 1] == STAR {
        match find_close(t, i + 2) {
            Some(k) => Some((StatementToken::Comment, k + 2 - i)),
            None => None,
        }
    } else {
        None
    }
}


/// The UTF-8 bytes of `text`.
fn bytes_of(text: &str) -> (r: Vec<u8>)
    ensures
        r@ == utf8(text@),
{
    text.as_bytes_vec()
}

/// Checks that the structured tokens are in order and inside the text.
fn scan_valid(s: &Vec<ScannedToken>, len: u32) -> (r: bool)
    ensures
        r == scan_ok(s@, len as int),
{
    let mut j: usize = 0;
    while j < s.len()
        invariant
            0 <= j <= s@.len(),
            forall|i: int| 0 <= i < j ==> (#[trigger] s@[i]).start <= s@[i].end && s@[i].end <= len,
            forall|i: int| 0 <= i < j - 1 ==> (#[trigger] s@[i]).end <= s@[i + 1].start,
        decreases s@.len() - j,
    {
        let tk = s[j];
        if !(tk.start <= tk.end && tk.end <= len) {
            assert(!(s@[j as int].start <= s@[j as int].end && s@[j as int].end <= len));
            return false;
        }
        if j > 0 && s[j - 1].end > tk.start {
            assert(!(s@[j - 1].end <= s@[j - 1 + 1].start));
            return false;
        }
        j = j + 1;
    }
    true
}

/// Reads `[from, to)` with the fallback lexer, appending its tokens' kinds
/// and spans; fails where no token starts at some point or one runs past
/// `to`.
fn lex_gap(t: &Vec<u8>, from: usize, to: usize, out: &mut Vec<(SyntaxKind, TextRange)>) -> (ok: bool)
    requires
        from <= to <= t@.len(),
        t@.len() <= u32::MAX,
    ensures
        ok == gap_lexes(t@, from as int, to as int),
        ok ==> final(out)@ == old(out)@ + gap_tokens(t@, from as int, to as int),
{
    let ghost base = out@;
    let mut cur = from;
    while cur < to
        invariant
            from <= cur <= to <= t@.len(),
            t@.len() <= u32::MAX,
            gap_lexes(t@, from as int, to as int) == gap_lexes(t@, cur as int, to as int),
            out@ + gap_tokens(t@, cur as int, to as int) == base + gap_tokens(t@, from as int, to as int),
        decreases to - cur,
    {
        match lex_at(t, cur) {
            None => {
                return false;
            },
            Some((k, l)) => {
                if l == 0 || l > to - cur {
                    return false;
                }
                let ghost before = out@;
                out.push((k.syntax_kind(), TextRange { start: cur as u32, end: (cur + l) as u32 }));
                proof {
                    let g = gap_tokens(t@, cur as int, to as int);
                    assert(g == seq![(k.spec_syntax_kind(), TextRange { start: cur as u32, end: (cur + l) as u32 })] + gap_tokens(t@, cur + l, to as int));
                    assert(out@ + gap_tokens(t@, cur + l, to as int) =~= before + g);
                }
                cur = cur + l;
            },
        }
    }
    proof {
        assert(out@ + gap_tokens(t@, cur as int, to as int) =~= out@);
    }
    true
}

/// The kinds and spans of all tokens of a statement, where the gaps can be
/// read.
#[verifier::rlimit(40)]
#[verifier::spinoff_prover]
fn merge_spans(t: &Vec<u8>, scanned: &Vec<ScannedToken>) -> (r: Result<Vec<(SyntaxKind, TextRange)>, u32>)
    requires
        t@.len() <= u32::MAX,
    ensures
        r is Ok <==> gaps_lex(t@, scanned@),
        r matches Ok(spans) ==> spans@ == merged(t@, scanned@),
{
    let len = t.len();
    if !scan_valid(scanned, len as u32) {
        return Err(0);
    }
    let ghost s = scanned@;
    let mut out: Vec<(SyntaxKind, TextRange)> = Vec::new();
    let mut j: usize = 0;
    while j < scanned.len()
        invariant
            s == scanned@,
            len == t@.len(),
            len <= u32::MAX,
            scan_ok(s, len as int),
            0 <= j <= s.len(),
            out@ == merged_upto(t@, s, j as int),
            forall|i: int| 0 <= i < j ==> #[trigger] gap_lexes(t@, gap_start(s, i), gap_end(s, i, len as int)),
        decreases s.len() - j,
    {
        let from = if j == 0 { 0 } else { scanned[j - 1].end as usize };
        let to = scanned[j].start as usize;
        proof {
            assert(s[j as int].start <= s[j as int].end && s[j as int].end <= len);
            if j > 0 {
                assert(s[j - 1].end <= s[j - 1 + 1].start);
            }
        }
        if !lex_gap(t, from, to, &mut out) {
            proof {
                assert(!gap_lexes(t@, gap_start(s, j as int), gap_end(s, j as int, len as int)));
            }
            return Err(from as u32);
        }
        out.push((SyntaxKind::Token(scanned[j].kind), TextRange { start: scanned[j].start, end: scanned[j].end }));
        proof {
            assert(out@ =~= merged_upto(t@, s, j + 1));
        }
        j = j + 1;
    }
    let from = if j == 0 { 0 } else { scanned[j - 1].end as usize };
    proof {
        if j > 0 {
            assert(s[j - 1].start <= s[j - 1].end && s[j - 1].end <= len);
        }
    }
    if !lex_gap(t, from, len, &mut out) {
        proof {
            assert(!gap_lexes(t@, gap_start(s, j as int), gap_end(s, j as int, len as int)));
        }
        return Err(from as u32);
    }
    proof {
        assert forall|i: int| 0 <= i <= s.len() implies #[trigger] gap_lexes(t@, gap_start(s, i), gap_end(s, i, len as int)) by {
            if i == s.len() {
                assert(gap_end(s, i, len as int) == len);
            }
        }
    }
    Ok(out)
}

/// Checks that every span starts no later than it ends, at character
/// boundaries of `text`; returns the offset of the first that does not.
fn check_spans(spans: &Vec<(SyntaxKind, TextRange)>, text: &str) -> (r: Option<u32>)
    ensures
        r is None <==> spans_on_chars(spans@, utf8(text@)),
{
    let mut k: usize = 0;
    while k < spans.len()
        invariant
            0 <= k <= spans@.len(),
            forall|i: int| 0 <= i < k ==> (#[trigger] spans@[i]).1.start <= spans@[i].1.end
                && on_char(utf8(text@), spans@[i].1.start as int) && on_char(utf8(text@), spans@[i].1.end as int),
        decreases spans@.len() - k,
    {
        let r = spans[k].1;
        if !(r.start <= r.end) || !at_char(text, r.start as usize) || !at_char(text, r.end as usize) {
            return Some(r.start);
        }
        k = k + 1;
    }
    None
}

/// Tokens for the spans of `text`.
fn tokens_of(spans: &Vec<(SyntaxKind, TextRange)>, text: &str) -> (r: Vec<Token>)
    requires
        spans_on_chars(spans@, utf8(text@)),
    ensures
        kinds_and_spans(r@) == spans@,
        texts_match(r@, utf8(text@)),
{
    let mut out: Vec<Token> = Vec::new();
    let mut k: usize = 0;
    proof {
        lemma_utf8_valid(text@);
    }
    while k < spans.len()
        invariant
            0 <= k <= spans@.len(),
            spans_on_chars(spans@, utf8(text@)),
            vstd::utf8::valid_utf8(utf8(text@)),
            kinds_and_spans(out@) == spans@.subrange(0, k as int),
            texts_match(out@, utf8(text@)),
        decreases spans@.len() - k,
    {
        let (kind, r) = spans[k];
        proof {
            assert(spans@[k as int].1.start <= spans@[k as int].1.end);
            lemma_boundary_in(utf8(text@), r.end as int);
        }
        let tk = Token { kind, text: slice(text, r.start as usize, r.end as usize), span: r };
        let ghost before = out@;
        out.push(tk);
        proof {
            assert(kinds_and_spans(out@) =~= kinds_and_spans(before).push((kind, r)));
            assert(spans@.subrange(0, k + 1) =~= spans@.subrange(0, k as int).push(spans@[k as int]));
            assert(kinds_and_spans(out@) =~= spans@.subrange(0, k + 1));
            assert forall|m: int| 0 <= m < out@.len() implies #[trigger] utf8(out@[m].text@) == utf8(text@).subrange(out@[m].span.start as int, out@[m].span.end as int) by {
                if m < before.len() {
                    assert(out@[m] == before[m]);
                }
            }
        }
        k = k + 1;
    }
    proof {
        assert(spans@.subrange(0, spans@.len() as int) =~= spans@);
    }
    out
}

/// All tokens of a statement: those of the structured parser, and between
/// them the tokens of the fallback lexer, gap-free, with spans in bytes.
/// Fails, at the offset where it gave up, where the structured tokens are
/// out of order, a gap cannot be read by the fallback lexer, or a token does
/// not start and end at character boundaries.
pub fn merge_tokens(text: &str, scanned: &Vec<ScannedToken>) -> (r: Result<Vec<Token>, u32>)
    requires
        utf8(text@).len() <= u32::MAX,
    ensures
        r is Ok <==> mergeable(utf8(text@), scanned@),
        r matches Ok(ts) ==> kinds_and_spans(ts@) == merged(utf8(text@), scanned@) && texts_match(ts@, utf8(text@)),
{
    let t = bytes_of(text);
    let spans = match merge_spans(&t, scanned) {
        Ok(spans) => spans,
        Err(offset) => {
            return Err(offset);
        },
    };
    match check_spans(&spans, text) {
        Some(offset) => Err(offset),
        None => Ok(tokens_of(&spans, text)),
    }
}


/// The kind of a statement's root node: the one that the structured parser
/// gave, or the generic statement where it could not parse it.
pub open spec fn root_kind(root: Option<u32>) -> SyntaxKind {
    match root {
        Some(k) => SyntaxKind::Node(k),
        None => SyntaxKind::Stmt,
    }
}

/// Builds the tree of one statement: a root node over all of its tokens, in
/// order. `scanned` are the structured parser's tokens and `root` the kind of
/// node it gave the statement, `None` where it could not parse it. The
/// tokens must merge without a gap; `merge_tokens` tells whether they do.
pub fn parse_statement(text: &str, scanned: &Vec<ScannedToken>, root: Option<u32>) -> (p: Parser)
    requires
        utf8(text@).len() <= u32::MAX,
        mergeable(utf8(text@), scanned@),
    ensures
        p.wf(),
        kinds_and_spans(p.tokens@) == merged(utf8(text@), scanned@),
        texts_match(p.tokens@, utf8(text@)),
        p.events@ == seq![ParserEvent::StartNode(root_kind(root))] + token_events(0, p.tokens@.len() as int) + seq![ParserEvent::FinishNode],
        p.depth == 0,
        p.spec_eof(),
{
    let tokens = match merge_tokens(text, scanned) {
        Ok(tokens) => tokens,
        Err(_) => {
            proof {
                assert(false);
            }
            Vec::new()
        },
    };
    let kind = match root {
        Some(k) => SyntaxKind::Node(k),
        None => SyntaxKind::Stmt,
    };
    let mut p = Parser::new(tokens);
    p.start_node(kind);
    proof {
        assert(p.events@ =~= seq![ParserEvent::StartNode(kind)] + token_events(0, p.emit_point()));
    }
    while !p.eof()
        invariant
            p.wf(),
            p.token_buffer is None,
            p.tokens@ == tokens@,
            p.depth == 1,
            p.events@ == seq![ParserEvent::StartNode(kind)] + token_events(0, p.emit_point()),
        decreases p.tokens@.len() - p.pos,
    {
        let ghost e0 = p.emit_point();
        p.advance();
        proof {
            if p.whitespace_token_buffer is None {
                lemma_token_events_join(0, e0, p.pos as int);
                assert(p.events@ =~= seq![ParserEvent::StartNode(kind)] + token_events(0, p.emit_point()));
            }
        }
    }
    let ghost e1 = p.emit_point();
    p.flush_token_buffer();
    proof {
        lemma_token_events_join(0, e1, p.pos as int);
        assert(p.events@ =~= seq![ParserEvent::StartNode(kind)] + token_events(0, p.pos as int));
    }
    p.finish_node();
    proof {
        assert(p.events@ =~= seq![ParserEvent::StartNode(kind)] + token_events(0, p.tokens@.len() as int) + seq![ParserEvent::FinishNode]);
    }
    p
}


/// The spans follow each other without gap or overlap from `from` to `to`.
pub open spec fn tiles(spans: Seq<(SyntaxKind, TextRange)>, from: int, to: int) -> bool
    decreases spans.len(),
{
    if spans.len() == 0 {
        from == to
    } else {
        &&& spans[0].1.start == from
        &&& spans[0].1.start <= spans[0].1.end
        &&& tiles(spans.drop_first(), spans[0].1.end as int, to)
    }
}

/// The texts of the tokens, one after the other.
pub open spec fn joined(ts: Seq<Token>) -> Seq<u8>
    decreases ts.len(),
{
    if ts.len() == 0 {
        seq![]
    } else {
        utf8(ts[0].text@) + joined(ts.drop_first())
    }
}

proof fn lemma_tiles_append(a: Seq<(SyntaxKind, TextRange)>, b: Seq<(SyntaxKind, TextRange)>, x: int, y: int, z: int)
    requires
        tiles(a, x, y),
        tiles(b, y, z),
    ensures
        tiles(a + b, x, z),
    decreases a.len(),
{
    if a.len() > 0 {
        lemma_tiles_append(a.drop_first(), b, a[0].1.end as int, y, z);
        assert((a + b).drop_first() =~= a.drop_first() + b);
    } else {
        assert(a + b =~= b);
    }
}

proof fn lemma_gap_tiles(t: Seq<u8>, from: int, to: int)
    requires
        0 <= from,
        to <= u32::MAX,
        gap_lexes(t, from, to),
    ensures
        tiles(gap_tokens(t, from, to), from, to),
    decreases to - from,
{
    if from < to {
        let (_, l) = lexeme(t, from)->0;
        lemma_gap_tiles(t, from + l, to);
        let g = gap_tokens(t, from, to);
        assert(g.drop_first() =~= gap_tokens(t, from + l, to));
    }
}

proof fn lemma_merged_upto_tiles(t: Seq<u8>, s: Seq<ScannedToken>, j: int)
    requires
        gaps_lex(t, s),
        t.len() <= u32::MAX,
        0 <= j <= s.len(),
    ensures
        tiles(merged_upto(t, s, j), 0, gap_start(s, j)),
    decreases j,
{
    if j > 0 {
        lemma_merged_upto_tiles(t, s, j - 1);
        assert(gap_lexes(t, gap_start(s, j - 1), gap_end(s, j - 1, t.len() as int)));
        assert(s[j - 1].start <= s[j - 1].end);
        if j - 1 > 0 {
            assert(s[j - 2].end <= s[j - 2 + 1].start);
        }
        lemma_gap_tiles(t, gap_start(s, j - 1), gap_end(s, j - 1, t.len() as int));
        lemma_tiles_append(merged_upto(t, s, j - 1), gap_tokens(t, gap_start(s, j - 1), gap_end(s, j - 1, t.len() as int)), 0, gap_start(s, j - 1), s[j - 1].start as int);
        let one = seq![(SyntaxKind::Token(s[j - 1].kind), TextRange { start: s[j - 1].start, end: s[j - 1].end })];
        assert(one.drop_first() =~= Seq::<(SyntaxKind, TextRange)>::empty());
        assert(tiles(one.drop_first(), s[j - 1].end as int, s[j - 1].end as int));
        assert(tiles(one, s[j - 1].start as int, s[j - 1].end as int));
        lemma_tiles_append(merged_upto(t, s, j - 1) + gap_tokens(t, gap_start(s, j - 1), gap_end(s, j - 1, t.len() as int)), one, 0, s[j - 1].start as int, s[j - 1].end as int);
    } else {
        assert(tiles(Seq::<(SyntaxKind, TextRange)>::empty(), 0, 0));
    }
}

proof fn lemma_joined_tiles(ts: Seq<Token>, t: Seq<u8>, from: int, to: int)
    requires
        tiles(kinds_and_spans(ts), from, to),
        texts_match(ts, t),
        0 <= from,
        to <= t.len(),
    ensures
        joined(ts) == t.subrange(from, to),
    decreases ts.len(),
{
    let ks = kinds_and_spans(ts);
    if ts.len() == 0 {
        assert(t.subrange(from, to) =~= Seq::<u8>::empty());
    } else {
        assert(ks.drop_first() =~= kinds_and_spans(ts.drop_first()));
        let e = ts[0].span.end as int;
        lemma_tiles_bounds(ks.drop_first(), e, to);
        assert forall|k: int| 0 <= k < ts.drop_first().len() implies #[trigger] utf8(ts.drop_first()[k].text@) == t.subrange(ts.drop_first()[k].span.start as int, ts.drop_first()[k].span.end as int) by {
            assert(ts.drop_first()[k] == ts[k + 1]);
        }
        lemma_joined_tiles(ts.drop_first(), t, e, to);
        assert(utf8(ts[0].text@) == t.subrange(from, e));
        assert(t.subrange(from, e) + t.subrange(e, to) =~= t.subrange(from, to));
    }
}

proof fn lemma_tiles_bounds(spans: Seq<(SyntaxKind, TextRange)>, from: int, to: int)
    requires
        tiles(spans, from, to),
    ensures
        from <= to,
    decreases spans.len(),
{
    if spans.len() > 0 {
        lemma_tiles_bounds(spans.drop_first(), spans[0].1.end as int, to);
    }
}

/// Lossless tokens: where the structured tokens can be merged, the merged
/// tokens follow each other from the start of the statement to its end,
/// without gap or overlap, and their texts put together give the statement.
pub proof fn lemma_merge_covers(t: Seq<u8>, s: Seq<ScannedToken>, ts: Seq<Token>)
    requires
        t.len() <= u32::MAX,
        mergeable(t, s),
        kinds_and_spans(ts) == merged(t, s),
        texts_match(ts, t),
    ensures
        tiles(kinds_and_spans(ts), 0, t.len() as int),
        joined(ts) == t,
{
    lemma_merged_upto_tiles(t, s, s.len() as int);
    assert(gap_lexes(t, gap_start(s, s.len() as int), gap_end(s, s.len() as int, t.len() as int)));
    if s.len() > 0 {
        assert(s[s.len() - 1].start <= s[s.len() - 1].end && s[s.len() - 1].end <= t.len());
    }
    lemma_gap_tiles(t, gap_start(s, s.len() as int), t.len() as int);
    lemma_tiles_append(merged_upto(t, s, s.len() as int), gap_tokens(t, gap_start(s, s.len() as int), t.len() as int), 0, gap_start(s, s.len() as int), t.len() as int);
    lemma_joined_tiles(ts, t, 0, t.len() as int);
    assert(t.subrange(0, t.len() as int) =~= t);
}

} // verus!
