//! Kinds of tokens and nodes, and the tokens that a statement's tree is
//! built from.
use vstd::prelude::*;
use crate::text_range::TextRange;

verus! {

/// The kind of a token or node. The fallback lexer's kinds are named; those
/// of the structured parser are carried by their number.
#[derive(Clone, Copy, Debug, PartialEq, Eq, Hash, Structural)]
pub enum SyntaxKind {
    /// A run of spaces.
    Whitespace,
    /// A run of line breaks.
    Newline,
    /// A run of tabs.
    Tab,
    /// A line or block comment.
    Comment,
    /// The end of the input.
    Eof,
    /// A statement that the structured parser could not parse.
    Stmt,
    /// A token kind of the structured parser.
    Token(u32),
    /// A node kind of the structured parser.
    Node(u32),
}

impl SyntaxKind {
    /// Spaces, line breaks and tabs.
    pub open spec fn spec_is_whitespace(self) -> bool {
        self is Whitespace || self is Newline || self is Tab
    }

    /// What grammar decisions skip: whitespace and comments.
    pub open spec fn spec_is_trivia(self) -> bool {
        self.spec_is_whitespace() || self is Comment
    }

    pub fn is_whitespace(&self) -> (r: bool)
        ensures
            r == self.spec_is_whitespace(),
    {
        match self {
            SyntaxKind::Whitespace | SyntaxKind::Newline | SyntaxKind::Tab => true,
            _ => false,
        }
    }

    pub fn is_trivia(&self) -> (r: bool)
        ensures
            r == self.spec_is_trivia(),
    {
        match self {
            SyntaxKind::Whitespace | SyntaxKind::Newline | SyntaxKind::Tab | SyntaxKind::Comment => true,
            _ => false,
        }
    }
}

/// A classified piece of a statement's text.
#[derive(Clone, Debug)]
pub struct Token {
    pub kind: SyntaxKind,
    pub text: String,
    pub span: TextRange,
}

impl Token {
    /// The token that stands past the last one, at `offset`.
    pub fn eof(offset: u32) -> (r: Token)
        ensures
            r.kind == SyntaxKind::Eof,
            r.text@.len() == 0,
            r.span == (TextRange { start: offset, end: offset }),
    {
        Token { kind: SyntaxKind::Eof, text: String::new(), span: TextRange { start: offset, end: offset } }
    }
}

} // verus!
