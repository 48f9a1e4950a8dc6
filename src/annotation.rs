//! Facts about a statement that callers cache under its identity.
use vstd::prelude::*;
use crate::syntax_kind::Token;

verus! {

/// Facts about one statement.
#[derive(Clone, Copy, Debug, PartialEq, Eq, Structural)]
pub struct StatementAnnotations {
    pub ends_with_semicolon: bool,
}

impl StatementAnnotations {
    /// The annotations of a statement with `tokens`: it ends with a
    /// semicolon when its last token that is not whitespace is `;`.
    pub fn from_tokens(tokens: &Vec<Token>) -> (r: StatementAnnotations)
        ensures
            r.ends_with_semicolon == exists|i: int| 0 <= i < tokens@.len() && !(#[trigger] tokens@[i]).kind.spec_is_whitespace()
                && tokens@[i].text@ == seq![';']
                && forall|j: int| i < j < tokens@.len() ==> (#[trigger] tokens@[j]).kind.spec_is_whitespace(),
    {
        let mut k = tokens.len();
        while k > 0 && tokens[k - 1].kind.is_whitespace()
            invariant
                0 <= k <= tokens@.len(),
                forall|j: int| k <= j < tokens@.len() ==> (#[trigger] tokens@[j]).kind.spec_is_whitespace(),
            decreases k,
        {
            k = k - 1;
        }
        if k == 0 {
            return StatementAnnotations { ends_with_semicolon: false };
        }
        let t = tokens[k - 1].text.as_str();
        let semicolon = t.unicode_len() == 1 && t.get_char(0) == ';';
        proof {
            if semicolon {
                assert(tokens@[k - 1].text@ =~= seq![';']);
            }
            assert forall|i: int| 0 <= i < tokens@.len() && !(#[trigger] tokens@[i]).kind.spec_is_whitespace()
                && forall|j: int| i < j < tokens@.len() ==> (#[trigger] tokens@[j]).kind.spec_is_whitespace() implies i == k - 1 by {
                if i < k - 1 {
                    assert(tokens@[k - 1].kind.spec_is_whitespace());
                }
            }
        }
        StatementAnnotations { ends_with_semicolon: semicolon }
    }
}

} // verus!
