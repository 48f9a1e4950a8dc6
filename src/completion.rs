//! Completion items, and the kinds of tree nodes that give a completion its
//! context.
use vstd::prelude::*;

verus! {

/// What a completion item names.
#[derive(Clone, Copy, Debug, PartialEq, Eq, Structural)]
pub enum CompletionItemKind {
    Table,
    Function,
    Column,
    Schema,
}

/// One completion offered to the editor.
#[derive(Debug)]
pub struct CompletionItem {
    pub label: String,
    pub score: i32,
    pub description: String,
    pub preselected: bool,
    pub kind: CompletionItemKind,
}

/// The closest node around the cursor that tells what is being written.
#[derive(Clone, Copy, Debug, PartialEq, Eq, Structural)]
pub enum WrappingNode {
    Relation,
    BinaryExpression,
    Assignment,
    List,
}

/// Whether two texts hold the same characters.
fn same_text(a: &str, b: &str) -> (r: bool)
    ensures
        r == (a@ == b@),
{
    let n = a.unicode_len();
    if n != b.unicode_len() {
        return false;
    }
    let mut i: usize = 0;
    while i < n
        invariant
            n == a@.len() == b@.len(),
            0 <= i <= n,
            forall|j: int| 0 <= j < i ==> a@[j] == b@[j],
        decreases n - i,
    {
        if a.get_char(i) != b.get_char(i) {
            return false;
        }
        i = i + 1;
    }
    assert(a@ =~= b@);
    true
}

impl WrappingNode {
    /// The wrapping node for a tree node kind, by name.
    pub open spec fn spec_from_kind(value: Seq<char>) -> Option<WrappingNode> {
        if value == "relation"@ {
            Some(WrappingNode::Relation)
        } else if value == "assignment"@ {
            Some(WrappingNode::Assignment)
        } else if value == "binary_expression"@ {
            Some(WrappingNode::BinaryExpression)
        } else if value == "list"@ {
            Some(WrappingNode::List)
        } else {
            None
        }
    }

    /// The wrapping node for a tree node kind; for any other kind, a message
    /// that names it.
    pub fn from_kind(value: &str) -> (r: Result<WrappingNode, String>)
        ensures
            r matches Ok(w) ==> Self::spec_from_kind(value@) == Some(w),
            r matches Err(m) ==> Self::spec_from_kind(value@) is None && m@ == "Unimplemented Relation: "@ + value@,
    {
        proof {
            reveal_strlit("relation");
            reveal_strlit("assignment");
            reveal_strlit("binary_expression");
            reveal_strlit("list");
            reveal_strlit("Unimplemented Relation: ");
        }
        if same_text(value, "relation") {
            Ok(WrappingNode::Relation)
        } else if same_text(value, "assignment") {
            Ok(WrappingNode::Assignment)
        } else if same_text(value, "binary_expression") {
            Ok(WrappingNode::BinaryExpression)
        } else if same_text(value, "list") {
            Ok(WrappingNode::List)
        } else {
            let mut message = String::from_str("Unimplemented Relation: ");
            message.append(value);
            Err(message)
        }
    }
}

} // verus!
