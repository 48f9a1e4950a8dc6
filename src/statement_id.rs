//! Identities of the statements of a document.
use vstd::prelude::*;

verus! {

/// The identity of a statement. `Root` identities are issued by an
/// [`IdGenerator`]; a `Child` identity names an entry derived from the root
/// statement with the same number, so that both can be dropped together.
#[derive(Clone, Copy, Debug, PartialEq, Eq, Hash, Structural)]
pub enum StatementId {
    Root(u64),
    Child(u64),
}

impl StatementId {
    /// The identity of the entry derived from this root statement; `None` for
    /// a child.
    pub fn get_child_id(&self) -> (r: Option<StatementId>)
        ensures
            r == (match *self {
                StatementId::Root(n) => Some(StatementId::Child(n)),
                StatementId::Child(_) => None,
            }),
    {
        match self {
            StatementId::Root(n) => Some(StatementId::Child(*n)),
            StatementId::Child(_) => None,
        }
    }
}

/// Issues root identities in increasing order; none is issued twice.
#[derive(Debug)]
pub struct IdGenerator {
    pub next_id: u64,
}

impl IdGenerator {
    pub fn new() -> (r: IdGenerator)
        ensures
            r.next_id == 0,
    {
        IdGenerator { next_id: 0 }
    }

    /// Whether `n` more identities can still be issued.
    pub open spec fn has_room(&self, n: int) -> bool {
        self.next_id + n < u64::MAX
    }

    /// Issues the next identity.
    pub fn next(&mut self) -> (r: StatementId)
        requires
            old(self).next_id < u64::MAX,
        ensures
            r == StatementId::Root(old(self).next_id),
            final(self).next_id == old(self).next_id + 1,
    {
        let id = StatementId::Root(self.next_id);
        self.next_id = self.next_id + 1;
        id
    }
}

} // verus!
