//! Addresses of nodes in a tree: the chain of child indices from the root.
use vstd::prelude::*;
use std::cmp::Ordering;

verus! {

/// The address of a node: `elements[k]` is the index of the child taken at
/// depth `k`. The root of a statement's tree is `[0]`.
#[derive(Clone, Debug)]
pub struct Path {
    pub elements: Vec<usize>,
}

/// `a[..k] == b[..k]`.
pub open spec fn same_prefix(a: Seq<usize>, b: Seq<usize>, k: int) -> bool {
    &&& k <= a.len()
    &&& k <= b.len()
    &&& a.subrange(0, k) == b.subrange(0, k)
}

/// Orders two addresses from index `k` on: by the first index where they
/// differ, and where one ends first, the shorter first.
pub open spec fn cmp_from(a: Seq<usize>, b: Seq<usize>, k: int) -> Ordering
    decreases a.len() - k,
{
    if k < 0 || k >= a.len() || k >= b.len() {
        if a.len() < b.len() {
            Ordering::Less
        } else if a.len() > b.len() {
            Ordering::Greater
        } else {
            Ordering::Equal
        }
    } else if a[k] < b[k] {
        Ordering::Less
    } else if a[k] > b[k] {
        Ordering::Greater
    } else {
        cmp_from(a, b, k + 1)
    }
}

/// The order of addresses: lexicographic, a node before its descendants.
pub open spec fn path_cmp(a: Seq<usize>, b: Seq<usize>) -> Ordering {
    cmp_from(a, b, 0)
}

/// The character of a decimal digit.
pub open spec fn digit_char(d: nat) -> char {
    if d == 0 { '0' } else if d == 1 { '1' } else if d == 2 { '2' } else if d == 3 { '3' } else if d == 4 { '4' } else if d == 5 { '5' } else if d == 6 { '6' } else if d == 7 { '7' } else if d == 8 { '8' } else { '9' }
}

/// `n` in decimal.
pub open spec fn decimal(n: nat) -> Seq<char>
    decreases n,
{
    if n < 10 {
        seq![digit_char(n)]
    } else {
        decimal(n / 10) + seq![digit_char(n % 10)]
    }
}

/// The indices in decimal, joined by dots.
pub open spec fn dotted(s: Seq<usize>) -> Seq<char>
    decreases s.len(),
{
    if s.len() == 0 {
        seq![]
    } else if s.len() == 1 {
        decimal(s[0] as nat)
    } else {
        dotted(s.drop_last()) + seq!['.'] + decimal(s.last() as nat)
    }
}

fn digit(d: usize) -> (r: &'static str)
    requires
        d < 10,
    ensures
        r@ == seq![digit_char(d as nat)],
{
    if d == 0 {
        proof { reveal_strlit("0"); }
        "0"
    } else if d == 1 {
        proof { reveal_strlit("1"); }
        "1"
    } else if d == 2 {
        proof { reveal_strlit("2"); }
        "2"
    } else if d == 3 {
        proof { reveal_strlit("3"); }
        "3"
    } else if d == 4 {
        proof { reveal_strlit("4"); }
        "4"
    } else if d == 5 {
        proof { reveal_strlit("5"); }
        "5"
    } else if d == 6 {
        proof { reveal_strlit("6"); }
        "6"
    } else if d == 7 {
        proof { reveal_strlit("7"); }
        "7"
    } else if d == 8 {
        proof { reveal_strlit("8"); }
        "8"
    } else {
        proof { reveal_strlit("9"); }
        "9"
    }
}

fn push_decimal(out: &mut String, n: usize)
    ensures
        final(out)@ == old(out)@ + decimal(n as nat),
    decreases n,
{
    if n >= 10 {
        push_decimal(out, n / 10);
    }
    out.append(digit(n % 10));
    proof {
        assert(final(out)@ =~= old(out)@ + decimal(n as nat));
    }
}

impl PartialEq for Path {
    fn eq(&self, other: &Path) -> (r: bool) {
        let n = self.elements.len();
        if n != other.elements.len() {
            return false;
        }
        let mut k: usize = 0;
        while k < n
            invariant
                n == self.elements@.len() == other.elements@.len(),
                0 <= k <= n,
                forall|i: int| 0 <= i < k ==> self.elements@[i] == other.elements@[i],
            decreases n - k,
        {
            if self.elements[k] != other.elements[k] {
                return false;
            }
            k = k + 1;
        }
        assert(self.elements@ =~= other.elements@);
        true
    }
}

impl vstd::std_specs::cmp::PartialEqSpecImpl for Path {
    open spec fn obeys_eq_spec() -> bool {
        true
    }

    open spec fn eq_spec(&self, other: &Path) -> bool {
        self.elements@ == other.elements@
    }
}

impl PartialOrd for Path {
    fn partial_cmp(&self, other: &Path) -> (r: Option<Ordering>) {
        Some(self.compare(other))
    }
}

impl vstd::std_specs::cmp::PartialOrdSpecImpl for Path {
    open spec fn obeys_partial_cmp_spec() -> bool {
        true
    }

    open spec fn partial_cmp_spec(&self, other: &Path) -> Option<Ordering> {
        Some(path_cmp(self.elements@, other.elements@))
    }
}

impl Path {
    pub fn new(elements: Vec<usize>) -> (r: Path)
        ensures
            r.elements@ == elements@,
    {
        Path { elements }
    }

    /// The address of child `child` of `parent`.
    pub fn from_parent(parent: Path, child: usize) -> (r: Path)
        ensures
            r.elements@ == parent.elements@.push(child),
    {
        let mut elements = parent.elements;
        elements.push(child);
        Path { elements }
    }

    /// Whether `other` is a prefix of this address: this node lies in the
    /// subtree of `other`, or is `other` itself.
    pub fn is_child_of(&self, other: &Path) -> (r: bool)
        ensures
            r == same_prefix(self.elements@, other.elements@, other.elements@.len() as int),
    {
        let n = other.elements.len();
        if n > self.elements.len() {
            return false;
        }
        let mut k: usize = 0;
        while k < n
            invariant
                n == other.elements@.len() <= self.elements@.len(),
                0 <= k <= n,
                forall|i: int| 0 <= i < k ==> self.elements@[i] == other.elements@[i],
            decreases n - k,
        {
            if self.elements[k] != other.elements[k] {
                assert(self.elements@.subrange(0, n as int)[k as int] != other.elements@.subrange(0, n as int)[k as int]);
                return false;
            }
            k = k + 1;
        }
        assert(self.elements@.subrange(0, n as int) =~= other.elements@.subrange(0, n as int));
        true
    }

    /// Whether this node is a child of `other`, one level down.
    pub fn is_direct_child_of(&self, other: &Path) -> (r: bool)
        ensures
            r == (self.elements@.len() == other.elements@.len() + 1 && same_prefix(self.elements@, other.elements@, other.elements@.len() as int)),
    {
        other.elements.len() < self.elements.len() && self.elements.len() - other.elements.len() == 1 && self.is_child_of(other)
    }

    /// Whether both nodes have the same parent; never for empty addresses.
    pub fn is_sibling_of(&self, other: &Path) -> (r: bool)
        ensures
            r == (self.elements@.len() == other.elements@.len() && self.elements@.len() > 0 && same_prefix(self.elements@, other.elements@, self.elements@.len() - 1)),
    {
        let n = self.elements.len();
        if n != other.elements.len() || n == 0 {
            return false;
        }
        let mut k: usize = 0;
        while k < n - 1
            invariant
                n == self.elements@.len() == other.elements@.len(),
                n > 0,
                0 <= k <= n - 1,
                forall|i: int| 0 <= i < k ==> self.elements@[i] == other.elements@[i],
            decreases n - 1 - k,
        {
            if self.elements[k] != other.elements[k] {
                assert(self.elements@.subrange(0, n - 1)[k as int] != other.elements@.subrange(0, n - 1)[k as int]);
                return false;
            }
            k = k + 1;
        }
        assert(self.elements@.subrange(0, n - 1) =~= other.elements@.subrange(0, n - 1));
        true
    }

    /// The address of the parent. The root `[0]` is its own parent, and so
    /// is the empty address.
    pub fn parent(&self) -> (r: Path)
        ensures
            self.elements@ == seq![0usize] ==> r.elements@ == seq![0usize],
            self.elements@.len() == 0 ==> r.elements@.len() == 0,
            self.elements@ != seq![0usize] && self.elements@.len() > 0 ==> r.elements@ == self.elements@.drop_last(),
    {
        let n = self.elements.len();
        let mut elements: Vec<usize> = Vec::new();
        if n == 0 {
            return Path { elements };
        }
        if n == 1 && self.elements[0] == 0 {
            elements.push(0);
            assert(elements@ =~= seq![0usize]);
            assert(self.elements@ =~= seq![0usize]);
            return Path { elements };
        }
        let mut k: usize = 0;
        while k < n - 1
            invariant
                n == self.elements@.len(),
                n > 0,
                0 <= k <= n - 1,
                elements@ == self.elements@.subrange(0, k as int),
            decreases n - 1 - k,
        {
            elements.push(self.elements[k]);
            assert(self.elements@.subrange(0, k + 1) =~= self.elements@.subrange(0, k as int).push(self.elements@[k as int]));
            k = k + 1;
        }
        proof {
            if self.elements@ =~= seq![0usize] {
            }
        }
        Path { elements }
    }

    /// Orders two addresses: by the first index where they differ, and where
    /// one is a prefix of the other, the shorter first.
    pub fn compare(&self, other: &Path) -> (r: Ordering)
        ensures
            r == path_cmp(self.elements@, other.elements@),
    {
        let a = &self.elements;
        let b = &other.elements;
        let mut k: usize = 0;
        while k < a.len() && k < b.len() && a[k] == b[k]
            invariant
                0 <= k <= a@.len(),
                k <= b@.len(),
                cmp_from(a@, b@, 0) == cmp_from(a@, b@, k as int),
            decreases a@.len() - k,
        {
            k = k + 1;
        }
        if k < a.len() && k < b.len() {
            if a[k] < b[k] { Ordering::Less } else { Ordering::Greater }
        } else if a.len() < b.len() {
            Ordering::Less
        } else if a.len() > b.len() {
            Ordering::Greater
        } else {
            Ordering::Equal
        }
    }

    /// The indices in decimal, joined by dots: `0.1.2`.
    pub fn to_string(&self) -> (r: String)
        ensures
            r@ == dotted(self.elements@),
    {
        let mut out = String::new();
        let mut k: usize = 0;
        while k < self.elements.len()
            invariant
                0 <= k <= self.elements@.len(),
                out@ == dotted(self.elements@.subrange(0, k as int)),
            decreases self.elements@.len() - k,
        {
            if k > 0 {
                out.append(".");
                proof { reveal_strlit("."); }
            }
            push_decimal(&mut out, self.elements[k]);
            proof {
                let s = self.elements@.subrange(0, k + 1);
                assert(s.drop_last() =~= self.elements@.subrange(0, k as int));
                if k == 0 {
                    assert(out@ =~= dotted(s));
                } else {
                    assert(out@ =~= dotted(s));
                }
            }
            k = k + 1;
        }
        assert(self.elements@.subrange(0, self.elements@.len() as int) =~= self.elements@);
        out
    }
}

} // verus!
