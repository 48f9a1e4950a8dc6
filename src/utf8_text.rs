//! Texts measured in UTF-8 bytes: their encoding, and slices taken at
//! character boundaries.
use vstd::prelude::*;
use vstd::utf8::{encode_utf8, encode_utf8_valid_utf8, is_char_boundary, is_char_boundary_iff_not_is_continuation_byte, is_char_boundary_start_end_of_seq, is_continuation_byte, valid_utf8, valid_utf8_split};

verus! {

/// The UTF-8 bytes of a text.
pub open spec fn utf8(s: Seq<char>) -> Seq<u8> {
    encode_utf8(s)
}

/// `i` is a character boundary of the UTF-8 text `b`: its start, its end, or
/// the first byte of a character.
pub open spec fn on_char(b: Seq<u8>, i: int) -> bool {
    is_char_boundary(b, i)
}

/// The encoding of two texts one after the other is their encodings one
/// after the other.
pub proof fn lemma_utf8_concat(a: Seq<char>, b: Seq<char>)
    ensures
        utf8(a + b) == utf8(a) + utf8(b),
    decreases a.len(),
{
    if a.len() == 0 {
        assert(a + b =~= b);
        assert(utf8(a) + utf8(b) =~= utf8(b));
    } else {
        lemma_utf8_concat(a.drop_first(), b);
        assert((a + b).drop_first() =~= a.drop_first() + b);
        assert(utf8(a + b) =~= utf8(a) + utf8(b));
    }
}

/// The encoding of a text is valid UTF-8.
pub proof fn lemma_utf8_valid(s: Seq<char>)
    ensures
        valid_utf8(utf8(s)),
{
    encode_utf8_valid_utf8(s);
}

/// In valid UTF-8, a position is a character boundary when it is the end, or
/// its byte does not continue a character.
pub proof fn lemma_boundary_local(b: Seq<u8>, x: int)
    requires
        valid_utf8(b),
        0 <= x <= b.len(),
    ensures
        on_char(b, x) <==> (x == b.len() || !is_continuation_byte(b[x])),
{
    if x == b.len() {
        is_char_boundary_start_end_of_seq(b);
    } else {
        is_char_boundary_iff_not_is_continuation_byte(b, x);
    }
}

/// A character boundary lies inside the text or at its end.
pub proof fn lemma_boundary_in(b: Seq<u8>, x: int)
    requires
        valid_utf8(b),
        on_char(b, x),
    ensures
        0 <= x <= b.len(),
{
}

/// In `new`, which is `old` with `[start, end)` replaced by `t` bytes, a
/// boundary before the edit stays where it was, and one after it moves by
/// the change in size.
pub proof fn lemma_boundary_moves(old: Seq<u8>, new: Seq<u8>, start: int, end: int, t: int, x: int)
    requires
        valid_utf8(old),
        valid_utf8(new),
        0 <= start <= end <= old.len(),
        0 <= t,
        new.len() == old.len() - (end - start) + t,
        forall|j: int| 0 <= j < start ==> new[j] == old[j],
        forall|j: int| end <= j < old.len() ==> new[j - end + start + t] == old[j],
    ensures
        0 <= x < start ==> (on_char(old, x) <==> on_char(new, x)),
        end < x <= old.len() ==> (on_char(old, x) <==> on_char(new, x - end + start + t)),
{
    if 0 <= x < start {
        lemma_boundary_local(old, x);
        lemma_boundary_local(new, x);
    }
    if end < x <= old.len() {
        lemma_boundary_local(old, x);
        lemma_boundary_local(new, x - end + start + t);
    }
}

/// A boundary before `b` is a boundary of the first `b` bytes.
proof fn lemma_boundary_prefix(bytes: Seq<u8>, a: int, b: int)
    requires
        valid_utf8(bytes),
        0 <= a <= b <= bytes.len(),
        on_char(bytes, a),
        on_char(bytes, b),
    ensures
        valid_utf8(bytes.subrange(0, b)),
        on_char(bytes.subrange(0, b), a),
{
    valid_utf8_split(bytes, b);
    let head = bytes.subrange(0, b);
    lemma_boundary_local(head, a);
    if a < b {
        lemma_boundary_local(bytes, a);
        assert(head[a] == bytes[a]);
    }
}

/// The bytes `[a, b)` of `s`, which start and end at character boundaries.
pub fn slice(s: &str, a: usize, b: usize) -> (r: String)
    requires
        a <= b <= utf8(s@).len(),
        on_char(utf8(s@), a as int),
        on_char(utf8(s@), b as int),
    ensures
        utf8(r@) == utf8(s@).subrange(a as int, b as int),
{
    proof {
        lemma_utf8_valid(s@);
        lemma_boundary_prefix(utf8(s@), a as int, b as int);
    }
    let (head, _) = s.split_at(b);
    let (_, mid) = head.split_at(a);
    proof {
        assert(utf8(s@).subrange(0, b as int).subrange(a as int, b as int) =~= utf8(s@).subrange(a as int, b as int));
    }
    String::from_str(mid)
}

/// The number of bytes of `s`.
pub fn byte_len(s: &str) -> (r: usize)
    requires
        utf8(s@).len() <= usize::MAX,
    ensures
        r == utf8(s@).len(),
{
    s.len()
}

/// Whether `i` is a character boundary of `s`.
pub fn at_char(s: &str, i: usize) -> (r: bool)
    ensures
        r == on_char(utf8(s@), i as int),
{
    s.is_char_boundary(i)
}

} // verus!
