//! The order on titles: two texts compare as their UTF-8 bytes do, byte by
//! byte, a proper prefix coming first.

use vstd::prelude::*;
use vstd::utf8::*;

verus! {

/// The first `k` bytes of `a` and of `b` are the same.
pub open spec fn agree_up_to(a: Seq<u8>, b: Seq<u8>, k: int) -> bool {
    &&& 0 <= k <= a.len()
    &&& k <= b.len()
    &&& forall|i: int| 0 <= i < k ==> a[i] == b[i]
}

/// `a` comes no later than `b` in lexicographic byte order: after a common
/// prefix either `a` ends, or `a` holds the smaller byte.
pub open spec fn bytes_le(a: Seq<u8>, b: Seq<u8>) -> bool {
    exists|k: int| #[trigger]
        agree_up_to(a, b, k) && (k == a.len() || (k < b.len() && a[k] < b[k]))
}

/// The order on titles: that of their UTF-8 encodings.
pub open spec fn title_le(a: Seq<char>, b: Seq<char>) -> bool {
    bytes_le(encode_utf8(a), encode_utf8(b))
}

/// The order on titles as a relation, for the library's statements on
/// sorted sequences.
pub open spec fn title_order() -> spec_fn(Seq<char>, Seq<char>) -> bool {
    |a: Seq<char>, b: Seq<char>| title_le(a, b)
}

/// Every pair of titles in `s` stands in ascending order.
pub open spec fn is_sorted(s: Seq<Seq<char>>) -> bool {
    forall|i: int, j: int| 0 <= i < j < s.len() ==> title_le(#[trigger] s[i], #[trigger] s[j])
}

/// A sequence of bytes comes no later than itself.
pub proof fn lemma_bytes_le_reflexive(a: Seq<u8>)
    ensures
        bytes_le(a, a),
{
    assert(agree_up_to(a, a, a.len() as int));
}

/// Two sequences of bytes of which each comes no later than the other are equal.
pub proof fn lemma_bytes_le_antisymmetric(a: Seq<u8>, b: Seq<u8>)
    requires
        bytes_le(a, b),
        bytes_le(b, a),
    ensures
        a == b,
{
    let k1 = choose|k: int| #[trigger]
        agree_up_to(a, b, k) && (k == a.len() || (k < b.len() && a[k] < b[k]));
    let k2 = choose|k: int| #[trigger]
        agree_up_to(b, a, k) && (k == b.len() || (k < a.len() && b[k] < a[k]));
    if k1 < k2 {
        assert(b[k1] == a[k1]);
    } else if k2 < k1 {
        assert(a[k2] == b[k2]);
    }
    assert(a =~= b);
}

/// The byte order is transitive.
pub proof fn lemma_bytes_le_transitive(a: Seq<u8>, b: Seq<u8>, c: Seq<u8>)
    requires
        bytes_le(a, b),
        bytes_le(b, c),
    ensures
        bytes_le(a, c),
{
    let k1 = choose|k: int| #[trigger]
        agree_up_to(a, b, k) && (k == a.len() || (k < b.len() && a[k] < b[k]));
    let k2 = choose|k: int| #[trigger]
        agree_up_to(b, c, k) && (k == b.len() || (k < c.len() && b[k] < c[k]));
    let k = if k1 <= k2 { k1 } else { k2 };
    assert(agree_up_to(a, c, k)) by {
        assert forall|i: int| 0 <= i < k implies a[i] == c[i] by {
            assert(a[i] == b[i]);
            assert(b[i] == c[i]);
        }
    }
    if k1 <= k2 {
        if k1 < a.len() && k1 < k2 {
            assert(b[k1] == c[k1]);
        }
    } else {
        assert(a[k2] == b[k2]);
    }
}

/// Of two sequences that agree on their first `k` bytes, one comes no later
/// than the other.
proof fn lemma_bytes_le_total_from(a: Seq<u8>, b: Seq<u8>, k: int)
    requires
        agree_up_to(a, b, k),
    ensures
        bytes_le(a, b) || bytes_le(b, a),
    decreases a.len() - k,
{
    if k == a.len() {
    } else if k == b.len() {
        assert(agree_up_to(b, a, k));
    } else if a[k] < b[k] {
    } else if b[k] < a[k] {
        assert(agree_up_to(b, a, k));
    } else {
        assert(agree_up_to(a, b, k + 1));
        lemma_bytes_le_total_from(a, b, k + 1);
    }
}

/// Any two sequences of bytes are comparable.
pub proof fn lemma_bytes_le_total(a: Seq<u8>, b: Seq<u8>)
    ensures
        bytes_le(a, b) || bytes_le(b, a),
{
    assert(agree_up_to(a, b, 0));
    lemma_bytes_le_total_from(a, b, 0);
}

/// A title comes no later than itself.
pub proof fn lemma_title_le_reflexive(a: Seq<char>)
    ensures
        title_le(a, a),
{
    lemma_bytes_le_reflexive(encode_utf8(a));
}

/// Two titles of which each comes no later than the other are the same text.
pub proof fn lemma_title_le_antisymmetric(a: Seq<char>, b: Seq<char>)
    requires
        title_le(a, b),
        title_le(b, a),
    ensures
        a == b,
{
    lemma_bytes_le_antisymmetric(encode_utf8(a), encode_utf8(b));
    encode_utf8_decode_utf8(a);
    encode_utf8_decode_utf8(b);
}

/// The order on titles is transitive.
pub proof fn lemma_title_le_transitive(a: Seq<char>, b: Seq<char>, c: Seq<char>)
    requires
        title_le(a, b),
        title_le(b, c),
    ensures
        title_le(a, c),
{
    lemma_bytes_le_transitive(encode_utf8(a), encode_utf8(b), encode_utf8(c));
}

/// Any two titles are comparable.
pub proof fn lemma_title_le_total(a: Seq<char>, b: Seq<char>)
    ensures
        title_le(a, b) || title_le(b, a),
{
    lemma_bytes_le_total(encode_utf8(a), encode_utf8(b));
}

/// The order on titles is a total order.
pub proof fn lemma_title_order_total()
    ensures
        vstd::relations::total_ordering(title_order()),
{
    let r = title_order();
    assert forall|x: Seq<char>| #[trigger] r(x, x) by {
        lemma_title_le_reflexive(x);
    }
    assert forall|x: Seq<char>, y: Seq<char>| #[trigger] r(x, y) && #[trigger] r(y, x) implies x
        == y by {
        lemma_title_le_antisymmetric(x, y);
    }
    assert forall|x: Seq<char>, y: Seq<char>, z: Seq<char>| #[trigger]
        r(x, y) && #[trigger] r(y, z) implies r(x, z) by {
        lemma_title_le_transitive(x, y, z);
    }
    assert forall|x: Seq<char>, y: Seq<char>| #[trigger] r(x, y) || #[trigger] r(y, x) by {
        lemma_title_le_total(x, y);
    }
}

/// Whether the title `a` comes no later than the title `b`.
pub fn precedes(a: &str, b: &str) -> (r: bool)
    ensures
        r == title_le(a@, b@),
{
    let x = a.as_bytes();
    let y = b.as_bytes();
    let mut i: usize = 0;
    while i < x.len() && i < y.len() && x[i] == y[i]
        invariant
            agree_up_to(x@, y@, i as int),
        decreases x.len() - i,
    {
        i += 1;
    }
    if i == x.len() {
        true
    } else if i == y.len() {
        proof {
            assert forall|k: int| #[trigger] agree_up_to(x@, y@, k) implies !(k == x@.len() || (k
                < y@.len() && x@[k] < y@[k])) by {}
        }
        false
    } else {
        proof {
            assert forall|k: int| #[trigger]
                agree_up_to(x@, y@, k) && k != i implies !(k == x@.len() || (k < y@.len() && x@[k]
                < y@[k])) by {
                if k > i {
                    assert(x@[i as int] == y@[i as int]);
                } else {
                    assert(x@[k] == y@[k]);
                }
            }
        }
        x[i] < y[i]
    }
}

/// Whether `a` and `b` are the same text.
pub fn same_text(a: &str, b: &str) -> (r: bool)
    ensures
        r == (a@ == b@),
{
    let x = a.as_bytes();
    let y = b.as_bytes();
    if x.len() != y.len() {
        return false;
    }
    let mut i: usize = 0;
    while i < x.len()
        invariant
            x@ == encode_utf8(a@),
            y@ == encode_utf8(b@),
            x@.len() == y@.len(),
            i <= x@.len(),
            forall|j: int| 0 <= j < i ==> x@[j] == y@[j],
        decreases x.len() - i,
    {
        if x[i] != y[i] {
            return false;
        }
        i += 1;
    }
    proof {
        assert(x@ =~= y@);
        encode_utf8_decode_utf8(a@);
        encode_utf8_decode_utf8(b@);
    }
    true
}

} // verus!
