//! Lexicographic order on byte strings: the order in which Rust's `str` and
//! `String` compare (byte by byte).
use vstd::prelude::*;

verus! {

/// `a` sorts strictly before `b` when compared byte by byte, a proper
/// prefix sorting first.
pub open spec fn bytes_lt(a: Seq<u8>, b: Seq<u8>) -> bool
    decreases a.len(),
{
    if a.len() == 0 {
        b.len() > 0
    } else if b.len() == 0 {
        false
    } else if a[0] != b[0] {
        a[0] < b[0]
    } else {
        bytes_lt(a.drop_first(), b.drop_first())
    }
}

/// No byte string sorts before itself.
pub proof fn lemma_bytes_lt_irreflexive(a: Seq<u8>)
    ensures
        !bytes_lt(a, a),
    decreases a.len(),
{
    if a.len() > 0 {
        lemma_bytes_lt_irreflexive(a.drop_first());
    }
}

/// The order is transitive.
pub proof fn lemma_bytes_lt_transitive(a: Seq<u8>, b: Seq<u8>, c: Seq<u8>)
    requires
        bytes_lt(a, b),
        bytes_lt(b, c),
    ensures
        bytes_lt(a, c),
    decreases a.len(),
{
    if a.len() > 0 && b.len() > 0 && c.len() > 0 && a[0] == b[0] && b[0] == c[0] {
        lemma_bytes_lt_transitive(a.drop_first(), b.drop_first(), c.drop_first());
    }
}

/// Two different byte strings are ordered one way or the other.
pub proof fn lemma_bytes_lt_total(a: Seq<u8>, b: Seq<u8>)
    requires
        a != b,
    ensures
        bytes_lt(a, b) || bytes_lt(b, a),
    decreases a.len(),
{
    if a.len() == 0 {
        assert(b.len() > 0) by {
            if b.len() == 0 {
                assert(a =~= b);
            }
        }
    } else if b.len() > 0 && a[0] == b[0] {
        if a.drop_first() == b.drop_first() {
            assert(a =~= seq![a[0]] + a.drop_first());
            assert(b =~= seq![b[0]] + b.drop_first());
        }
        lemma_bytes_lt_total(a.drop_first(), b.drop_first());
    }
}

/// A proper prefix sorts first: `a` comes before every longer string that
/// begins with it (so `"c"` before `"cpp"`).
pub proof fn lemma_bytes_lt_proper_prefix(a: Seq<u8>, s: Seq<u8>)
    requires
        s.len() > 0,
    ensures
        bytes_lt(a, a + s),
        !bytes_lt(a + s, a),
    decreases a.len(),
{
    if a.len() > 0 {
        assert((a + s)[0] == a[0]);
        assert((a + s).drop_first() =~= a.drop_first() + s);
        lemma_bytes_lt_proper_prefix(a.drop_first(), s);
    } else {
        assert(a + s =~= s);
    }
}

/// Two strings that agree up to some position and then differ are ordered
/// by the first differing byte, whatever follows.
pub proof fn lemma_bytes_lt_first_difference(p: Seq<u8>, x: u8, y: u8, a: Seq<u8>, b: Seq<u8>)
    requires
        x != y,
    ensures
        bytes_lt(p + seq![x] + a, p + seq![y] + b) == (x < y),
    decreases p.len(),
{
    let l = p + seq![x] + a;
    let r = p + seq![y] + b;
    if p.len() > 0 {
        assert(l[0] == p[0] && r[0] == p[0]);
        assert(l.drop_first() =~= p.drop_first() + seq![x] + a);
        assert(r.drop_first() =~= p.drop_first() + seq![y] + b);
        lemma_bytes_lt_first_difference(p.drop_first(), x, y, a, b);
    } else {
        assert(l[0] == x && r[0] == y);
    }
}

/// Compares two byte strings lexicographically.
pub fn bytes_less(a: &[u8], b: &[u8]) -> (r: bool)
    ensures
        r == bytes_lt(a@, b@),
{
    let mut i: usize = 0;
    assert(a@.skip(0) =~= a@);
    assert(b@.skip(0) =~= b@);
    while i < a.len() && i < b.len()
        invariant
            i <= a@.len(),
            i <= b@.len(),
            bytes_lt(a@, b@) == bytes_lt(a@.skip(i as int), b@.skip(i as int)),
        decreases a@.len() - i,
    {
        if a[i] != b[i] {
            return a[i] < b[i];
        }
        assert(a@.skip(i as int).drop_first() =~= a@.skip(i + 1));
        assert(b@.skip(i as int).drop_first() =~= b@.skip(i + 1));
        i = i + 1;
    }
    i < b.len()
}

/// Whether two byte strings are equal.
pub fn bytes_equal(a: &[u8], b: &[u8]) -> (r: bool)
    ensures
        r == (a@ == b@),
{
    if a.len() != b.len() {
        return false;
    }
    let mut i: usize = 0;
    while i < a.len()
        invariant
            i <= a@.len(),
            a@.len() == b@.len(),
            forall|k: int| 0 <= k < i ==> a@[k] == b@[k],
        decreases a@.len() - i,
    {
        if a[i] != b[i] {
            return false;
        }
        i = i + 1;
    }
    assert(a@ =~= b@);
    true
}

} // verus!
