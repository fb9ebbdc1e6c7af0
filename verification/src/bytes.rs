//! The order of keys: byte-lexicographic, with a proper prefix before what
//! it opens.

use vstd::prelude::*;

verus! {

/// `a` comes strictly before `b`.
pub open spec fn bytes_lt(a: Seq<u8>, b: Seq<u8>) -> bool
    decreases a.len(),
{
    if b.len() == 0 {
        false
    } else if a.len() == 0 {
        true
    } else if a[0] != b[0] {
        a[0] < b[0]
    } else {
        bytes_lt(a.drop_first(), b.drop_first())
    }
}

/// `a` comes before `b`, or is `b`.
pub open spec fn bytes_le(a: Seq<u8>, b: Seq<u8>) -> bool {
    a == b || bytes_lt(a, b)
}

/// `a` and `b` agree on their first `n` bytes.
pub open spec fn agree_on(a: Seq<u8>, b: Seq<u8>, n: int) -> bool {
    &&& 0 <= n <= a.len()
    &&& n <= b.len()
    &&& forall|j: int| 0 <= j < n ==> a[j] == b[j]
}

/// No key comes before itself.
pub proof fn lemma_bytes_lt_irreflexive(a: Seq<u8>)
    ensures
        !bytes_lt(a, a),
    decreases a.len(),
{
    if a.len() > 0 {
        lemma_bytes_lt_irreflexive(a.drop_first());
    }
}

/// Of two keys exactly one holds: they are equal, the first comes before the
/// second, or the second before the first.
pub proof fn lemma_bytes_trichotomy(a: Seq<u8>, b: Seq<u8>)
    ensures
        a == b || bytes_lt(a, b) || bytes_lt(b, a),
        !(bytes_lt(a, b) && bytes_lt(b, a)),
        a == b ==> !bytes_lt(a, b) && !bytes_lt(b, a),
    decreases a.len(),
{
    if a.len() == 0 || b.len() == 0 {
        if a.len() == 0 && b.len() == 0 {
            assert(a =~= b);
        }
    } else if a[0] == b[0] {
        lemma_bytes_trichotomy(a.drop_first(), b.drop_first());
        if a.drop_first() == b.drop_first() {
            assert forall|i: int| 0 <= i < a.len() implies a[i] == b[i] by {
                if i > 0 {
                    assert(a[i] == a.drop_first()[i - 1]);
                    assert(b[i] == b.drop_first()[i - 1]);
                }
            }
            assert(a.len() == a.drop_first().len() + 1);
            assert(b.len() == b.drop_first().len() + 1);
            assert(a =~= b);
        }
    }
    if a == b {
        lemma_bytes_lt_irreflexive(a);
    }
}

/// What comes before a key that comes before a third comes before the third.
pub proof fn lemma_bytes_lt_transitive(a: Seq<u8>, b: Seq<u8>, c: Seq<u8>)
    requires
        bytes_lt(a, b),
        bytes_lt(b, c),
    ensures
        bytes_lt(a, c),
    decreases a.len(),
{
    if a.len() > 0 && a[0] == b[0] && b[0] == c[0] {
        lemma_bytes_lt_transitive(a.drop_first(), b.drop_first(), c.drop_first());
    }
}

/// The order of keys is total: reflexive, antisymmetric, transitive, and any
/// two keys are comparable.
pub proof fn lemma_bytes_le_total(a: Seq<u8>, b: Seq<u8>, c: Seq<u8>)
    ensures
        bytes_le(a, a),
        bytes_le(a, b) && bytes_le(b, a) ==> a == b,
        bytes_le(a, b) && bytes_le(b, c) ==> bytes_le(a, c),
        bytes_le(a, b) || bytes_le(b, a),
{
    lemma_bytes_trichotomy(a, b);
    if bytes_lt(a, b) && bytes_lt(b, c) {
        lemma_bytes_lt_transitive(a, b, c);
    }
}

/// Two keys that agree on their first `n` bytes stand to each other as what
/// is left of them after those bytes.
pub proof fn lemma_agreeing_prefix(a: Seq<u8>, b: Seq<u8>, n: int)
    requires
        agree_on(a, b, n),
    ensures
        bytes_lt(a, b) == bytes_lt(a.skip(n), b.skip(n)),
        bytes_lt(b, a) == bytes_lt(b.skip(n), a.skip(n)),
    decreases n,
{
    if n == 0 {
        assert(a.skip(0) =~= a);
        assert(b.skip(0) =~= b);
    } else {
        let a1 = a.drop_first();
        let b1 = b.drop_first();
        assert(a[0] == b[0]);
        assert forall|j: int| 0 <= j < n - 1 implies a1[j] == b1[j] by {
            assert(a1[j] == a[j + 1]);
            assert(b1[j] == b[j + 1]);
        }
        lemma_agreeing_prefix(a1, b1, n - 1);
        assert(a1.skip(n - 1) =~= a.skip(n));
        assert(b1.skip(n - 1) =~= b.skip(n));
    }
}

/// How two keys stand to each other, read off the first place `n` where they
/// stop agreeing: the smaller byte there decides, and where one key ends
/// there, the shorter key comes first.
pub proof fn lemma_decided_at(a: Seq<u8>, b: Seq<u8>, n: usize)
    requires
        agree_on(a, b, n as int),
        n < a.len() && n < b.len() ==> a[n as int] != b[n as int],
    ensures
        n < a.len() && n < b.len() ==> (bytes_lt(a, b) <==> a[n as int] < b[n as int]),
        n < a.len() && n < b.len() ==> a != b,
        !(n < a.len() && n < b.len()) ==> (bytes_lt(a, b) <==> a.len() < b.len()),
        !(n < a.len() && n < b.len()) ==> (a == b <==> a.len() == b.len()),
{
    let k = n as int;
    lemma_agreeing_prefix(a, b, k);
    let ra = a.skip(k);
    let rb = b.skip(k);
    if k < a.len() && k < b.len() {
        assert(ra[0] == a[k]);
        assert(rb[0] == b[k]);
    } else if a.len() == b.len() {
        assert(a =~= b);
        lemma_bytes_lt_irreflexive(a);
    }
}

/// The length of the longest opening that two keys share.
pub fn first_difference(a: &[u8], b: &[u8]) -> (n: usize)
    ensures
        agree_on(a@, b@, n as int),
        n < a@.len() && n < b@.len() ==> a@[n as int] != b@[n as int],
{
    let mut i: usize = 0;
    while i < a.len() && i < b.len() && a[i] == b[i]
        invariant
            agree_on(a@, b@, i as int),
        decreases a@.len() - i,
    {
        i += 1;
    }
    i
}

} // verus!
