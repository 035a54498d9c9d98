//! Order on user keys and on versioned (internal) keys.
//!
//! A user key is a byte string, ordered lexicographically. An internal key
//! pairs a user key with a timestamp; it is ordered by user key first and,
//! within one user key, by timestamp descending, so that newer versions come
//! before older ones.
use vstd::prelude::*;

verus! {

/// Strict lexicographic order on byte strings.
pub open spec fn key_lt(a: Seq<u8>, b: Seq<u8>) -> bool
    decreases a.len(),
{
    if b.len() == 0 {
        false
    } else if a.len() == 0 {
        true
    } else if a[0] != b[0] {
        a[0] < b[0]
    } else {
        key_lt(a.skip(1), b.skip(1))
    }
}

/// Non-strict lexicographic order on byte strings.
pub open spec fn key_le(a: Seq<u8>, b: Seq<u8>) -> bool {
    a == b || key_lt(a, b)
}

/// Strict order on internal keys: ascending user key, then descending timestamp.
pub open spec fn version_lt(k1: Seq<u8>, t1: u64, k2: Seq<u8>, t2: u64) -> bool {
    key_lt(k1, k2) || (k1 == k2 && t1 > t2)
}

/// `key` lies within the inclusive bounds; an absent bound is open.
pub open spec fn in_bounds(key: Seq<u8>, lower: Option<Seq<u8>>, upper: Option<Seq<u8>>) -> bool {
    &&& (lower matches Some(l) ==> key_le(l, key))
    &&& (upper matches Some(u) ==> key_le(key, u))
}

/// An optional bound as a plain value.
pub open spec fn bound_view(b: Option<&Vec<u8>>) -> Option<Seq<u8>> {
    match b {
        Some(k) => Some(k@),
        None => None,
    }
}

/// No byte string is below itself.
pub proof fn lemma_key_lt_irreflexive(a: Seq<u8>)
    ensures
        !key_lt(a, a),
    decreases a.len(),
{
    if a.len() > 0 {
        lemma_key_lt_irreflexive(a.skip(1));
    }
}

/// Of two byte strings exactly one of: below, equal, above.
pub proof fn lemma_key_trichotomy(a: Seq<u8>, b: Seq<u8>)
    ensures
        key_lt(a, b) || a == b || key_lt(b, a),
        !(key_lt(a, b) && key_lt(b, a)),
        !(key_lt(a, b) && a == b),
    decreases a.len(),
{
    lemma_key_lt_irreflexive(a);
    if a.len() == 0 || b.len() == 0 {
        if a.len() == 0 && b.len() == 0 {
            assert(a =~= b);
        }
    } else if a[0] == b[0] {
        lemma_key_trichotomy(a.skip(1), b.skip(1));
        if a.skip(1) == b.skip(1) {
            assert forall|i: int| 0 <= i < a.len() implies a[i] == b[i] by {
                if i > 0 {
                    assert(a[i] == a.skip(1)[i - 1]);
                    assert(b[i] == b.skip(1)[i - 1]);
                }
            }
            assert(a.len() == a.skip(1).len() + 1);
            assert(b.len() == b.skip(1).len() + 1);
            assert(a =~= b);
        }
    }
}

/// The order on byte strings is transitive.
pub proof fn lemma_key_lt_transitive(a: Seq<u8>, b: Seq<u8>, c: Seq<u8>)
    requires
        key_lt(a, b),
        key_lt(b, c),
    ensures
        key_lt(a, c),
    decreases a.len(),
{
    if a.len() > 0 && a[0] == b[0] && b[0] == c[0] {
        lemma_key_lt_transitive(a.skip(1), b.skip(1), c.skip(1));
    }
}

/// `key_le` composed with `key_lt` on either side gives `key_lt`.
pub proof fn lemma_key_le_lt(a: Seq<u8>, b: Seq<u8>, c: Seq<u8>)
    requires
        key_le(a, b) && key_lt(b, c) || key_lt(a, b) && key_le(b, c),
    ensures
        key_lt(a, c),
{
    if a != b && b != c {
        lemma_key_lt_transitive(a, b, c);
    }
}

/// The order on internal keys is transitive.
pub proof fn lemma_version_lt_transitive(
    k1: Seq<u8>,
    t1: u64,
    k2: Seq<u8>,
    t2: u64,
    k3: Seq<u8>,
    t3: u64,
)
    requires
        version_lt(k1, t1, k2, t2),
        version_lt(k2, t2, k3, t3),
    ensures
        version_lt(k1, t1, k3, t3),
{
    if key_lt(k1, k2) && key_lt(k2, k3) {
        lemma_key_lt_transitive(k1, k2, k3);
    }
}

/// Of two internal keys exactly one of: below, equal, above.
pub proof fn lemma_version_trichotomy(k1: Seq<u8>, t1: u64, k2: Seq<u8>, t2: u64)
    ensures
        version_lt(k1, t1, k2, t2) || (k1 == k2 && t1 == t2) || version_lt(k2, t2, k1, t1),
        !(version_lt(k1, t1, k2, t2) && version_lt(k2, t2, k1, t1)),
        !(version_lt(k1, t1, k2, t2) && k1 == k2 && t1 == t2),
{
    lemma_key_trichotomy(k1, k2);
    lemma_key_lt_irreflexive(k1);
}

/// How one key stands to another.
#[derive(Clone, Copy, Debug, PartialEq, Eq, Structural)]
pub enum KeyOrder {
    Less,
    Equal,
    Greater,
}

/// Compares two user keys lexicographically.
pub fn key_order(a: &Vec<u8>, b: &Vec<u8>) -> (r: KeyOrder)
    ensures
        r == KeyOrder::Less <==> key_lt(a@, b@),
        r == KeyOrder::Equal <==> a@ == b@,
        r == KeyOrder::Greater <==> key_lt(b@, a@),
{
    proof {
        lemma_key_trichotomy(a@, b@);
        assert(a@.skip(0) =~= a@);
        assert(b@.skip(0) =~= b@);
    }
    let mut i: usize = 0;
    while i < a.len() && i < b.len()
        invariant
            i <= a.len(),
            i <= b.len(),
            key_lt(a@, b@) == key_lt(a@.skip(i as int), b@.skip(i as int)),
            key_lt(b@, a@) == key_lt(b@.skip(i as int), a@.skip(i as int)),
        decreases a.len() - i,
    {
        proof {
            assert(a@.skip(i as int).skip(1) =~= a@.skip(i + 1));
            assert(b@.skip(i as int).skip(1) =~= b@.skip(i + 1));
        }
        if a[i] < b[i] {
            return KeyOrder::Less;
        } else if a[i] > b[i] {
            return KeyOrder::Greater;
        }
        i += 1;
    }
    if i < b.len() {
        KeyOrder::Less
    } else if i < a.len() {
        KeyOrder::Greater
    } else {
        KeyOrder::Equal
    }
}

/// Whether `key` lies within the inclusive bounds; an absent bound is open.
pub fn within_bounds(key: &Vec<u8>, lower: Option<&Vec<u8>>, upper: Option<&Vec<u8>>) -> (r: bool)
    ensures
        r == in_bounds(key@, bound_view(lower), bound_view(upper)),
{
    let above = match lower {
        Some(l) => key_order(l, key) != KeyOrder::Greater,
        None => true,
    };
    let below = match upper {
        Some(u) => key_order(key, u) != KeyOrder::Greater,
        None => true,
    };
    proof {
        if let Some(l) = lower {
            lemma_key_trichotomy(l@, key@);
        }
        if let Some(u) = upper {
            lemma_key_trichotomy(key@, u@);
        }
    }
    above && below
}

} // verus!
