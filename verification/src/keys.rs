//! Identities (accounts, lienholders, validators) are strings, ordered as
//! their UTF-8 bytes are: the order in which listings enumerate them.

use vstd::prelude::*;
use vstd::string::StringSliceAdditionalSpecFns;
use vstd::utf8::{encode_utf8, encode_utf8_decode_utf8};

verus! {

/// How one identity stands to another in the order of identities.
#[derive(Clone, Copy, Debug, PartialEq, Eq, Structural)]
pub enum KeyOrder {
    Less,
    Equal,
    Greater,
}

/// `a` and `b` agree on their first `k` bytes, and there `a` ends or holds
/// the smaller byte.
pub open spec fn precedes_at(a: Seq<u8>, b: Seq<u8>, k: int) -> bool {
    &&& 0 <= k <= a.len()
    &&& k < b.len()
    &&& forall|j: int| 0 <= j < k ==> a[j] == b[j]
    &&& (k == a.len() || a[k] < b[k])
}

/// `a` comes before `b` in the lexicographic order of byte strings.
pub open spec fn bytes_lt(a: Seq<u8>, b: Seq<u8>) -> bool {
    exists|k: int| precedes_at(a, b, k)
}

/// `a` comes before `b` in the order of identities.
pub open spec fn key_lt(a: Seq<char>, b: Seq<char>) -> bool {
    bytes_lt(encode_utf8(a), encode_utf8(b))
}

/// No byte string comes before itself.
pub proof fn lemma_bytes_lt_irreflexive(a: Seq<u8>)
    ensures
        !bytes_lt(a, a),
{
}

/// The order of byte strings is transitive.
pub proof fn lemma_bytes_lt_transitive(a: Seq<u8>, b: Seq<u8>, c: Seq<u8>)
    requires
        bytes_lt(a, b),
        bytes_lt(b, c),
    ensures
        bytes_lt(a, c),
{
    let k1 = choose|k: int| precedes_at(a, b, k);
    let k2 = choose|k: int| precedes_at(b, c, k);
    if k1 <= k2 {
        assert(precedes_at(a, c, k1));
    } else {
        assert(precedes_at(a, c, k2));
    }
}

/// No identity comes before itself.
pub proof fn lemma_key_lt_irreflexive(a: Seq<char>)
    ensures
        !key_lt(a, a),
{
    lemma_bytes_lt_irreflexive(encode_utf8(a));
}

/// The order of identities is transitive.
pub proof fn lemma_key_lt_transitive(a: Seq<char>, b: Seq<char>, c: Seq<char>)
    requires
        key_lt(a, b),
        key_lt(b, c),
    ensures
        key_lt(a, c),
{
    lemma_bytes_lt_transitive(encode_utf8(a), encode_utf8(b), encode_utf8(c));
}

/// Of two identities at most one comes before the other.
pub proof fn lemma_key_lt_asymmetric(a: Seq<char>, b: Seq<char>)
    requires
        key_lt(a, b),
    ensures
        !key_lt(b, a),
        a != b,
{
    if key_lt(b, a) {
        lemma_key_lt_transitive(a, b, a);
    }
    lemma_key_lt_irreflexive(a);
}

/// Identities with the same bytes are the same.
pub proof fn lemma_same_bytes_same_key(a: Seq<char>, b: Seq<char>)
    requires
        encode_utf8(a) == encode_utf8(b),
    ensures
        a == b,
{
    encode_utf8_decode_utf8(a);
    encode_utf8_decode_utf8(b);
}

/// Two identities are the same, or one comes before the other.
pub proof fn lemma_key_total(a: Seq<char>, b: Seq<char>)
    ensures
        a == b || key_lt(a, b) || key_lt(b, a),
{
    let x = encode_utf8(a);
    let y = encode_utf8(b);
    if x == y {
        lemma_same_bytes_same_key(a, b);
    } else {
        lemma_bytes_total(x, y, 0);
    }
}

/// Byte strings that agree on their first `k` bytes and differ are ordered.
proof fn lemma_bytes_total(x: Seq<u8>, y: Seq<u8>, k: int)
    requires
        x != y,
        0 <= k <= x.len(),
        k <= y.len(),
        forall|j: int| 0 <= j < k ==> x[j] == y[j],
    ensures
        bytes_lt(x, y) || bytes_lt(y, x),
    decreases x.len() - k,
{
    if k == x.len() {
        if k == y.len() {
            assert(x =~= y);
        } else {
            assert(precedes_at(x, y, k));
        }
    } else if k == y.len() {
        assert(precedes_at(y, x, k));
    } else if x[k] < y[k] {
        assert(precedes_at(x, y, k));
    } else if y[k] < x[k] {
        assert(precedes_at(y, x, k));
    } else {
        lemma_bytes_total(x, y, k + 1);
    }
}

/// Compares two identities.
pub fn key_order(a: &str, b: &str) -> (o: KeyOrder)
    ensures
        match o {
            KeyOrder::Less => key_lt(a@, b@),
            KeyOrder::Equal => a@ == b@,
            KeyOrder::Greater => key_lt(b@, a@),
        },
{
    let x = a.as_bytes();
    let y = b.as_bytes();
    let n = x.len();
    let m = y.len();
    let mut i: usize = 0;
    while i < n && i < m
        invariant
            x@ == encode_utf8(a@),
            y@ == encode_utf8(b@),
            n == x@.len(),
            m == y@.len(),
            i <= n,
            i <= m,
            forall|j: int| 0 <= j < i ==> x@[j] == y@[j],
        decreases n - i,
    {
        if x[i] < y[i] {
            assert(precedes_at(x@, y@, i as int));
            return KeyOrder::Less;
        }
        if x[i] > y[i] {
            assert(precedes_at(y@, x@, i as int));
            return KeyOrder::Greater;
        }
        i = i + 1;
    }
    if n < m {
        assert(precedes_at(x@, y@, i as int));
        KeyOrder::Less
    } else if m < n {
        assert(precedes_at(y@, x@, i as int));
        KeyOrder::Greater
    } else {
        proof {
            assert(x@ =~= y@);
            lemma_same_bytes_same_key(a@, b@);
        }
        KeyOrder::Equal
    }
}

/// Whether two identities are the same.
pub fn same_key(a: &str, b: &str) -> (r: bool)
    ensures
        r == (a@ == b@),
{
    match key_order(a, b) {
        KeyOrder::Equal => true,
        KeyOrder::Less => {
            proof {
                lemma_key_lt_asymmetric(a@, b@);
            }
            false
        },
        KeyOrder::Greater => {
            proof {
                lemma_key_lt_asymmetric(b@, a@);
            }
            false
        },
    }
}

} // verus!
