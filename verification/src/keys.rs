//! Ordered keys and keyed points: the store works over any key type with a
//! total, transitive `le` comparison, and over point types that expose the
//! key at which they sit.

use vstd::prelude::*;
use vstd::utf8::encode_utf8;

verus! {

/// A totally ordered key. `le_spec` must be total and transitive; the
/// executable `le` must decide it exactly, and `dup` must produce an equal
/// value.
pub trait StoreKey: Sized {
    spec fn le_spec(self, other: Self) -> bool;

    proof fn lemma_le_total(a: Self, b: Self)
        ensures
            Self::le_spec(a, b) || Self::le_spec(b, a),
    ;

    proof fn lemma_le_trans(a: Self, b: Self, c: Self)
        requires
            Self::le_spec(a, b),
            Self::le_spec(b, c),
        ensures
            Self::le_spec(a, c),
    ;

    fn le(&self, other: &Self) -> (r: bool)
        ensures
            r == Self::le_spec(*self, *other),
    ;

    fn dup(&self) -> (r: Self)
        ensures
            r == *self,
    ;
}

/// Strict order derived from `le_spec`: `a` sits strictly below `b` when
/// `b` does not sit at or below `a`.
pub open spec fn lt_spec<K: StoreKey>(a: K, b: K) -> bool {
    !K::le_spec(b, a)
}

/// Two keys occupy the same position when each sits at or below the other.
pub open spec fn eqv_spec<K: StoreKey>(a: K, b: K) -> bool {
    K::le_spec(a, b) && K::le_spec(b, a)
}

pub proof fn lemma_le_refl<K: StoreKey>(a: K)
    ensures
        K::le_spec(a, a),
{
    K::lemma_le_total(a, a);
}

pub proof fn lemma_lt_implies_le<K: StoreKey>(a: K, b: K)
    requires
        lt_spec(a, b),
    ensures
        K::le_spec(a, b),
{
    K::lemma_le_total(a, b);
}

pub proof fn lemma_lt_lt_trans<K: StoreKey>(a: K, b: K, c: K)
    requires
        lt_spec(a, b),
        lt_spec(b, c),
    ensures
        lt_spec(a, c),
{
    K::lemma_le_total(a, b);
    if K::le_spec(c, a) {
        K::lemma_le_trans(c, a, b);
    }
}

pub proof fn lemma_le_lt_trans<K: StoreKey>(a: K, b: K, c: K)
    requires
        K::le_spec(a, b),
        lt_spec(b, c),
    ensures
        lt_spec(a, c),
{
    if K::le_spec(c, a) {
        K::lemma_le_trans(c, a, b);
    }
}

pub proof fn lemma_lt_le_trans<K: StoreKey>(a: K, b: K, c: K)
    requires
        lt_spec(a, b),
        K::le_spec(b, c),
    ensures
        lt_spec(a, c),
{
    if K::le_spec(c, a) {
        K::lemma_le_trans(b, c, a);
    }
}

/// A data record that sits at one key position.
pub trait StorePoint<K: StoreKey>: Sized {
    spec fn key_spec(self) -> K;

    fn key(&self) -> (k: K)
        ensures
            k == self.key_spec(),
    ;

    fn dup(&self) -> (r: Self)
        ensures
            r == *self,
    ;
}

impl StoreKey for i64 {
    open spec fn le_spec(self, other: Self) -> bool {
        self <= other
    }

    proof fn lemma_le_total(a: Self, b: Self) {
    }

    proof fn lemma_le_trans(a: Self, b: Self, c: Self) {
    }

    fn le(&self, other: &Self) -> (r: bool) {
        *self <= *other
    }

    fn dup(&self) -> (r: Self) {
        *self
    }
}

impl StorePoint<i64> for i64 {
    open spec fn key_spec(self) -> i64 {
        self
    }

    fn key(&self) -> (k: i64) {
        *self
    }

    fn dup(&self) -> (r: Self) {
        *self
    }
}

/// Lexicographic order over byte sequences.
pub open spec fn bytes_le(x: Seq<u8>, y: Seq<u8>) -> bool
    decreases x.len(),
{
    if x.len() == 0 {
        true
    } else if y.len() == 0 {
        false
    } else if x[0] < y[0] {
        true
    } else if x[0] > y[0] {
        false
    } else {
        bytes_le(x.skip(1), y.skip(1))
    }
}

pub proof fn lemma_bytes_le_total(x: Seq<u8>, y: Seq<u8>)
    ensures
        bytes_le(x, y) || bytes_le(y, x),
    decreases x.len(),
{
    if x.len() != 0 && y.len() != 0 && x[0] == y[0] {
        lemma_bytes_le_total(x.skip(1), y.skip(1));
    }
}

pub proof fn lemma_bytes_le_trans(x: Seq<u8>, y: Seq<u8>, z: Seq<u8>)
    requires
        bytes_le(x, y),
        bytes_le(y, z),
    ensures
        bytes_le(x, z),
    decreases x.len(),
{
    if x.len() != 0 && y.len() != 0 && z.len() != 0 && x[0] == y[0] && y[0] == z[0] {
        lemma_bytes_le_trans(x.skip(1), y.skip(1), z.skip(1));
    }
}

/// Compares two byte slices lexicographically.
fn slice_bytes_le(a: &[u8], b: &[u8]) -> (r: bool)
    ensures
        r == bytes_le(a@, b@),
{
    let mut i: usize = 0;
    let a_len = a.len();
    let b_len = b.len();
    proof {
        assert(a@.skip(0) =~= a@);
        assert(b@.skip(0) =~= b@);
    }
    while i < a_len && i < b_len
        invariant
            0 <= i <= a_len,
            0 <= i <= b_len,
            a_len == a@.len(),
            b_len == b@.len(),
            forall|j: int| 0 <= j < i ==> a@[j] == b@[j],
            bytes_le(a@, b@) == bytes_le(a@.skip(i as int), b@.skip(i as int)),
        decreases a_len - i,
    {
        let x = *vstd::slice::slice_index_get(a, i);
        let y = *vstd::slice::slice_index_get(b, i);
        if x < y {
            proof {
                assert(bytes_le(a@.skip(i as int), b@.skip(i as int)));
            }
            return true;
        }
        if x > y {
            proof {
                assert(!bytes_le(a@.skip(i as int), b@.skip(i as int)));
            }
            return false;
        }
        proof {
            assert(a@.skip(i as int).skip(1) =~= a@.skip(i as int + 1));
            assert(b@.skip(i as int).skip(1) =~= b@.skip(i as int + 1));
        }
        i = i + 1;
    }
    proof {
        if i == a_len {
            assert(a@.skip(i as int).len() == 0);
        } else {
            assert(b@.skip(i as int).len() == 0);
            assert(a@.skip(i as int).len() > 0);
        }
    }
    a_len <= b_len
}

/// Strings are ordered by the lexicographic order of their UTF-8 bytes.
impl StoreKey for String {
    open spec fn le_spec(self, other: Self) -> bool {
        bytes_le(encode_utf8(self@), encode_utf8(other@))
    }

    proof fn lemma_le_total(a: Self, b: Self) {
        lemma_bytes_le_total(encode_utf8(a@), encode_utf8(b@));
    }

    proof fn lemma_le_trans(a: Self, b: Self, c: Self) {
        lemma_bytes_le_trans(encode_utf8(a@), encode_utf8(b@), encode_utf8(c@));
    }

    fn le(&self, other: &Self) -> (r: bool) {
        slice_bytes_le(self.as_str().as_bytes(), other.as_str().as_bytes())
    }

    fn dup(&self) -> (r: Self) {
        self.clone()
    }
}

impl StorePoint<String> for String {
    open spec fn key_spec(self) -> String {
        self
    }

    fn key(&self) -> (k: String) {
        self.clone()
    }

    fn dup(&self) -> (r: Self) {
        self.clone()
    }
}

} // verus!
