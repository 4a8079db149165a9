//! The mathematical model of the range store: sequences of keyed points,
//! the merge of two sorted point sequences, normalization of an arbitrary
//! point sequence, and the model-level description of an insertion.

use vstd::prelude::*;
use crate::keys::{
    StoreKey, StorePoint, lt_spec, eqv_spec, lemma_le_refl, lemma_lt_implies_le,
    lemma_lt_lt_trans, lemma_le_lt_trans, lemma_lt_le_trans,
};

verus! {

/// The model of one stored range: its boundary keys and its point sequence.
pub struct EntryModel<K, P> {
    pub start: K,
    pub end: K,
    pub data: Seq<P>,
}

/// A point sequence is sorted when its keys are strictly increasing.
pub open spec fn pts_sorted<K: StoreKey, P: StorePoint<K>>(s: Seq<P>) -> bool {
    forall|i: int, j: int| 0 <= i < j < s.len() ==> lt_spec::<K>(s[i].key_spec(), s[j].key_spec())
}

/// Some point of `s` sits at the position of `k`.
pub open spec fn has_key<K: StoreKey, P: StorePoint<K>>(s: Seq<P>, k: K) -> bool {
    exists|i: int| 0 <= i < s.len() && eqv_spec::<K>(s[i].key_spec(), k)
}

/// Merge of two point sequences, preferring the point of `b` when two
/// points occupy the same key position.
pub open spec fn merge_pts<K: StoreKey, P: StorePoint<K>>(a: Seq<P>, b: Seq<P>) -> Seq<P>
    decreases a.len() + b.len(),
{
    if a.len() == 0 {
        b
    } else if b.len() == 0 {
        a
    } else if lt_spec::<K>(a[0].key_spec(), b[0].key_spec()) {
        seq![a[0]] + merge_pts::<K, P>(a.skip(1), b)
    } else if lt_spec::<K>(b[0].key_spec(), a[0].key_spec()) {
        seq![b[0]] + merge_pts::<K, P>(a, b.skip(1))
    } else {
        seq![b[0]] + merge_pts::<K, P>(a.skip(1), b.skip(1))
    }
}

/// Sorting plus deduplication of an arbitrary point sequence: points are
/// folded in from the left, so a later point wins a key collision.
pub open spec fn normalize<K: StoreKey, P: StorePoint<K>>(pts: Seq<P>) -> Seq<P>
    decreases pts.len(),
{
    if pts.len() == 0 {
        Seq::empty()
    } else {
        merge_pts::<K, P>(normalize::<K, P>(pts.drop_last()), seq![pts.last()])
    }
}

/// The merge of two sequences is non-empty when either input is, and its
/// first point is the first point of one of the inputs, at or below the
/// first key of each.
pub proof fn lemma_merge_first<K: StoreKey, P: StorePoint<K>>(a: Seq<P>, b: Seq<P>)
    requires
        a.len() + b.len() > 0,
    ensures
        ({
            let m = merge_pts::<K, P>(a, b);
            &&& m.len() > 0
            &&& (a.len() > 0 && m[0] == a[0]) || (b.len() > 0 && m[0] == b[0])
            &&& a.len() > 0 ==> K::le_spec(m[0].key_spec(), a[0].key_spec())
            &&& b.len() > 0 ==> K::le_spec(m[0].key_spec(), b[0].key_spec())
        }),
{
    let m = merge_pts::<K, P>(a, b);
    if a.len() == 0 {
        lemma_le_refl::<K>(b[0].key_spec());
    } else if b.len() == 0 {
        lemma_le_refl::<K>(a[0].key_spec());
    } else {
        let ka = a[0].key_spec();
        let kb = b[0].key_spec();
        K::lemma_le_total(ka, kb);
        lemma_le_refl::<K>(ka);
        lemma_le_refl::<K>(kb);
        if lt_spec::<K>(ka, kb) {
            assert(m[0] == a[0]);
            lemma_lt_implies_le::<K>(ka, kb);
        } else if lt_spec::<K>(kb, ka) {
            assert(m[0] == b[0]);
            lemma_lt_implies_le::<K>(kb, ka);
        } else {
            assert(m[0] == b[0]);
        }
    }
}

/// Merging two sorted sequences yields a sorted sequence.
pub proof fn lemma_merge_sorted<K: StoreKey, P: StorePoint<K>>(a: Seq<P>, b: Seq<P>)
    requires
        pts_sorted::<K, P>(a),
        pts_sorted::<K, P>(b),
    ensures
        pts_sorted::<K, P>(merge_pts::<K, P>(a, b)),
    decreases a.len() + b.len(),
{
    let m = merge_pts::<K, P>(a, b);
    if a.len() == 0 || b.len() == 0 {
    } else {
        let ka = a[0].key_spec();
        let kb = b[0].key_spec();
        K::lemma_le_total(ka, kb);
        if lt_spec::<K>(ka, kb) {
            let rest = merge_pts::<K, P>(a.skip(1), b);
            assert(pts_sorted::<K, P>(a.skip(1))) by {
                assert forall|i: int, j: int| 0 <= i < j < a.skip(1).len() implies lt_spec::<K>(
                    a.skip(1)[i].key_spec(),
                    a.skip(1)[j].key_spec(),
                ) by {
                    assert(a.skip(1)[i] == a[i + 1]);
                    assert(a.skip(1)[j] == a[j + 1]);
                }
            }
            lemma_merge_sorted::<K, P>(a.skip(1), b);
            lemma_merge_first::<K, P>(a.skip(1), b);
            assert forall|i: int, j: int| 0 <= i < j < m.len() implies lt_spec::<K>(
                m[i].key_spec(),
                m[j].key_spec(),
            ) by {
                if i > 0 {
                    assert(m[i] == rest[i - 1]);
                    assert(m[j] == rest[j - 1]);
                } else {
                    assert(m[j] == rest[j - 1]);
                    let k0 = rest[0].key_spec();
                    assert(lt_spec::<K>(ka, k0)) by {
                        if a.skip(1).len() > 0 && rest[0] == a.skip(1)[0] {
                            assert(a.skip(1)[0] == a[1]);
                        }
                    }
                    if j - 1 > 0 {
                        lemma_lt_lt_trans::<K>(ka, k0, rest[j - 1].key_spec());
                    }
                }
            }
        } else if lt_spec::<K>(kb, ka) {
            let rest = merge_pts::<K, P>(a, b.skip(1));
            assert(pts_sorted::<K, P>(b.skip(1))) by {
                assert forall|i: int, j: int| 0 <= i < j < b.skip(1).len() implies lt_spec::<K>(
                    b.skip(1)[i].key_spec(),
                    b.skip(1)[j].key_spec(),
                ) by {
                    assert(b.skip(1)[i] == b[i + 1]);
                    assert(b.skip(1)[j] == b[j + 1]);
                }
            }
            lemma_merge_sorted::<K, P>(a, b.skip(1));
            lemma_merge_first::<K, P>(a, b.skip(1));
            assert forall|i: int, j: int| 0 <= i < j < m.len() implies lt_spec::<K>(
                m[i].key_spec(),
                m[j].key_spec(),
            ) by {
                if i > 0 {
                    assert(m[i] == rest[i - 1]);
                    assert(m[j] == rest[j - 1]);
                } else {
                    assert(m[j] == rest[j - 1]);
                    let k0 = rest[0].key_spec();
                    assert(lt_spec::<K>(kb, k0)) by {
                        if b.skip(1).len() > 0 && rest[0] == b.skip(1)[0] {
                            assert(b.skip(1)[0] == b[1]);
                        }
                    }
                    if j - 1 > 0 {
                        lemma_lt_lt_trans::<K>(kb, k0, rest[j - 1].key_spec());
                    }
                }
            }
        } else {
            let rest = merge_pts::<K, P>(a.skip(1), b.skip(1));
            assert(pts_sorted::<K, P>(a.skip(1))) by {
                assert forall|i: int, j: int| 0 <= i < j < a.skip(1).len() implies lt_spec::<K>(
                    a.skip(1)[i].key_spec(),
                    a.skip(1)[j].key_spec(),
                ) by {
                    assert(a.skip(1)[i] == a[i + 1]);
                    assert(a.skip(1)[j] == a[j + 1]);
                }
            }
            assert(pts_sorted::<K, P>(b.skip(1))) by {
                assert forall|i: int, j: int| 0 <= i < j < b.skip(1).len() implies lt_spec::<K>(
                    b.skip(1)[i].key_spec(),
                    b.skip(1)[j].key_spec(),
                ) by {
                    assert(b.skip(1)[i] == b[i + 1]);
                    assert(b.skip(1)[j] == b[j + 1]);
                }
            }
            lemma_merge_sorted::<K, P>(a.skip(1), b.skip(1));
            if a.skip(1).len() + b.skip(1).len() > 0 {
                lemma_merge_first::<K, P>(a.skip(1), b.skip(1));
            }
            assert forall|i: int, j: int| 0 <= i < j < m.len() implies lt_spec::<K>(
                m[i].key_spec(),
                m[j].key_spec(),
            ) by {
                if i > 0 {
                    assert(m[i] == rest[i - 1]);
                    assert(m[j] == rest[j - 1]);
                } else {
                    assert(m[j] == rest[j - 1]);
                    if rest.len() > 0 {
                        let k0 = rest[0].key_spec();
                        assert(lt_spec::<K>(kb, k0)) by {
                            if a.skip(1).len() > 0 && rest[0] == a.skip(1)[0] {
                                assert(a.skip(1)[0] == a[1]);
                                assert(lt_spec::<K>(ka, a[1].key_spec()));
                                // kb is equivalent to ka, which lies below a[1]'s key
                                assert(K::le_spec(kb, ka));
                                if K::le_spec(k0, kb) {
                                    K::lemma_le_trans(k0, kb, ka);
                                    assert(false);
                                }
                            } else {
                                assert(b.skip(1).len() > 0 && rest[0] == b.skip(1)[0]);
                                assert(b.skip(1)[0] == b[1]);
                                assert(lt_spec::<K>(kb, b[1].key_spec()));
                            }
                        }
                        if j - 1 > 0 {
                            lemma_lt_lt_trans::<K>(kb, k0, rest[j - 1].key_spec());
                        }
                    }
                }
            }
        }
    }
}

/// A key position occurs in the merge exactly when it occurs in one of the
/// inputs.
pub proof fn lemma_merge_keys<K: StoreKey, P: StorePoint<K>>(a: Seq<P>, b: Seq<P>)
    ensures
        forall|k: K| #[trigger] has_key::<K, P>(merge_pts::<K, P>(a, b), k)
            <==> has_key::<K, P>(a, k) || has_key::<K, P>(b, k),
    decreases a.len() + b.len(),
{
    let m = merge_pts::<K, P>(a, b);
    if a.len() == 0 || b.len() == 0 {
    } else {
        let ka = a[0].key_spec();
        let kb = b[0].key_spec();
        if lt_spec::<K>(ka, kb) {
            lemma_merge_keys::<K, P>(a.skip(1), b);
            lemma_cons_keys::<K, P>(a[0], merge_pts::<K, P>(a.skip(1), b));
            lemma_cons_keys::<K, P>(a[0], a.skip(1));
            assert(a.skip(1) =~= a.subrange(1, a.len() as int));
            assert(seq![a[0]] + a.skip(1) =~= a);
        } else if lt_spec::<K>(kb, ka) {
            lemma_merge_keys::<K, P>(a, b.skip(1));
            lemma_cons_keys::<K, P>(b[0], merge_pts::<K, P>(a, b.skip(1)));
            lemma_cons_keys::<K, P>(b[0], b.skip(1));
            assert(seq![b[0]] + b.skip(1) =~= b);
        } else {
            lemma_merge_keys::<K, P>(a.skip(1), b.skip(1));
            lemma_cons_keys::<K, P>(b[0], merge_pts::<K, P>(a.skip(1), b.skip(1)));
            lemma_cons_keys::<K, P>(a[0], a.skip(1));
            lemma_cons_keys::<K, P>(b[0], b.skip(1));
            assert(seq![a[0]] + a.skip(1) =~= a);
            assert(seq![b[0]] + b.skip(1) =~= b);
            // the heads of `a` and `b` occupy the same position
            assert forall|k: K| #[trigger] has_key::<K, P>(m, k) implies has_key::<K, P>(a, k)
                || has_key::<K, P>(b, k) by {}
            assert forall|k: K| has_key::<K, P>(a, k) || has_key::<K, P>(b, k) implies #[trigger]
                has_key::<K, P>(m, k) by {
                if eqv_spec::<K>(ka, k) && !eqv_spec::<K>(kb, k) {
                    // ka and kb are equivalent, so kb is also equivalent to k
                    assert(K::le_spec(ka, kb) && K::le_spec(kb, ka));
                    if K::le_spec(ka, k) {
                        K::lemma_le_trans(kb, ka, k);
                    }
                    if K::le_spec(k, ka) {
                        K::lemma_le_trans(k, ka, kb);
                    }
                    assert(false);
                }
            }
        }
    }
}

/// Prepending one point adds exactly its key position.
pub proof fn lemma_cons_keys<K: StoreKey, P: StorePoint<K>>(p: P, s: Seq<P>)
    ensures
        forall|k: K| #[trigger] has_key::<K, P>(seq![p] + s, k)
            <==> eqv_spec::<K>(p.key_spec(), k) || has_key::<K, P>(s, k),
{
    let c = seq![p] + s;
    assert forall|k: K| #[trigger] has_key::<K, P>(c, k) implies eqv_spec::<K>(p.key_spec(), k)
        || has_key::<K, P>(s, k) by {
        let i = choose|i: int| 0 <= i < c.len() && eqv_spec::<K>(c[i].key_spec(), k);
        if i > 0 {
            assert(c[i] == s[i - 1]);
        }
    }
    assert forall|k: K| eqv_spec::<K>(p.key_spec(), k) || has_key::<K, P>(s, k) implies
        #[trigger] has_key::<K, P>(c, k) by {
        if eqv_spec::<K>(p.key_spec(), k) {
            assert(c[0] == p);
            assert(eqv_spec::<K>(c[0].key_spec(), k));
        } else {
            let i = choose|i: int| 0 <= i < s.len() && eqv_spec::<K>(s[i].key_spec(), k);
            assert(c[i + 1] == s[i]);
        }
    }
}

/// Every key of the merge stays at or below any bound that dominates both
/// inputs.
pub proof fn lemma_merge_upper<K: StoreKey, P: StorePoint<K>>(a: Seq<P>, b: Seq<P>, ub: K)
    requires
        forall|i: int| 0 <= i < a.len() ==> K::le_spec(#[trigger] a[i].key_spec(), ub),
        forall|i: int| 0 <= i < b.len() ==> K::le_spec(#[trigger] b[i].key_spec(), ub),
    ensures
        forall|i: int| 0 <= i < merge_pts::<K, P>(a, b).len() ==> K::le_spec(
            #[trigger] merge_pts::<K, P>(a, b)[i].key_spec(),
            ub,
        ),
    decreases a.len() + b.len(),
{
    let m = merge_pts::<K, P>(a, b);
    if a.len() == 0 || b.len() == 0 {
    } else {
        let ka = a[0].key_spec();
        let kb = b[0].key_spec();
        let rest = if lt_spec::<K>(ka, kb) {
            lemma_merge_upper::<K, P>(a.skip(1), b, ub);
            merge_pts::<K, P>(a.skip(1), b)
        } else if lt_spec::<K>(kb, ka) {
            lemma_merge_upper::<K, P>(a, b.skip(1), ub);
            merge_pts::<K, P>(a, b.skip(1))
        } else {
            lemma_merge_upper::<K, P>(a.skip(1), b.skip(1), ub);
            merge_pts::<K, P>(a.skip(1), b.skip(1))
        };
        assert forall|i: int| 0 <= i < m.len() implies K::le_spec(
            #[trigger] m[i].key_spec(),
            ub,
        ) by {
            if i == 0 {
                assert(m[0] == a[0] || m[0] == b[0]);
            } else {
                assert(m[i] == rest[i - 1]);
            }
        }
    }
}

/// Every key of the merge stays strictly above any bound strictly below
/// both inputs.
pub proof fn lemma_merge_lower<K: StoreKey, P: StorePoint<K>>(a: Seq<P>, b: Seq<P>, lb: K)
    requires
        forall|i: int| 0 <= i < a.len() ==> lt_spec::<K>(lb, #[trigger] a[i].key_spec()),
        forall|i: int| 0 <= i < b.len() ==> lt_spec::<K>(lb, #[trigger] b[i].key_spec()),
    ensures
        forall|i: int| 0 <= i < merge_pts::<K, P>(a, b).len() ==> lt_spec::<K>(
            lb,
            #[trigger] merge_pts::<K, P>(a, b)[i].key_spec(),
        ),
    decreases a.len() + b.len(),
{
    let m = merge_pts::<K, P>(a, b);
    if a.len() == 0 || b.len() == 0 {
    } else {
        let ka = a[0].key_spec();
        let kb = b[0].key_spec();
        let rest = if lt_spec::<K>(ka, kb) {
            lemma_merge_lower::<K, P>(a.skip(1), b, lb);
            merge_pts::<K, P>(a.skip(1), b)
        } else if lt_spec::<K>(kb, ka) {
            lemma_merge_lower::<K, P>(a, b.skip(1), lb);
            merge_pts::<K, P>(a, b.skip(1))
        } else {
            lemma_merge_lower::<K, P>(a.skip(1), b.skip(1), lb);
            merge_pts::<K, P>(a.skip(1), b.skip(1))
        };
        assert forall|i: int| 0 <= i < m.len() implies lt_spec::<K>(
            lb,
            #[trigger] m[i].key_spec(),
        ) by {
            if i == 0 {
                assert(m[0] == a[0] || m[0] == b[0]);
            } else {
                assert(m[i] == rest[i - 1]);
            }
        }
    }
}

/// Normalization sorts: the result is strictly sorted by key.
pub proof fn lemma_normalize_sorted<K: StoreKey, P: StorePoint<K>>(pts: Seq<P>)
    ensures
        pts_sorted::<K, P>(normalize::<K, P>(pts)),
    decreases pts.len(),
{
    if pts.len() > 0 {
        lemma_normalize_sorted::<K, P>(pts.drop_last());
        lemma_merge_sorted::<K, P>(normalize::<K, P>(pts.drop_last()), seq![pts.last()]);
    }
}

/// Normalization keeps exactly the key positions of the input, and is
/// non-empty exactly when the input is.
pub proof fn lemma_normalize_keys<K: StoreKey, P: StorePoint<K>>(pts: Seq<P>)
    ensures
        forall|k: K| #[trigger] has_key::<K, P>(normalize::<K, P>(pts), k)
            <==> has_key::<K, P>(pts, k),
        normalize::<K, P>(pts).len() > 0 <==> pts.len() > 0,
    decreases pts.len(),
{
    if pts.len() > 0 {
        let dl = pts.drop_last();
        lemma_normalize_keys::<K, P>(dl);
        lemma_merge_keys::<K, P>(normalize::<K, P>(dl), seq![pts.last()]);
        lemma_merge_first::<K, P>(normalize::<K, P>(dl), seq![pts.last()]);
        assert forall|k: K| #[trigger] has_key::<K, P>(pts, k) implies has_key::<K, P>(dl, k)
            || has_key::<K, P>(seq![pts.last()], k) by {
            let i = choose|i: int| 0 <= i < pts.len() && eqv_spec::<K>(pts[i].key_spec(), k);
            if i < pts.len() - 1 {
                assert(dl[i] == pts[i]);
                assert(eqv_spec::<K>(dl[i].key_spec(), k));
            } else {
                assert(seq![pts.last()][0] == pts[i]);
            }
        }
        assert forall|k: K| has_key::<K, P>(dl, k) || has_key::<K, P>(seq![pts.last()], k)
            implies #[trigger] has_key::<K, P>(pts, k) by {
            if has_key::<K, P>(dl, k) {
                let i = choose|i: int| 0 <= i < dl.len() && eqv_spec::<K>(dl[i].key_spec(), k);
                assert(pts[i] == dl[i]);
                assert(eqv_spec::<K>(pts[i].key_spec(), k));
            } else {
                assert(pts[pts.len() - 1] == seq![pts.last()][0]);
                assert(eqv_spec::<K>(pts[pts.len() - 1].key_spec(), k));
            }
        }
    }
}

// ---------------------------------------------------------------------------
// Entries and stores
// ---------------------------------------------------------------------------

/// A stored range is well formed when its data is a non-empty sorted point
/// sequence and its boundaries are the first and last key actually present.
pub open spec fn entry_wf<K: StoreKey, P: StorePoint<K>>(e: EntryModel<K, P>) -> bool {
    &&& e.data.len() > 0
    &&& pts_sorted::<K, P>(e.data)
    &&& e.start == e.data[0].key_spec()
    &&& e.end == e.data[e.data.len() - 1].key_spec()
}

/// A store is well formed when every entry is, and the entries are sorted
/// and pairwise strictly separated (a shared boundary counts as overlap and
/// would have been merged).
pub open spec fn store_wf<K: StoreKey, P: StorePoint<K>>(v: Seq<EntryModel<K, P>>) -> bool {
    &&& forall|i: int| 0 <= i < v.len() ==> entry_wf::<K, P>(#[trigger] v[i])
    &&& forall|i: int, j: int| 0 <= i < j < v.len() ==> lt_spec::<K>(v[i].end, v[j].start)
}

/// Two closed ranges overlap when neither ends strictly before the other
/// begins; a shared boundary key therefore overlaps.
pub open spec fn entry_overlaps<K: StoreKey, P>(e: EntryModel<K, P>, s: K, t: K) -> bool {
    !lt_spec::<K>(e.end, s) && !lt_spec::<K>(t, e.start)
}

/// The entry fully contains the closed range `[s, t]`.
pub open spec fn entry_contains<K: StoreKey, P>(e: EntryModel<K, P>, s: K, t: K) -> bool {
    K::le_spec(e.start, s) && K::le_spec(t, e.end)
}

/// The key `k` lies in the closed range `[s, t]`.
pub open spec fn within<K: StoreKey>(k: K, s: K, t: K) -> bool {
    K::le_spec(s, k) && K::le_spec(k, t)
}

/// The data of all entries, in store order.
pub open spec fn concat_data<K: StoreKey, P: StorePoint<K>>(v: Seq<EntryModel<K, P>>) -> Seq<P>
    decreases v.len(),
{
    if v.len() == 0 {
        Seq::empty()
    } else {
        concat_data::<K, P>(v.drop_last()) + v.last().data
    }
}

/// The number of points over all entries.
pub open spec fn total_pts<K, P>(v: Seq<EntryModel<K, P>>) -> int
    decreases v.len(),
{
    if v.len() == 0 {
        0
    } else {
        total_pts(v.drop_last()) + v.last().data.len()
    }
}

/// The number of entries overlapping `[s, t]`.
pub open spec fn count_overlap<K: StoreKey, P>(v: Seq<EntryModel<K, P>>, s: K, t: K) -> int
    decreases v.len(),
{
    if v.len() == 0 {
        0
    } else {
        count_overlap(v.drop_last(), s, t) + if entry_overlaps(v.last(), s, t) {
            1int
        } else {
            0int
        }
    }
}

/// The points of `d` whose keys lie in `[s, t]`, in order.
pub open spec fn sel_pts<K: StoreKey, P: StorePoint<K>>(d: Seq<P>, s: K, t: K) -> Seq<P>
    decreases d.len(),
{
    if d.len() == 0 {
        Seq::empty()
    } else {
        sel_pts::<K, P>(d.drop_last(), s, t) + if within::<K>(d.last().key_spec(), s, t) {
            seq![d.last()]
        } else {
            Seq::empty()
        }
    }
}

/// The points of all entries whose keys lie in `[s, t]`, in store order.
pub open spec fn sel_all<K: StoreKey, P: StorePoint<K>>(
    v: Seq<EntryModel<K, P>>,
    s: K,
    t: K,
) -> Seq<P>
    decreases v.len(),
{
    if v.len() == 0 {
        Seq::empty()
    } else {
        sel_all::<K, P>(v.drop_last(), s, t) + sel_pts::<K, P>(v.last().data, s, t)
    }
}

// ---------------------------------------------------------------------------
// The three segments an insertion splits a store into
// ---------------------------------------------------------------------------

/// Entries that end strictly before `s`.
pub open spec fn before_pred<K: StoreKey, P>(s: K) -> spec_fn(EntryModel<K, P>) -> bool {
    |e: EntryModel<K, P>| lt_spec::<K>(e.end, s)
}

/// Entries that begin strictly after `t`.
pub open spec fn after_pred<K: StoreKey, P>(t: K) -> spec_fn(EntryModel<K, P>) -> bool {
    |e: EntryModel<K, P>| lt_spec::<K>(t, e.start)
}

/// Length of the longest prefix on which `pred` holds.
pub open spec fn lead_len<T>(v: Seq<T>, pred: spec_fn(T) -> bool) -> int
    decreases v.len(),
{
    if v.len() == 0 {
        0
    } else if pred(v[0]) {
        1 + lead_len(v.skip(1), pred)
    } else {
        0
    }
}

/// Length of the longest suffix on which `pred` holds.
pub open spec fn trail_len<T>(v: Seq<T>, pred: spec_fn(T) -> bool) -> int
    decreases v.len(),
{
    if v.len() == 0 {
        0
    } else if pred(v.last()) {
        1 + trail_len(v.drop_last(), pred)
    } else {
        0
    }
}

pub proof fn lemma_lead_len_is<T>(v: Seq<T>, pred: spec_fn(T) -> bool, n: int)
    requires
        0 <= n <= v.len(),
        forall|i: int| 0 <= i < n ==> pred(#[trigger] v[i]),
        n < v.len() ==> !pred(v[n]),
    ensures
        lead_len(v, pred) == n,
    decreases v.len(),
{
    if v.len() > 0 && n > 0 {
        assert forall|i: int| 0 <= i < n - 1 implies pred(#[trigger] v.skip(1)[i]) by {
            assert(v.skip(1)[i] == v[i + 1]);
        }
        if n - 1 < v.skip(1).len() {
            assert(v.skip(1)[n - 1] == v[n]);
        }
        lemma_lead_len_is(v.skip(1), pred, n - 1);
    }
}

pub proof fn lemma_trail_len_is<T>(v: Seq<T>, pred: spec_fn(T) -> bool, n: int)
    requires
        0 <= n <= v.len(),
        forall|i: int| v.len() - n <= i < v.len() ==> pred(#[trigger] v[i]),
        n < v.len() ==> !pred(v[v.len() - n - 1]),
    ensures
        trail_len(v, pred) == n,
    decreases v.len(),
{
    if v.len() > 0 && n > 0 {
        assert(pred(v.last()));
        assert forall|i: int| v.drop_last().len() - (n - 1) <= i < v.drop_last().len() implies
            pred(#[trigger] v.drop_last()[i]) by {
            assert(v.drop_last()[i] == v[i]);
        }
        if n - 1 < v.drop_last().len() {
            assert(v.drop_last()[v.drop_last().len() - n] == v[v.len() - n - 1]);
        }
        lemma_trail_len_is(v.drop_last(), pred, n - 1);
    }
}

/// The index after the last entry lying strictly before `s`.
pub open spec fn cut_lo<K: StoreKey, P: StorePoint<K>>(v: Seq<EntryModel<K, P>>, s: K) -> int {
    lead_len(v, before_pred::<K, P>(s))
}

/// The index of the first entry lying strictly after `t`.
pub open spec fn cut_hi<K: StoreKey, P: StorePoint<K>>(v: Seq<EntryModel<K, P>>, t: K) -> int {
    v.len() - trail_len(v, after_pred::<K, P>(t))
}

/// Basic properties of `lead_len`: it marks a prefix on which the predicate
/// holds and fails just past it.
pub proof fn lemma_lead_len_props<T>(v: Seq<T>, pred: spec_fn(T) -> bool)
    ensures
        0 <= lead_len(v, pred) <= v.len(),
        forall|i: int| 0 <= i < lead_len(v, pred) ==> pred(#[trigger] v[i]),
        lead_len(v, pred) < v.len() ==> !pred(v[lead_len(v, pred)]),
    decreases v.len(),
{
    if v.len() > 0 && pred(v[0]) {
        lemma_lead_len_props(v.skip(1), pred);
        assert forall|i: int| 0 <= i < lead_len(v, pred) implies pred(#[trigger] v[i]) by {
            if i > 0 {
                assert(v.skip(1)[i - 1] == v[i]);
            }
        }
        if lead_len(v, pred) < v.len() {
            assert(v.skip(1)[lead_len(v, pred) - 1] == v[lead_len(v, pred)]);
        }
    }
}

pub proof fn lemma_trail_len_props<T>(v: Seq<T>, pred: spec_fn(T) -> bool)
    ensures
        0 <= trail_len(v, pred) <= v.len(),
        forall|i: int| v.len() - trail_len(v, pred) <= i < v.len() ==> pred(#[trigger] v[i]),
        trail_len(v, pred) < v.len() ==> !pred(v[v.len() - trail_len(v, pred) - 1]),
    decreases v.len(),
{
    if v.len() > 0 && pred(v.last()) {
        lemma_trail_len_props(v.drop_last(), pred);
        assert forall|i: int| v.len() - trail_len(v, pred) <= i < v.len() implies pred(
            #[trigger] v[i],
        ) by {
            if i < v.len() - 1 {
                assert(v.drop_last()[i] == v[i]);
            }
        }
        if trail_len(v, pred) < v.len() {
            assert(v.drop_last()[v.drop_last().len() - (trail_len(v, pred) - 1) - 1] == v[v.len()
                - trail_len(v, pred) - 1]);
        }
    }
}

/// In a well-formed store the entries strictly before `s`, the entries
/// overlapping `[s, t]`, and the entries strictly after `t` are three
/// consecutive segments.
pub proof fn lemma_cuts<K: StoreKey, P: StorePoint<K>>(v: Seq<EntryModel<K, P>>, s: K, t: K)
    requires
        store_wf::<K, P>(v),
        K::le_spec(s, t),
    ensures
        0 <= cut_lo::<K, P>(v, s) <= cut_hi::<K, P>(v, t) <= v.len(),
        forall|i: int| 0 <= i < cut_lo::<K, P>(v, s) ==> lt_spec::<K>(
            (#[trigger] v[i]).end,
            s,
        ),
        forall|i: int| cut_lo::<K, P>(v, s) <= i < cut_hi::<K, P>(v, t) ==> entry_overlaps(
            #[trigger] v[i],
            s,
            t,
        ),
        forall|i: int| cut_hi::<K, P>(v, t) <= i < v.len() ==> lt_spec::<K>(
            t,
            (#[trigger] v[i]).start,
        ),
        forall|i: int| 0 <= i < v.len() ==> (entry_overlaps(#[trigger] v[i], s, t) <==> cut_lo::<
            K,
            P,
        >(v, s) <= i < cut_hi::<K, P>(v, t)),
{
    let bp = before_pred::<K, P>(s);
    let ap = after_pred::<K, P>(t);
    let lo = cut_lo::<K, P>(v, s);
    let hi = cut_hi::<K, P>(v, t);
    lemma_lead_len_props(v, bp);
    lemma_trail_len_props(v, ap);
    // an entry spans from its start to its end
    assert forall|i: int| 0 <= i < v.len() implies K::le_spec(
        (#[trigger] v[i]).start,
        v[i].end,
    ) by {
        lemma_sorted_bounds::<K, P>(v[i].data);
    }
    // no entry lies strictly before `s` and strictly after `t` at once
    assert forall|i: int| 0 <= i < v.len() implies !(bp(v[i]) && ap(#[trigger] v[i])) by {
        if bp(v[i]) && ap(v[i]) {
            // t < start <= end < s <= t
            lemma_lt_le_trans::<K>(t, v[i].start, v[i].end);
            lemma_lt_lt_trans::<K>(t, v[i].end, s);
            lemma_lt_le_trans::<K>(t, s, t);
            lemma_le_refl::<K>(t);
        }
    }
    assert(lo <= hi) by {
        if lo > hi {
            assert(bp(v[lo - 1]));
            assert(ap(v[lo - 1]));
        }
    }
    assert forall|i: int| lo <= i < hi implies entry_overlaps(#[trigger] v[i], s, t) by {
        // not before: otherwise the entry at `lo` would be before as well
        if bp(v[i]) {
            assert(lo < v.len());
            if i > lo {
                // v[lo].end < v[i].start <= v[i].end < s
                lemma_lt_le_trans::<K>(v[lo].end, v[i].start, v[i].end);
                lemma_lt_lt_trans::<K>(v[lo].end, v[i].end, s);
            }
            assert(bp(v[lo]));
            assert(false);
        }
        if ap(v[i]) {
            assert(hi >= 1);
            if i < hi - 1 {
                lemma_lt_le_trans::<K>(t, v[i].start, v[i].end);
                lemma_lt_lt_trans::<K>(t, v[i].end, v[hi - 1].start);
            }
            assert(ap(v[hi - 1]));
            assert(false);
        }
    }
    assert forall|i: int| 0 <= i < v.len() implies (entry_overlaps(#[trigger] v[i], s, t) <==> lo
        <= i < hi) by {
        if i < lo {
            assert(bp(v[i]));
        }
        if i >= hi {
            assert(ap(v[i]));
        }
    }
}

/// Dropping the first point keeps a sequence sorted.
pub proof fn lemma_skip_sorted<K: StoreKey, P: StorePoint<K>>(s: Seq<P>)
    requires
        pts_sorted::<K, P>(s),
        s.len() > 0,
    ensures
        pts_sorted::<K, P>(s.skip(1)),
{
    assert forall|i: int, j: int| 0 <= i < j < s.skip(1).len() implies lt_spec::<K>(
        s.skip(1)[i].key_spec(),
        s.skip(1)[j].key_spec(),
    ) by {
        assert(s.skip(1)[i] == s[i + 1]);
        assert(s.skip(1)[j] == s[j + 1]);
    }
}

/// The last point of a merge of sorted sequences is the last point of one
/// of the inputs, and its key dominates the last key of each.
pub proof fn lemma_merge_last<K: StoreKey, P: StorePoint<K>>(a: Seq<P>, b: Seq<P>)
    requires
        pts_sorted::<K, P>(a),
        pts_sorted::<K, P>(b),
        a.len() + b.len() > 0,
    ensures
        ({
            let m = merge_pts::<K, P>(a, b);
            &&& m.len() > 0
            &&& (a.len() > 0 && m.last() == a.last()) || (b.len() > 0 && m.last() == b.last())
            &&& a.len() > 0 ==> K::le_spec(a.last().key_spec(), m.last().key_spec())
            &&& b.len() > 0 ==> K::le_spec(b.last().key_spec(), m.last().key_spec())
        }),
    decreases a.len() + b.len(),
{
    let m = merge_pts::<K, P>(a, b);
    if a.len() == 0 {
        lemma_le_refl::<K>(b.last().key_spec());
    } else if b.len() == 0 {
        lemma_le_refl::<K>(a.last().key_spec());
    } else {
        let ka = a[0].key_spec();
        let kb = b[0].key_spec();
        lemma_sorted_bounds::<K, P>(a);
        lemma_sorted_bounds::<K, P>(b);
        lemma_skip_sorted::<K, P>(a);
        lemma_skip_sorted::<K, P>(b);
        if lt_spec::<K>(ka, kb) {
            lemma_merge_last::<K, P>(a.skip(1), b);
            let rest = merge_pts::<K, P>(a.skip(1), b);
            assert(m.last() == rest.last());
            if a.len() >= 2 {
                assert(a.skip(1).last() == a.last());
            } else {
                // a is the single point a[0], below b's first key
                assert(rest == b);
                lemma_lt_implies_le::<K>(ka, kb);
                K::lemma_le_trans(ka, kb, b.last().key_spec());
            }
        } else if lt_spec::<K>(kb, ka) {
            lemma_merge_last::<K, P>(a, b.skip(1));
            let rest = merge_pts::<K, P>(a, b.skip(1));
            assert(m.last() == rest.last());
            if b.len() >= 2 {
                assert(b.skip(1).last() == b.last());
            } else {
                assert(rest == a);
                lemma_lt_implies_le::<K>(kb, ka);
                K::lemma_le_trans(kb, ka, a.last().key_spec());
            }
        } else {
            // the heads tie
            let rest = merge_pts::<K, P>(a.skip(1), b.skip(1));
            if a.len() == 1 && b.len() == 1 {
                assert(rest.len() == 0);
                assert(m =~= seq![b[0]]);
                assert(m.last() == b.last());
                lemma_le_refl::<K>(kb);
                assert(K::le_spec(ka, kb));
            } else {
                lemma_merge_last::<K, P>(a.skip(1), b.skip(1));
                assert(m.last() == rest.last());
                if a.len() >= 2 && (a.skip(1).len() > 0 && rest.last() == a.skip(1).last()) {
                    assert(a.skip(1).last() == a.last());
                }
                if b.len() >= 2 && (b.skip(1).len() > 0 && rest.last() == b.skip(1).last()) {
                    assert(b.skip(1).last() == b.last());
                }
                if a.len() == 1 {
                    // rest comes from b.skip(1) alone
                    assert(b.len() >= 2);
                    assert(b.skip(1).last() == b.last());
                    assert(K::le_spec(ka, kb));
                    K::lemma_le_trans(ka, kb, b.last().key_spec());
                    K::lemma_le_trans(ka, b.last().key_spec(), m.last().key_spec());
                }
                if b.len() == 1 {
                    assert(a.len() >= 2);
                    assert(a.skip(1).last() == a.last());
                    assert(K::le_spec(kb, ka));
                    K::lemma_le_trans(kb, ka, a.last().key_spec());
                    K::lemma_le_trans(kb, a.last().key_spec(), m.last().key_spec());
                }
            }
        }
    }
}

/// Point counts are non-negative, and a prefix never counts more than the
/// whole.
pub proof fn lemma_total_pts_nonneg<K, P>(v: Seq<EntryModel<K, P>>)
    ensures
        total_pts(v) >= 0,
    decreases v.len(),
{
    if v.len() > 0 {
        lemma_total_pts_nonneg(v.drop_last());
    }
}

pub proof fn lemma_total_pts_prefix<K, P>(v: Seq<EntryModel<K, P>>, n: int)
    requires
        0 <= n <= v.len(),
    ensures
        total_pts(v.take(n)) <= total_pts(v),
{
    lemma_total_pts_append(v.take(n), v.skip(n));
    assert(v.take(n) + v.skip(n) =~= v);
    lemma_total_pts_nonneg(v.skip(n));
}

/// A key position occurs in an appended sequence exactly when it occurs in
/// one of the parts.
pub proof fn lemma_append_keys<K: StoreKey, P: StorePoint<K>>(x: Seq<P>, y: Seq<P>)
    ensures
        forall|k: K| #[trigger] has_key::<K, P>(x + y, k) <==> has_key::<K, P>(x, k)
            || has_key::<K, P>(y, k),
{
    let c = x + y;
    assert forall|k: K| #[trigger] has_key::<K, P>(c, k) implies has_key::<K, P>(x, k)
        || has_key::<K, P>(y, k) by {
        let i = choose|i: int| 0 <= i < c.len() && eqv_spec::<K>(c[i].key_spec(), k);
        if i >= x.len() {
            assert(c[i] == y[i - x.len()]);
        } else {
            assert(c[i] == x[i]);
        }
    }
    assert forall|k: K| has_key::<K, P>(x, k) || has_key::<K, P>(y, k) implies #[trigger]
        has_key::<K, P>(c, k) by {
        if has_key::<K, P>(x, k) {
            let i = choose|i: int| 0 <= i < x.len() && eqv_spec::<K>(x[i].key_spec(), k);
            assert(c[i] == x[i]);
        } else {
            let i = choose|i: int| 0 <= i < y.len() && eqv_spec::<K>(y[i].key_spec(), k);
            assert(c[x.len() + i] == y[i]);
        }
    }
}

/// Concatenating the data of a well-formed, pairwise separated entry
/// sequence yields a sorted sequence whose keys stay within the outermost
/// boundaries, and which covers exactly the key positions of the entries.
pub proof fn lemma_concat_props<K: StoreKey, P: StorePoint<K>>(v: Seq<EntryModel<K, P>>)
    requires
        forall|i: int| 0 <= i < v.len() ==> entry_wf::<K, P>(#[trigger] v[i]),
        forall|i: int, j: int| 0 <= i < j < v.len() ==> lt_spec::<K>(v[i].end, v[j].start),
    ensures
        pts_sorted::<K, P>(concat_data::<K, P>(v)),
        concat_data::<K, P>(v).len() == total_pts(v),
        v.len() == 0 ==> concat_data::<K, P>(v).len() == 0,
        v.len() > 0 ==> concat_data::<K, P>(v).len() > 0 && concat_data::<K, P>(v)[0] == v[
            0
        ].data[0] && concat_data::<K, P>(v).last() == v.last().data.last(),
        forall|i: int| 0 <= i < concat_data::<K, P>(v).len() ==> v.len() > 0 && K::le_spec(
            v[0].start,
            #[trigger] concat_data::<K, P>(v)[i].key_spec(),
        ) && K::le_spec(concat_data::<K, P>(v)[i].key_spec(), v.last().end),
        forall|k: K| #[trigger] has_key::<K, P>(concat_data::<K, P>(v), k) <==> exists|i: int|
            0 <= i < v.len() && has_key::<K, P>((#[trigger] v[i]).data, k),
    decreases v.len(),
{
    let c = concat_data::<K, P>(v);
    if v.len() == 0 {
        assert forall|k: K| #[trigger] has_key::<K, P>(c, k) implies exists|i: int|
            0 <= i < v.len() && has_key::<K, P>((#[trigger] v[i]).data, k) by {}
    } else {
        let dl = v.drop_last();
        let e = v.last();
        let cd = concat_data::<K, P>(dl);
        lemma_concat_props::<K, P>(dl);
        lemma_sorted_bounds::<K, P>(e.data);
        lemma_append_keys::<K, P>(cd, e.data);
        // sortedness across the boundary
        assert forall|i: int, j: int| 0 <= i < j < c.len() implies lt_spec::<K>(
            c[i].key_spec(),
            c[j].key_spec(),
        ) by {
            if j < cd.len() {
                assert(c[i] == cd[i] && c[j] == cd[j]);
            } else if i >= cd.len() {
                assert(c[i] == e.data[i - cd.len()] && c[j] == e.data[j - cd.len()]);
            } else {
                assert(c[i] == cd[i] && c[j] == e.data[j - cd.len()]);
                // cd[i].key <= dl.last().end < e.start <= e.data[j'].key
                assert(dl.len() > 0);
                assert(lt_spec::<K>(dl.last().end, e.start));
                assert(dl.last() == v[v.len() - 2]);
                lemma_le_lt_trans::<K>(cd[i].key_spec(), dl.last().end, e.start);
                lemma_lt_le_trans::<K>(cd[i].key_spec(), e.start, c[j].key_spec());
            }
        }
        // outer bounds
        assert forall|i: int| 0 <= i < c.len() implies K::le_spec(
            v[0].start,
            #[trigger] c[i].key_spec(),
        ) && K::le_spec(c[i].key_spec(), v.last().end) by {
            if i < cd.len() {
                assert(c[i] == cd[i]);
                assert(dl[0] == v[0]);
                // cd[i].key <= dl.last().end < e.start <= e.end
                assert(lt_spec::<K>(dl.last().end, e.start));
                lemma_le_lt_trans::<K>(c[i].key_spec(), dl.last().end, e.start);
                lemma_lt_implies_le::<K>(c[i].key_spec(), e.start);
                lemma_sorted_bounds::<K, P>(e.data);
                K::lemma_le_trans(c[i].key_spec(), e.start, e.end);
            } else {
                assert(c[i] == e.data[i - cd.len()]);
                if dl.len() == 0 {
                    assert(v[0] == e);
                } else {
                    assert(dl[0] == v[0]);
                    // v[0].start <= v[0].end < e.start <= key
                    lemma_sorted_bounds::<K, P>(v[0].data);
                    assert(lt_spec::<K>(v[0].end, e.start));
                    lemma_le_lt_trans::<K>(v[0].start, v[0].end, e.start);
                    lemma_lt_le_trans::<K>(v[0].start, e.start, c[i].key_spec());
                    lemma_lt_implies_le::<K>(v[0].start, c[i].key_spec());
                }
            }
        }
        // key coverage
        assert forall|k: K| #[trigger] has_key::<K, P>(c, k) implies exists|i: int|
            0 <= i < v.len() && has_key::<K, P>((#[trigger] v[i]).data, k) by {
            if has_key::<K, P>(cd, k) {
                let i = choose|i: int|
                    0 <= i < dl.len() && has_key::<K, P>((#[trigger] dl[i]).data, k);
                assert(v[i] == dl[i]);
                assert(has_key::<K, P>(v[i].data, k));
            } else {
                assert(has_key::<K, P>(v[v.len() - 1].data, k));
            }
        }
        assert forall|k: K| (exists|i: int|
            0 <= i < v.len() && has_key::<K, P>((#[trigger] v[i]).data, k)) implies #[trigger]
            has_key::<K, P>(c, k) by {
            let i = choose|i: int| 0 <= i < v.len() && has_key::<K, P>((#[trigger] v[i]).data, k);
            if i < v.len() - 1 {
                assert(dl[i] == v[i]);
                assert(has_key::<K, P>(dl[i].data, k));
            }
        }
    }
}

/// Appending entry sequences adds their point counts.
pub proof fn lemma_total_pts_append<K, P>(x: Seq<EntryModel<K, P>>, y: Seq<EntryModel<K, P>>)
    ensures
        total_pts(x + y) == total_pts(x) + total_pts(y),
    decreases y.len(),
{
    if y.len() == 0 {
        assert(x + y =~= x);
    } else {
        lemma_total_pts_append(x, y.drop_last());
        assert((x + y).drop_last() =~= x + y.drop_last());
        assert((x + y).last() == y.last());
    }
}

/// When the entries overlapping `[s, t]` are exactly those in `[lo, hi)`,
/// the overlap count is `hi - lo`.
pub proof fn lemma_count_by_region<K: StoreKey, P>(
    v: Seq<EntryModel<K, P>>,
    s: K,
    t: K,
    lo: int,
    hi: int,
)
    requires
        0 <= lo <= hi <= v.len(),
        forall|i: int| 0 <= i < v.len() ==> (entry_overlaps(#[trigger] v[i], s, t) <==> lo <= i
            < hi),
    ensures
        count_overlap(v, s, t) == hi - lo,
    decreases v.len(),
{
    if v.len() > 0 {
        let dl = v.drop_last();
        if entry_overlaps(v.last(), s, t) {
            assert(hi == v.len());
            assert forall|i: int| 0 <= i < dl.len() implies (entry_overlaps(
                #[trigger] dl[i],
                s,
                t,
            ) <==> lo <= i < hi - 1) by {
                assert(dl[i] == v[i]);
            }
            lemma_count_by_region(dl, s, t, lo, hi - 1);
        } else {
            if hi <= v.len() - 1 {
                assert forall|i: int| 0 <= i < dl.len() implies (entry_overlaps(
                    #[trigger] dl[i],
                    s,
                    t,
                ) <==> lo <= i < hi) by {
                    assert(dl[i] == v[i]);
                }
                lemma_count_by_region(dl, s, t, lo, hi);
            } else {
                assert(lo == hi);
                assert(lo == v.len() || !(lo <= v.len() - 1 < hi));
                assert forall|i: int| 0 <= i < dl.len() implies (entry_overlaps(
                    #[trigger] dl[i],
                    s,
                    t,
                ) <==> dl.len() <= i < dl.len()) by {
                    assert(dl[i] == v[i]);
                }
                lemma_count_by_region(dl, s, t, dl.len() as int, dl.len() as int);
            }
        }
    }
}

pub proof fn lemma_count_overlap_nonneg<K: StoreKey, P>(v: Seq<EntryModel<K, P>>, s: K, t: K)
    ensures
        count_overlap(v, s, t) >= 0,
    decreases v.len(),
{
    if v.len() > 0 {
        lemma_count_overlap_nonneg(v.drop_last(), s, t);
    }
}

/// When no entry overlaps the request, nothing is selected.
pub proof fn lemma_count_zero_sel_empty<K: StoreKey, P: StorePoint<K>>(
    v: Seq<EntryModel<K, P>>,
    s: K,
    t: K,
)
    requires
        forall|i: int| 0 <= i < v.len() ==> entry_wf::<K, P>(#[trigger] v[i]),
        count_overlap(v, s, t) == 0,
    ensures
        sel_all::<K, P>(v, s, t) =~= Seq::<P>::empty(),
    decreases v.len(),
{
    if v.len() > 0 {
        let dl = v.drop_last();
        lemma_count_overlap_nonneg::<K, P>(dl, s, t);
        assert(!entry_overlaps(v.last(), s, t));
        assert forall|i: int| 0 <= i < dl.len() implies entry_wf::<K, P>(#[trigger] dl[i]) by {
            assert(dl[i] == v[i]);
        }
        lemma_count_zero_sel_empty::<K, P>(dl, s, t);
        assert(v.last() == v[v.len() - 1]);
        lemma_entry_no_overlap_sel_empty::<K, P>(v.last(), s, t);
    }
}

/// A well-formed entry that misses the request holds no point of it.
pub proof fn lemma_entry_no_overlap_sel_empty<K: StoreKey, P: StorePoint<K>>(
    e: EntryModel<K, P>,
    s: K,
    t: K,
)
    requires
        entry_wf::<K, P>(e),
        !entry_overlaps(e, s, t),
    ensures
        sel_pts::<K, P>(e.data, s, t) =~= Seq::<P>::empty(),
{
    lemma_sorted_bounds::<K, P>(e.data);
    assert forall|i: int| 0 <= i < e.data.len() implies !within::<K>(
        (#[trigger] e.data[i]).key_spec(),
        s,
        t,
    ) by {
        let k = e.data[i].key_spec();
        if lt_spec::<K>(e.end, s) {
            if K::le_spec(s, k) {
                K::lemma_le_trans(s, k, e.end);
            }
        } else {
            if K::le_spec(k, t) {
                K::lemma_le_trans(e.start, k, t);
            }
        }
    }
    lemma_sel_pts_none::<K, P>(e.data, s, t);
}

pub proof fn lemma_sel_pts_none<K: StoreKey, P: StorePoint<K>>(d: Seq<P>, s: K, t: K)
    requires
        forall|i: int| 0 <= i < d.len() ==> !within::<K>((#[trigger] d[i]).key_spec(), s, t),
    ensures
        sel_pts::<K, P>(d, s, t) =~= Seq::<P>::empty(),
    decreases d.len(),
{
    if d.len() > 0 {
        assert forall|i: int| 0 <= i < d.drop_last().len() implies !within::<K>(
            (#[trigger] d.drop_last()[i]).key_spec(),
            s,
            t,
        ) by {
            assert(d.drop_last()[i] == d[i]);
        }
        lemma_sel_pts_none::<K, P>(d.drop_last(), s, t);
    }
}

/// Every selected point is a point of the sequence it was selected from.
pub proof fn lemma_sel_pts_membership<K: StoreKey, P: StorePoint<K>>(d: Seq<P>, s: K, t: K)
    ensures
        forall|j: int| 0 <= j < sel_pts::<K, P>(d, s, t).len() ==> exists|i: int|
            0 <= i < d.len() && (#[trigger] sel_pts::<K, P>(d, s, t)[j]) == d[i],
    decreases d.len(),
{
    if d.len() > 0 {
        lemma_sel_pts_membership::<K, P>(d.drop_last(), s, t);
        let sel = sel_pts::<K, P>(d, s, t);
        let sdl = sel_pts::<K, P>(d.drop_last(), s, t);
        assert forall|j: int| 0 <= j < sel.len() implies exists|i: int|
            0 <= i < d.len() && (#[trigger] sel[j]) == d[i] by {
            if j < sdl.len() {
                assert(sel[j] == sdl[j]);
                let i = choose|i: int| 0 <= i < d.drop_last().len() && sdl[j] == d.drop_last()[i];
                assert(d.drop_last()[i] == d[i]);
            } else {
                assert(sel[j] == d.last());
                assert(d.last() == d[d.len() - 1]);
            }
        }
    }
}

/// Selecting from a sorted sequence keeps the order.
pub proof fn lemma_sel_pts_sorted<K: StoreKey, P: StorePoint<K>>(d: Seq<P>, s: K, t: K)
    requires
        pts_sorted::<K, P>(d),
    ensures
        pts_sorted::<K, P>(sel_pts::<K, P>(d, s, t)),
        forall|j: int| 0 <= j < sel_pts::<K, P>(d, s, t).len() ==> d.len() > 0 && K::le_spec(
            (#[trigger] sel_pts::<K, P>(d, s, t)[j]).key_spec(),
            d.last().key_spec(),
        ),
    decreases d.len(),
{
    if d.len() > 0 {
        assert forall|i: int, j: int| 0 <= i < j < d.drop_last().len() implies lt_spec::<K>(
            d.drop_last()[i].key_spec(),
            d.drop_last()[j].key_spec(),
        ) by {
            assert(d.drop_last()[i] == d[i]);
            assert(d.drop_last()[j] == d[j]);
        }
        lemma_sel_pts_sorted::<K, P>(d.drop_last(), s, t);
        lemma_sel_pts_membership::<K, P>(d.drop_last(), s, t);
        let sel = sel_pts::<K, P>(d, s, t);
        let sdl = sel_pts::<K, P>(d.drop_last(), s, t);
        lemma_sorted_bounds::<K, P>(d);
        assert forall|i: int, j: int| 0 <= i < j < sel.len() implies lt_spec::<K>(
            sel[i].key_spec(),
            sel[j].key_spec(),
        ) by {
            if j < sdl.len() {
                assert(sel[i] == sdl[i] && sel[j] == sdl[j]);
            } else {
                assert(sel[j] == d.last());
                assert(sel[i] == sdl[i]);
                let a = choose|a: int| 0 <= a < d.drop_last().len() && sdl[i] == d.drop_last()[a];
                assert(d.drop_last()[a] == d[a]);
                assert(lt_spec::<K>(d[a].key_spec(), d[d.len() - 1].key_spec()));
            }
        }
        assert forall|j: int| 0 <= j < sel.len() implies K::le_spec(
            (#[trigger] sel[j]).key_spec(),
            d.last().key_spec(),
        ) by {
            if j < sdl.len() {
                let a = choose|a: int| 0 <= a < d.drop_last().len() && sdl[j] == d.drop_last()[a];
                assert(d.drop_last()[a] == d[a]);
                assert(K::le_spec(d[a].key_spec(), d[d.len() - 1].key_spec()));
            } else {
                lemma_le_refl::<K>(d.last().key_spec());
            }
        }
    }
}

/// The union a query reports is sorted ascending by key: selection keeps
/// each range's order, and the ranges themselves are ordered.
pub proof fn lemma_sel_all_sorted<K: StoreKey, P: StorePoint<K>>(
    v: Seq<EntryModel<K, P>>,
    s: K,
    t: K,
)
    requires
        store_wf::<K, P>(v),
    ensures
        pts_sorted::<K, P>(sel_all::<K, P>(v, s, t)),
        forall|j: int| 0 <= j < sel_all::<K, P>(v, s, t).len() ==> v.len() > 0 && K::le_spec(
            (#[trigger] sel_all::<K, P>(v, s, t)[j]).key_spec(),
            v.last().end,
        ),
    decreases v.len(),
{
    if v.len() > 0 {
        let dl = v.drop_last();
        let e = v.last();
        assert(store_wf::<K, P>(dl)) by {
            assert forall|i: int| 0 <= i < dl.len() implies entry_wf::<K, P>(
                #[trigger] dl[i],
            ) by {
                assert(dl[i] == v[i]);
            }
            assert forall|i: int, j: int| 0 <= i < j < dl.len() implies lt_spec::<K>(
                dl[i].end,
                dl[j].start,
            ) by {
                assert(dl[i] == v[i] && dl[j] == v[j]);
            }
        }
        lemma_sel_all_sorted::<K, P>(dl, s, t);
        assert(entry_wf::<K, P>(e));
        lemma_sel_pts_sorted::<K, P>(e.data, s, t);
        lemma_sorted_bounds::<K, P>(e.data);
        let whole = sel_all::<K, P>(v, s, t);
        let left = sel_all::<K, P>(dl, s, t);
        let right = sel_pts::<K, P>(e.data, s, t);
        // keys on the left stay below the last entry's span
        assert forall|i: int, j: int| 0 <= i < j < whole.len() implies lt_spec::<K>(
            whole[i].key_spec(),
            whole[j].key_spec(),
        ) by {
            if j < left.len() {
                assert(whole[i] == left[i] && whole[j] == left[j]);
            } else if i >= left.len() {
                assert(whole[i] == right[i - left.len()] && whole[j] == right[j - left.len()]);
            } else {
                assert(whole[i] == left[i] && whole[j] == right[j - left.len()]);
                assert(dl.len() > 0);
                assert(dl.last() == v[v.len() - 2]);
                assert(lt_spec::<K>(dl.last().end, e.start));
                // left key <= previous end < this start <= this key
                let rj = right[j - left.len()];
                let a = choose|a: int| 0 <= a < e.data.len() && rj == e.data[a];
                lemma_sel_pts_membership::<K, P>(e.data, s, t);
                assert(exists|a2: int| 0 <= a2 < e.data.len() && rj == e.data[a2]);
                let a2 = choose|a2: int| 0 <= a2 < e.data.len() && rj == e.data[a2];
                assert(K::le_spec(e.start, e.data[a2].key_spec()));
                lemma_le_lt_trans::<K>(whole[i].key_spec(), dl.last().end, e.start);
                lemma_lt_le_trans::<K>(whole[i].key_spec(), e.start, rj.key_spec());
            }
        }
        assert forall|j: int| 0 <= j < whole.len() implies K::le_spec(
            (#[trigger] whole[j]).key_spec(),
            v.last().end,
        ) by {
            if j < left.len() {
                assert(whole[j] == left[j]);
                assert(dl.len() > 0);
                assert(dl.last() == v[v.len() - 2]);
                assert(K::le_spec(left[j].key_spec(), dl.last().end));
                assert(lt_spec::<K>(dl.last().end, e.start));
                lemma_le_lt_trans::<K>(left[j].key_spec(), dl.last().end, e.start);
                lemma_lt_implies_le::<K>(left[j].key_spec(), e.start);
                K::lemma_le_trans(left[j].key_spec(), e.start, e.end);
            } else {
                assert(whole[j] == right[j - left.len()]);
                lemma_sel_pts_membership::<K, P>(e.data, s, t);
                let a = choose|a: int|
                    0 <= a < e.data.len() && right[j - left.len()] == e.data[a];
                assert(K::le_spec(e.data[a].key_spec(), e.end));
            }
        }
    }
}

/// In a well-formed store the overlap count is the width of the overlap
/// segment.
pub proof fn lemma_count_overlap_eq<K: StoreKey, P: StorePoint<K>>(
    v: Seq<EntryModel<K, P>>,
    s: K,
    t: K,
)
    requires
        store_wf::<K, P>(v),
        K::le_spec(s, t),
    ensures
        count_overlap(v, s, t) == cut_hi::<K, P>(v, t) - cut_lo::<K, P>(v, s),
{
    lemma_cuts::<K, P>(v, s, t);
    lemma_count_by_region(v, s, t, cut_lo::<K, P>(v, s), cut_hi::<K, P>(v, t));
}

// ---------------------------------------------------------------------------
// The insertion transition
// ---------------------------------------------------------------------------

/// The store after inserting the point set `pts`: entries strictly before
/// and strictly after the normalized set's span survive unchanged, and one
/// merged entry takes the place of everything overlapping it.
pub open spec fn add_result<K: StoreKey, P: StorePoint<K>>(
    v: Seq<EntryModel<K, P>>,
    pts: Seq<P>,
) -> Seq<EntryModel<K, P>>
    recommends
        pts.len() > 0,
{
    let norm = normalize::<K, P>(pts);
    let s = norm[0].key_spec();
    let t = norm[norm.len() - 1].key_spec();
    let lo = cut_lo::<K, P>(v, s);
    let hi = cut_hi::<K, P>(v, t);
    let mdata = merge_pts::<K, P>(concat_data::<K, P>(v.subrange(lo, hi)), norm);
    v.take(lo) + seq![
        EntryModel { start: mdata[0].key_spec(), end: mdata[mdata.len() - 1].key_spec(), data: mdata },
    ] + v.skip(hi)
}

/// Inserting a non-empty point set preserves well-formedness, and the
/// result has exactly the shape `add_result` describes.
pub proof fn lemma_add_result_wf<K: StoreKey, P: StorePoint<K>>(v: Seq<EntryModel<K, P>>, pts: Seq<P>)
    requires
        store_wf::<K, P>(v),
        pts.len() > 0,
    ensures
        ({
            let norm = normalize::<K, P>(pts);
            let s = norm[0].key_spec();
            let t = norm[norm.len() - 1].key_spec();
            let lo = cut_lo::<K, P>(v, s);
            let hi = cut_hi::<K, P>(v, t);
            let r = add_result::<K, P>(v, pts);
            &&& K::le_spec(s, t)
            &&& 0 <= lo <= hi <= v.len()
            &&& store_wf::<K, P>(r)
            &&& r.len() == lo + 1 + v.len() - hi
        }),
{
    let norm = normalize::<K, P>(pts);
    lemma_normalize_sorted::<K, P>(pts);
    lemma_normalize_keys::<K, P>(pts);
    lemma_sorted_bounds::<K, P>(norm);
    let s = norm[0].key_spec();
    let t = norm[norm.len() - 1].key_spec();
    assert(K::le_spec(s, t));
    lemma_cuts::<K, P>(v, s, t);
    let lo = cut_lo::<K, P>(v, s);
    let hi = cut_hi::<K, P>(v, t);
    let mid = v.subrange(lo, hi);
    assert forall|i: int| 0 <= i < mid.len() implies entry_wf::<K, P>(#[trigger] mid[i]) by {
        assert(mid[i] == v[lo + i]);
    }
    assert forall|i: int, j: int| 0 <= i < j < mid.len() implies lt_spec::<K>(
        mid[i].end,
        mid[j].start,
    ) by {
        assert(mid[i] == v[lo + i] && mid[j] == v[lo + j]);
    }
    lemma_concat_props::<K, P>(mid);
    let cd = concat_data::<K, P>(mid);
    let mdata = merge_pts::<K, P>(cd, norm);
    lemma_merge_sorted::<K, P>(cd, norm);
    lemma_merge_first::<K, P>(cd, norm);
    lemma_sorted_bounds::<K, P>(mdata);
    let ne = EntryModel::<K, P> {
        start: mdata[0].key_spec(),
        end: mdata[mdata.len() - 1].key_spec(),
        data: mdata,
    };
    let r = add_result::<K, P>(v, pts);
    assert(r == v.take(lo) + seq![ne] + v.skip(hi));
    assert(r.len() == lo + 1 + v.len() - hi);
    // each entry of the result is well formed
    assert(entry_wf::<K, P>(ne));
    assert forall|i: int| 0 <= i < r.len() implies entry_wf::<K, P>(#[trigger] r[i]) by {
        if i < lo {
            assert(r[i] == v[i]);
        } else if i == lo {
            assert(r[i] == ne);
        } else {
            assert(r[i] == v[hi + i - lo - 1]);
        }
    }
    // the new entry sits strictly after everything kept on its left
    assert forall|i: int| 0 <= i < lo implies lt_spec::<K>((#[trigger] v[i]).end, ne.start) by {
        assert((cd.len() > 0 && mdata[0] == cd[0]) || mdata[0] == norm[0]);
        if cd.len() > 0 && mdata[0] == cd[0] {
            assert(mid.len() > 0);
            assert(cd[0] == mid[0].data[0]);
            assert(mid[0] == v[lo]);
            assert(ne.start == v[lo].start);
            assert(lo < v.len());
            assert(lt_spec::<K>(v[i].end, v[lo].start));
        } else {
            assert(ne.start == s);
            assert(lt_spec::<K>(v[i].end, s));
        }
    }
    // the new entry ends strictly before everything kept on its right
    assert forall|i: int| hi <= i < v.len() implies lt_spec::<K>(ne.end, (#[trigger] v[i]).start)
        by {
        assert(lt_spec::<K>(t, v[i].start));
        if mid.len() == 0 {
            assert(cd.len() == 0);
            assert(mdata == norm);
            assert(K::le_spec(ne.end, t));
            lemma_le_lt_trans::<K>(ne.end, t, v[i].start);
        } else {
            let me = mid.last().end;
            assert(mid.last() == v[hi - 1]);
            assert(lt_spec::<K>(me, v[i].start));
            // pick the larger of the two upper bounds
            K::lemma_le_total(me, t);
            if K::le_spec(me, t) {
                assert forall|j: int| 0 <= j < cd.len() implies K::le_spec(
                    #[trigger] cd[j].key_spec(),
                    t,
                ) by {
                    K::lemma_le_trans(cd[j].key_spec(), me, t);
                }
                lemma_merge_upper::<K, P>(cd, norm, t);
                assert(K::le_spec(ne.end, t));
                lemma_le_lt_trans::<K>(ne.end, t, v[i].start);
            } else {
                assert(K::le_spec(t, me));
                assert forall|j: int| 0 <= j < norm.len() implies K::le_spec(
                    #[trigger] norm[j].key_spec(),
                    me,
                ) by {
                    K::lemma_le_trans(norm[j].key_spec(), t, me);
                }
                lemma_merge_upper::<K, P>(cd, norm, me);
                assert(K::le_spec(ne.end, me));
                lemma_le_lt_trans::<K>(ne.end, me, v[i].start);
            }
        }
    }
    // pairwise separation of the result
    assert forall|i: int, j: int| 0 <= i < j < r.len() implies lt_spec::<K>(
        r[i].end,
        r[j].start,
    ) by {
        if j < lo {
            assert(r[i] == v[i] && r[j] == v[j]);
        } else if j == lo {
            assert(r[i] == v[i]);
        } else if i < lo {
            assert(r[j] == v[hi + j - lo - 1]);
            if i < lo {
                assert(r[i] == v[i]);
            }
            if hi + j - lo - 1 >= hi {
                assert(lt_spec::<K>(v[i].end, v[hi + j - lo - 1].start));
            }
        } else if i == lo {
            assert(r[j] == v[hi + j - lo - 1]);
        } else {
            assert(r[i] == v[hi + i - lo - 1] && r[j] == v[hi + j - lo - 1]);
        }
    }
}

/// Merging a single point that lies strictly above a sorted sequence
/// appends it.
pub proof fn lemma_merge_append_one<K: StoreKey, P: StorePoint<K>>(a: Seq<P>, x: P)
    requires
        forall|i: int| 0 <= i < a.len() ==> lt_spec::<K>(
            (#[trigger] a[i]).key_spec(),
            x.key_spec(),
        ),
    ensures
        merge_pts::<K, P>(a, seq![x]) == a + seq![x],
    decreases a.len(),
{
    let b = seq![x];
    if a.len() == 0 {
        assert(merge_pts::<K, P>(a, b) == b);
        assert(a + b =~= b);
    } else {
        assert(lt_spec::<K>(a[0].key_spec(), b[0].key_spec()));
        assert forall|i: int| 0 <= i < a.skip(1).len() implies lt_spec::<K>(
            (#[trigger] a.skip(1)[i]).key_spec(),
            x.key_spec(),
        ) by {
            assert(a.skip(1)[i] == a[i + 1]);
        }
        lemma_merge_append_one::<K, P>(a.skip(1), x);
        assert(merge_pts::<K, P>(a, b) == seq![a[0]] + (a.skip(1) + seq![x]));
        assert(seq![a[0]] + (a.skip(1) + seq![x]) =~= a + seq![x]);
    }
}

/// Normalization leaves an already sorted sequence untouched.
pub proof fn lemma_normalize_sorted_id<K: StoreKey, P: StorePoint<K>>(pts: Seq<P>)
    requires
        pts_sorted::<K, P>(pts),
    ensures
        normalize::<K, P>(pts) == pts,
    decreases pts.len(),
{
    if pts.len() > 0 {
        let dl = pts.drop_last();
        assert forall|i: int, j: int| 0 <= i < j < dl.len() implies lt_spec::<K>(
            dl[i].key_spec(),
            dl[j].key_spec(),
        ) by {
            assert(dl[i] == pts[i]);
            assert(dl[j] == pts[j]);
        }
        lemma_normalize_sorted_id::<K, P>(dl);
        assert forall|i: int| 0 <= i < dl.len() implies lt_spec::<K>(
            (#[trigger] dl[i]).key_spec(),
            pts.last().key_spec(),
        ) by {
            assert(dl[i] == pts[i]);
        }
        lemma_merge_append_one::<K, P>(dl, pts.last());
        assert(dl + seq![pts.last()] =~= pts);
    }
}

/// Selection keeps a sequence whole when every point lies in the window.
pub proof fn lemma_sel_pts_all_within<K: StoreKey, P: StorePoint<K>>(d: Seq<P>, s: K, t: K)
    requires
        forall|i: int| 0 <= i < d.len() ==> within::<K>((#[trigger] d[i]).key_spec(), s, t),
    ensures
        sel_pts::<K, P>(d, s, t) == d,
    decreases d.len(),
{
    if d.len() > 0 {
        assert forall|i: int| 0 <= i < d.drop_last().len() implies within::<K>(
            (#[trigger] d.drop_last()[i]).key_spec(),
            s,
            t,
        ) by {
            assert(d.drop_last()[i] == d[i]);
        }
        lemma_sel_pts_all_within::<K, P>(d.drop_last(), s, t);
        assert(within::<K>(d.last().key_spec(), s, t));
        assert(sel_pts::<K, P>(d, s, t) == d.drop_last() + seq![d.last()]);
        assert(d.drop_last() + seq![d.last()] =~= d);
    } else {
        assert(sel_pts::<K, P>(d, s, t) =~= d);
    }
}

/// In a sorted sequence every key lies between the first and the last key.
pub proof fn lemma_sorted_bounds<K: StoreKey, P: StorePoint<K>>(s: Seq<P>)
    requires
        pts_sorted::<K, P>(s),
        s.len() > 0,
    ensures
        forall|i: int| 0 <= i < s.len() ==> K::le_spec(
            s[0].key_spec(),
            #[trigger] s[i].key_spec(),
        ),
        forall|i: int| 0 <= i < s.len() ==> K::le_spec(
            #[trigger] s[i].key_spec(),
            s[s.len() - 1].key_spec(),
        ),
{
    assert forall|i: int| 0 <= i < s.len() implies K::le_spec(
        s[0].key_spec(),
        #[trigger] s[i].key_spec(),
    ) && K::le_spec(s[i].key_spec(), s[s.len() - 1].key_spec()) by {
        if i > 0 {
            lemma_lt_implies_le::<K>(s[0].key_spec(), s[i].key_spec());
        } else {
            lemma_le_refl::<K>(s[0].key_spec());
        }
        if i < s.len() - 1 {
            lemma_lt_implies_le::<K>(s[i].key_spec(), s[s.len() - 1].key_spec());
        } else {
            lemma_le_refl::<K>(s[i].key_spec());
        }
    }
}

} // verus!
