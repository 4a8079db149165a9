//! The merge-on-insert range store: disjoint stored ranges of keyed points,
//! grown by `add_range` (which coalesces everything the new span overlaps or
//! touches) and read by classified range queries.

use vstd::prelude::*;
use crate::DataError;
use crate::keys::{StoreKey, StorePoint, lt_spec};
use crate::store_model::{
    EntryModel, pts_sorted, has_key, merge_pts, normalize, entry_wf, store_wf, entry_overlaps,
    entry_contains, within, concat_data, total_pts, count_overlap, sel_pts, sel_all, before_pred,
    cut_lo, cut_hi, add_result, lemma_lead_len_is, lemma_cuts, lemma_add_result_wf,
    lemma_normalize_keys, lemma_normalize_sorted, lemma_sorted_bounds, lemma_merge_first,
    lemma_merge_last, lemma_merge_keys, lemma_concat_props, lemma_count_overlap_eq,
    lemma_count_by_region, lemma_total_pts_append, lemma_total_pts_prefix, lemma_total_pts_nonneg,
};
use crate::keys::{lemma_le_refl, lemma_lt_implies_le, lemma_lt_le_trans, lemma_le_lt_trans};

verus! {

/// One stored range: the boundary keys and the sorted points between them.
pub struct RangeEntry<K, P> {
    pub start: K,
    pub end: K,
    pub data: Vec<P>,
}

impl<K, P> View for RangeEntry<K, P> {
    type V = EntryModel<K, P>;

    open spec fn view(&self) -> EntryModel<K, P> {
        EntryModel { start: self.start, end: self.end, data: self.data@ }
    }
}

/// The model of a sequence of stored ranges.
pub open spec fn entries_model<K, P>(es: Seq<RangeEntry<K, P>>) -> Seq<EntryModel<K, P>> {
    Seq::new(es.len(), |i: int| es[i]@)
}

/// The outcome of a classified range query.
#[derive(Debug, PartialEq)]
pub enum RangeDataGetResult<P> {
    /// One stored range fully contains the request; the points within it.
    Found(Vec<P>),
    /// Exactly one stored range overlaps the request without containing it.
    Partial(Vec<P>),
    /// Two or more stored ranges overlap the request; the union of their
    /// points within it, ascending by key.
    SpansMultiple(Vec<P>),
    /// No stored range overlaps the request.
    NotFound,
}

/// What a classified query must report about a store `v` and a request
/// `[s, t]`.
pub open spec fn classify_post<K: StoreKey, P: StorePoint<K>>(
    v: Seq<EntryModel<K, P>>,
    s: K,
    t: K,
    r: RangeDataGetResult<P>,
) -> bool {
    match r {
        RangeDataGetResult::NotFound => count_overlap(v, s, t) == 0,
        RangeDataGetResult::Found(pts) => count_overlap(v, s, t) == 1 && (exists|i: int|
            0 <= i < v.len() && entry_contains(#[trigger] v[i], s, t)) && pts@ == sel_all::<K, P>(
            v,
            s,
            t,
        ),
        RangeDataGetResult::Partial(pts) => count_overlap(v, s, t) == 1 && !(exists|i: int|
            0 <= i < v.len() && entry_contains(#[trigger] v[i], s, t)) && pts@ == sel_all::<K, P>(
            v,
            s,
            t,
        ),
        RangeDataGetResult::SpansMultiple(pts) => count_overlap(v, s, t) >= 2 && pts@
            == sel_all::<K, P>(v, s, t),
    }
}

/// The in-memory range store, remembering where it is persisted.
pub struct RangeDataStore<K, P> {
    pub entries: Vec<RangeEntry<K, P>>,
    pub location: String,
    pub name: String,
}

impl<K, P> View for RangeDataStore<K, P> {
    type V = Seq<EntryModel<K, P>>;

    open spec fn view(&self) -> Seq<EntryModel<K, P>> {
        entries_model(self.entries@)
    }
}

/// Clones every point of a sequence.
#[verifier::loop_isolation(false)]
fn dup_points<K: StoreKey, P: StorePoint<K>>(d: &Vec<P>) -> (r: Vec<P>)
    ensures
        r@ == d@,
{
    let mut r: Vec<P> = Vec::new();
    let mut i: usize = 0;
    while i < d.len()
        invariant
            0 <= i <= d@.len(),
            r@ =~= d@.take(i as int),
        decreases d@.len() - i,
    {
        r.push(d[i].dup());
        proof {
            assert(d@.take(i as int + 1) =~= d@.take(i as int).push(d@[i as int]));
        }
        i = i + 1;
    }
    proof {
        assert(d@.take(d@.len() as int) =~= d@);
    }
    r
}

/// Clones one stored range.
fn dup_entry<K: StoreKey, P: StorePoint<K>>(e: &RangeEntry<K, P>) -> (r: RangeEntry<K, P>)
    ensures
        r@ == e@,
{
    RangeEntry { start: e.start.dup(), end: e.end.dup(), data: dup_points(&e.data) }
}

/// Merges two point sequences, preferring the point of `b` on a key tie.
#[verifier::loop_isolation(false)]
fn merge_exec<K: StoreKey, P: StorePoint<K>>(a: &Vec<P>, b: &Vec<P>) -> (r: Vec<P>)
    ensures
        r@ == merge_pts::<K, P>(a@, b@),
{
    let mut r: Vec<P> = Vec::new();
    let mut i: usize = 0;
    let mut j: usize = 0;
    proof {
        assert(a@.skip(0) =~= a@);
        assert(b@.skip(0) =~= b@);
    }
    while i < a.len() || j < b.len()
        invariant
            0 <= i <= a@.len(),
            0 <= j <= b@.len(),
            merge_pts::<K, P>(a@, b@) == r@ + merge_pts::<K, P>(
                a@.skip(i as int),
                b@.skip(j as int),
            ),
        decreases a@.len() - i + b@.len() - j,
    {
        let ghost ra = a@.skip(i as int);
        let ghost rb = b@.skip(j as int);
        if i == a.len() {
            r.push(b[j].dup());
            proof {
                assert(ra.len() == 0);
                assert(rb[0] == b@[j as int]);
                assert(rb.skip(1) =~= b@.skip(j as int + 1));
                assert(merge_pts::<K, P>(ra, rb) == rb);
                assert(rb =~= seq![b@[j as int]] + b@.skip(j as int + 1));
                assert(merge_pts::<K, P>(a@.skip(i as int), b@.skip(j as int + 1)) == b@.skip(
                    j as int + 1,
                ));
            }
            j = j + 1;
        } else if j == b.len() {
            r.push(a[i].dup());
            proof {
                assert(rb.len() == 0);
                assert(ra[0] == a@[i as int]);
                assert(ra.skip(1) =~= a@.skip(i as int + 1));
                assert(merge_pts::<K, P>(ra, rb) == ra);
                assert(ra =~= seq![a@[i as int]] + a@.skip(i as int + 1));
                assert(merge_pts::<K, P>(a@.skip(i as int + 1), b@.skip(j as int)) == a@.skip(
                    i as int + 1,
                ));
            }
            i = i + 1;
        } else {
            let ka = a[i].key();
            let kb = b[j].key();
            proof {
                assert(ra[0] == a@[i as int]);
                assert(rb[0] == b@[j as int]);
                assert(ra.skip(1) =~= a@.skip(i as int + 1));
                assert(rb.skip(1) =~= b@.skip(j as int + 1));
            }
            if !kb.le(&ka) {
                // a's point sits strictly first
                r.push(a[i].dup());
                i = i + 1;
            } else if !ka.le(&kb) {
                r.push(b[j].dup());
                j = j + 1;
            } else {
                // tie: the point of `b` wins, the one of `a` is dropped
                r.push(b[j].dup());
                i = i + 1;
                j = j + 1;
            }
        }
        proof {
            assert(merge_pts::<K, P>(a@, b@) == r@ + merge_pts::<K, P>(
                a@.skip(i as int),
                b@.skip(j as int),
            ));
        }
    }
    proof {
        assert(merge_pts::<K, P>(a@.skip(i as int), b@.skip(j as int)).len() == 0);
        assert(r@ =~= r@ + merge_pts::<K, P>(a@.skip(i as int), b@.skip(j as int)));
    }
    r
}

/// Sorts a point sequence and drops duplicate key positions, a later point
/// winning a collision.
#[verifier::loop_isolation(false)]
fn normalize_exec<K: StoreKey, P: StorePoint<K>>(points: &Vec<P>) -> (r: Vec<P>)
    ensures
        r@ == normalize::<K, P>(points@),
{
    let mut r: Vec<P> = Vec::new();
    let mut i: usize = 0;
    while i < points.len()
        invariant
            0 <= i <= points@.len(),
            r@ == normalize::<K, P>(points@.take(i as int)),
        decreases points@.len() - i,
    {
        let mut single: Vec<P> = Vec::new();
        single.push(points[i].dup());
        let merged = merge_exec::<K, P>(&r, &single);
        proof {
            assert(points@.take(i as int + 1).drop_last() =~= points@.take(i as int));
            assert(points@.take(i as int + 1).last() == points@[i as int]);
            assert(single@ =~= seq![points@[i as int]]);
        }
        r = merged;
        i = i + 1;
    }
    proof {
        assert(points@.take(points@.len() as int) =~= points@);
    }
    r
}

impl<K: StoreKey, P: StorePoint<K>> RangeDataStore<K, P> {
    /// The store invariant: entries are well formed, disjoint, and sorted.
    pub open spec fn wf(self) -> bool {
        store_wf::<K, P>(self@)
    }

    /// Creates an empty store that remembers the directory and file name it
    /// will be persisted under.
    pub fn new(location: String, name: String) -> (r: Self)
        ensures
            r.wf(),
            r@.len() == 0,
            r.location == location,
            r.name == name,
    {
        let r = RangeDataStore { entries: Vec::new(), location, name };
        proof {
            assert(r@ =~= Seq::<EntryModel<K, P>>::empty());
        }
        r
    }

    /// The number of disjoint stored ranges.
    pub fn len(&self) -> (r: usize)
        ensures
            r == self@.len(),
    {
        self.entries.len()
    }

    /// The number of points over all stored ranges.
    #[verifier::loop_isolation(false)]
    pub fn total_len(&self) -> (r: usize)
        requires
            total_pts(self@) <= usize::MAX,
        ensures
            r == total_pts(self@),
    {
        let ghost v = self@;
        let mut sum: usize = 0;
        let mut i: usize = 0;
        proof {
            assert(v.take(0) =~= Seq::<EntryModel<K, P>>::empty());
        }
        while i < self.entries.len()
            invariant
                0 <= i <= self.entries@.len(),
                v == entries_model(self.entries@),
                total_pts(v) <= usize::MAX,
                sum == total_pts(v.take(i as int)),
            decreases self.entries@.len() - i,
        {
            proof {
                assert(v.take(i as int + 1).drop_last() =~= v.take(i as int));
                assert(v.take(i as int + 1).last() == v[i as int]);
                lemma_total_pts_prefix(v, i as int + 1);
                lemma_total_pts_nonneg(v.take(i as int));
            }
            sum = sum + self.entries[i].data.len();
            i = i + 1;
        }
        proof {
            assert(v.take(v.len() as int) =~= v);
        }
        sum
    }

    /// Inserts a non-empty point set. The span of the (deduplicated) set is
    /// computed, every stored range overlapping or touching that span is
    /// removed, and one merged range covering all their points replaces
    /// them. An empty set is rejected and the store is left unchanged.
    #[verifier::loop_isolation(false)]
    pub fn add_range(&mut self, points: Vec<P>) -> (r: Result<(), DataError>)
        requires
            old(self).wf(),
        ensures
            final(self).wf(),
            final(self).location == old(self).location,
            final(self).name == old(self).name,
            points@.len() == 0 ==> r == Err::<(), DataError>(DataError::Range) && final(self)@
                == old(self)@,
            points@.len() > 0 ==> r == Ok::<(), DataError>(()) && final(self)@ == add_result::<
                K,
                P,
            >(old(self)@, points@),
    {
        let ghost v = self@;
        if points.len() == 0 {
            return Err(DataError::Range);
        }
        proof {
            lemma_add_result_wf::<K, P>(v, points@);
            lemma_normalize_keys::<K, P>(points@);
            lemma_normalize_sorted::<K, P>(points@);
        }
        let norm = normalize_exec::<K, P>(&points);
        let s = norm[0].key();
        let t = norm[norm.len() - 1].key();
        let ghost glo = cut_lo::<K, P>(v, s);
        let ghost ghi = cut_hi::<K, P>(v, t);
        proof {
            lemma_sorted_bounds::<K, P>(norm@);
            lemma_cuts::<K, P>(v, s, t);
        }
        let n = self.entries.len();
        let mut idx: usize = 0;
        let mut out: Vec<RangeEntry<K, P>> = Vec::new();
        // keep everything that ends strictly before the new span
        while idx < n && !s.le(&self.entries[idx].end)
            invariant
                0 <= idx <= n,
                n == self.entries@.len(),
                v == entries_model(self.entries@),
                forall|i: int| 0 <= i < idx ==> lt_spec::<K>((#[trigger] v[i]).end, s),
                entries_model(out@) =~= v.take(idx as int),
            decreases n - idx,
        {
            out.push(dup_entry(&self.entries[idx]));
            proof {
                assert(entries_model(out@) =~= v.take(idx as int + 1));
            }
            idx = idx + 1;
        }
        proof {
            assert forall|i: int| 0 <= i < idx implies before_pred::<K, P>(s)(#[trigger] v[i]) by {}
            if (idx as int) < v.len() {
                assert(!before_pred::<K, P>(s)(v[idx as int]));
            }
            lemma_lead_len_is(v, before_pred::<K, P>(s), idx as int);
            assert(glo == idx as int);
        }
        let lo = idx;
        // collect the data of everything overlapping the new span
        let mut mid_data: Vec<P> = Vec::new();
        proof {
            assert(v.subrange(lo as int, lo as int) =~= Seq::<EntryModel<K, P>>::empty());
        }
        while idx < n && s.le(&self.entries[idx].end) && self.entries[idx].start.le(&t)
            invariant
                lo as int == glo,
                lo <= idx <= n,
                n == self.entries@.len(),
                v == entries_model(self.entries@),
                store_wf::<K, P>(v),
                K::le_spec(s, t),
                glo == cut_lo::<K, P>(v, s),
                ghi == cut_hi::<K, P>(v, t),
                forall|i: int| glo <= i < idx ==> entry_overlaps(#[trigger] v[i], s, t),
                mid_data@ == concat_data::<K, P>(v.subrange(glo, idx as int)),
            decreases n - idx,
        {
            let mut dd = dup_points(&self.entries[idx].data);
            mid_data.append(&mut dd);
            proof {
                assert(v.subrange(glo, idx as int + 1).drop_last() =~= v.subrange(
                    glo,
                    idx as int,
                ));
                assert(v.subrange(glo, idx as int + 1).last() == v[idx as int]);
            }
            idx = idx + 1;
        }
        proof {
            // the scan stopped exactly at the end of the overlap segment
            if idx < n {
                assert(!entry_overlaps(v[idx as int], s, t));
                assert(idx as int >= ghi);
            } else {
                if ghi < n {
                    assert(entry_overlaps(v[ghi], s, t));
                    assert(false);
                }
            }
            if (idx as int) > glo {
                assert(entry_overlaps(v[idx as int - 1], s, t));
                assert(idx as int - 1 < ghi);
            }
            assert(idx as int == ghi);
        }
        // one merged range takes the place of the overlap segment
        let merged = merge_exec::<K, P>(&mid_data, &norm);
        proof {
            lemma_merge_first::<K, P>(mid_data@, norm@);
        }
        let e_start = merged[0].key();
        let e_end = merged[merged.len() - 1].key();
        let ne = RangeEntry { start: e_start, end: e_end, data: merged };
        out.push(ne);
        let ghost mid_done = entries_model(out@);
        proof {
            assert(mid_done =~= v.take(glo) + seq![
                EntryModel {
                    start: merge_pts::<K, P>(concat_data::<K, P>(v.subrange(glo, ghi)), norm@)[0].key_spec(),
                    end: merge_pts::<K, P>(concat_data::<K, P>(v.subrange(glo, ghi)), norm@)[
                        merge_pts::<K, P>(concat_data::<K, P>(v.subrange(glo, ghi)), norm@).len() - 1
                    ].key_spec(),
                    data: merge_pts::<K, P>(concat_data::<K, P>(v.subrange(glo, ghi)), norm@),
                },
            ]);
        }
        // keep everything that begins strictly after the new span
        while idx < n
            invariant
                ghi <= idx <= n,
                n == self.entries@.len(),
                v == entries_model(self.entries@),
                entries_model(out@) =~= mid_done + v.subrange(ghi, idx as int),
            decreases n - idx,
        {
            let de = dup_entry(&self.entries[idx]);
            let ghost old_out = out@;
            out.push(de);
            proof {
                assert(de@ == v[idx as int]);
                assert(out@ == old_out.push(de));
                assert forall|k: int| 0 <= k < out@.len() implies entries_model(out@)[k] == (
                mid_done + v.subrange(ghi, idx as int + 1))[k] by {
                    if k < old_out.len() {
                        assert(out@[k] == old_out[k]);
                        assert(entries_model(old_out)[k] == (mid_done + v.subrange(
                            ghi,
                            idx as int,
                        ))[k]);
                    } else {
                        assert(out@[k] == de);
                        assert((mid_done + v.subrange(ghi, idx as int + 1))[k] == v.subrange(
                            ghi,
                            idx as int + 1,
                        )[k - mid_done.len()]);
                    }
                }
                assert(entries_model(out@) =~= mid_done + v.subrange(ghi, idx as int + 1));
            }
            idx = idx + 1;
        }
        self.entries = out;
        proof {
            assert(v.subrange(ghi, n as int) =~= v.skip(ghi));
            assert(final(self)@ =~= add_result::<K, P>(v, points@));
        }
        Ok(())
    }

    /// Classifies the request `[start, end]`: `Found` when one stored range
    /// fully contains it, `Partial` when exactly one overlaps without
    /// containing it, `SpansMultiple` when two or more overlap, `NotFound`
    /// when none does. The returned points are those stored within the
    /// request, ascending by key.
    #[verifier::loop_isolation(false)]
    pub fn get_range(&self, start: &K, end: &K) -> (r: RangeDataGetResult<P>)
        requires
            self.wf(),
            K::le_spec(*start, *end),
        ensures
            classify_post(self@, *start, *end, r),
    {
        let ghost v = self@;
        let n = self.entries.len();
        let mut i: usize = 0;
        let mut hits: usize = 0;
        let mut contained = false;
        let mut pts: Vec<P> = Vec::new();
        proof {
            assert(v.take(0) =~= Seq::<EntryModel<K, P>>::empty());
        }
        while i < n
            invariant
                0 <= i <= n,
                n == self.entries@.len(),
                v == entries_model(self.entries@),
                hits <= i,
                hits == count_overlap(v.take(i as int), *start, *end),
                contained == exists|k: int|
                    0 <= k < i && entry_contains(#[trigger] v[k], *start, *end),
                pts@ == sel_all::<K, P>(v.take(i as int), *start, *end),
            decreases n - i,
        {
            proof {
                assert(v.take(i as int + 1).drop_last() =~= v.take(i as int));
                assert(v.take(i as int + 1).last() == v[i as int]);
            }
            let e = &self.entries[i];
            let overlaps = start.le(&e.end) && e.start.le(end);
            if overlaps {
                hits = hits + 1;
                if e.start.le(start) && end.le(&e.end) {
                    contained = true;
                    proof {
                        assert(entry_contains(v[i as int], *start, *end));
                    }
                }
                // collect this range's points that lie within the request
                let d = &e.data;
                let mut j: usize = 0;
                proof {
                    assert(d@.take(0) =~= Seq::<P>::empty());
                }
                while j < d.len()
                    invariant
                        0 <= j <= d@.len(),
                        pts@ == sel_all::<K, P>(v.take(i as int), *start, *end) + sel_pts::<
                            K,
                            P,
                        >(d@.take(j as int), *start, *end),
                    decreases d@.len() - j,
                {
                    proof {
                        assert(d@.take(j as int + 1).drop_last() =~= d@.take(j as int));
                        assert(d@.take(j as int + 1).last() == d@[j as int]);
                    }
                    let k = d[j].key();
                    if start.le(&k) && k.le(end) {
                        pts.push(d[j].dup());
                    }
                    j = j + 1;
                }
                proof {
                    assert(d@.take(d@.len() as int) =~= d@);
                    assert(v[i as int].data == d@);
                }
            } else {
                proof {
                    // an entry that misses the request holds no point of it
                    assert(!entry_overlaps(v[i as int], *start, *end));
                    crate::store_model::lemma_entry_no_overlap_sel_empty::<K, P>(v[i as int], *start, *end);
                    assert(pts@ =~= sel_all::<K, P>(v.take(i as int + 1), *start, *end));
                    if entry_contains(v[i as int], *start, *end) {
                        lemma_sorted_bounds::<K, P>(v[i as int].data);
                        lemma_contains_implies_overlaps::<K, P>(v[i as int], *start, *end);
                    }
                }
            }
            i = i + 1;
        }
        proof {
            assert(v.take(n as int) =~= v);
        }
        if hits == 0 {
            RangeDataGetResult::NotFound
        } else if hits == 1 {
            if contained {
                RangeDataGetResult::Found(pts)
            } else {
                RangeDataGetResult::Partial(pts)
            }
        } else {
            RangeDataGetResult::SpansMultiple(pts)
        }
    }

    /// The classified range query, under the name the design gives it.
    pub fn query(&self, start: &K, end: &K) -> (r: RangeDataGetResult<P>)
        requires
            self.wf(),
            K::le_spec(*start, *end),
        ensures
            classify_post(self@, *start, *end, r),
    {
        self.get_range(start, end)
    }
}

// ---------------------------------------------------------------------------
// Laws of the store
// ---------------------------------------------------------------------------

/// Inserting any non-empty point set into an empty store yields exactly one
/// stored range, holding one point per distinct key position of the set.
pub proof fn lemma_add_to_empty<K: StoreKey, P: StorePoint<K>>(
    v: Seq<EntryModel<K, P>>,
    pts: Seq<P>,
)
    requires
        v.len() == 0,
        pts.len() > 0,
    ensures
        ({
            let r = add_result::<K, P>(v, pts);
            let norm = normalize::<K, P>(pts);
            &&& r.len() == 1
            &&& r[0].data == norm
            &&& total_pts(r) == norm.len()
            &&& pts_sorted::<K, P>(norm)
            &&& forall|k: K| #[trigger] has_key::<K, P>(norm, k) <==> has_key::<K, P>(pts, k)
        }),
{
    let norm = normalize::<K, P>(pts);
    lemma_normalize_sorted::<K, P>(pts);
    lemma_normalize_keys::<K, P>(pts);
    let s = norm[0].key_spec();
    let t = norm[norm.len() - 1].key_spec();
    let r = add_result::<K, P>(v, pts);
    assert(cut_lo::<K, P>(v, s) == 0);
    assert(cut_hi::<K, P>(v, t) == 0);
    assert(v.subrange(0, 0) =~= Seq::<EntryModel<K, P>>::empty());
    assert(concat_data::<K, P>(v.subrange(0, 0)).len() == 0);
    let mdata = merge_pts::<K, P>(concat_data::<K, P>(v.subrange(0, 0)), norm);
    assert(mdata == norm);
    assert(v.take(0) =~= Seq::<EntryModel<K, P>>::empty());
    assert(v.skip(0) =~= Seq::<EntryModel<K, P>>::empty());
    let ne = EntryModel::<K, P> {
        start: mdata[0].key_spec(),
        end: mdata[mdata.len() - 1].key_spec(),
        data: mdata,
    };
    assert(r =~= seq![ne]);
    assert(r.len() == 1);
    assert(r.last() == ne);
    assert(r.drop_last() =~= Seq::<EntryModel<K, P>>::empty());
    assert(r.drop_last().len() == 0);
    assert(total_pts(r.drop_last()) == 0);
    assert(ne.data.len() == norm.len());
    assert(total_pts(r) == total_pts(r.drop_last()) + r.last().data.len());
    assert(total_pts(r) == norm.len());
}

/// Inserting a set whose span overlaps (or touches on a boundary) exactly
/// one stored range merges into exactly one range spanning the union of the
/// two, with each key position kept once; every other range is untouched.
pub proof fn lemma_add_merges_one<K: StoreKey, P: StorePoint<K>>(
    v: Seq<EntryModel<K, P>>,
    pts: Seq<P>,
)
    requires
        store_wf::<K, P>(v),
        pts.len() > 0,
        count_overlap(
            v,
            normalize::<K, P>(pts)[0].key_spec(),
            normalize::<K, P>(pts)[normalize::<K, P>(pts).len() - 1].key_spec(),
        ) == 1,
    ensures
        ({
            let norm = normalize::<K, P>(pts);
            let s = norm[0].key_spec();
            let t = norm[norm.len() - 1].key_spec();
            let i = cut_lo::<K, P>(v, s);
            let r = add_result::<K, P>(v, pts);
            &&& 0 <= i < v.len()
            &&& entry_overlaps(v[i], s, t)
            &&& r.len() == v.len()
            &&& forall|j: int| 0 <= j < v.len() && j != i ==> r[j] == v[j]
            &&& (r[i].start == v[i].start || r[i].start == s)
            &&& K::le_spec(r[i].start, v[i].start) && K::le_spec(r[i].start, s)
            &&& (r[i].end == v[i].end || r[i].end == t)
            &&& K::le_spec(v[i].end, r[i].end) && K::le_spec(t, r[i].end)
            &&& pts_sorted::<K, P>(r[i].data)
            &&& forall|k: K| #[trigger] has_key::<K, P>(r[i].data, k) <==> has_key::<K, P>(
                v[i].data,
                k,
            ) || has_key::<K, P>(pts, k)
        }),
{
    let norm = normalize::<K, P>(pts);
    lemma_normalize_sorted::<K, P>(pts);
    lemma_normalize_keys::<K, P>(pts);
    lemma_sorted_bounds::<K, P>(norm);
    let s = norm[0].key_spec();
    let t = norm[norm.len() - 1].key_spec();
    lemma_add_result_wf::<K, P>(v, pts);
    lemma_cuts::<K, P>(v, s, t);
    lemma_count_overlap_eq::<K, P>(v, s, t);
    let lo = cut_lo::<K, P>(v, s);
    let hi = cut_hi::<K, P>(v, t);
    assert(hi == lo + 1);
    let mid = v.subrange(lo, hi);
    assert(mid =~= seq![v[lo]]);
    assert(mid.drop_last() =~= Seq::<EntryModel<K, P>>::empty());
    let cd = concat_data::<K, P>(mid);
    assert(mid.len() == 1);
    assert(mid.last() == v[lo]);
    assert(concat_data::<K, P>(mid.drop_last()).len() == 0);
    assert(cd == concat_data::<K, P>(mid.drop_last()) + mid.last().data);
    assert(cd =~= v[lo].data);
    let mdata = merge_pts::<K, P>(cd, norm);
    let r = add_result::<K, P>(v, pts);
    lemma_merge_first::<K, P>(cd, norm);
    lemma_merge_last::<K, P>(cd, norm);
    lemma_merge_keys::<K, P>(cd, norm);
    let ne = EntryModel::<K, P> {
        start: mdata[0].key_spec(),
        end: mdata[mdata.len() - 1].key_spec(),
        data: mdata,
    };
    assert(r == v.take(lo) + seq![ne] + v.skip(hi));
    assert(r[lo] == ne);
    assert forall|j: int| 0 <= j < v.len() && j != lo implies r[j] == v[j] by {
        if j < lo {
            assert(r[j] == v.take(lo)[j]);
        } else {
            assert(r[j] == v.skip(hi)[j - lo - 1]);
        }
    }
    // boundaries of the merged range
    assert(entry_wf::<K, P>(v[lo]));
    assert(cd[0] == v[lo].data[0]);
    assert(cd.last() == v[lo].data[v[lo].data.len() - 1]);
    assert(mdata[mdata.len() - 1] == mdata.last());
    // key positions of the merged range
    assert forall|k: K| #[trigger] has_key::<K, P>(r[lo].data, k) <==> has_key::<K, P>(
        v[lo].data,
        k,
    ) || has_key::<K, P>(pts, k) by {
        assert(has_key::<K, P>(mdata, k) <==> has_key::<K, P>(cd, k) || has_key::<K, P>(norm, k));
    }
}

/// Inserting a set whose span overlaps no stored range adds one new range
/// and leaves every prior range exactly where it was.
pub proof fn lemma_add_disjoint<K: StoreKey, P: StorePoint<K>>(
    v: Seq<EntryModel<K, P>>,
    pts: Seq<P>,
)
    requires
        store_wf::<K, P>(v),
        pts.len() > 0,
        count_overlap(
            v,
            normalize::<K, P>(pts)[0].key_spec(),
            normalize::<K, P>(pts)[normalize::<K, P>(pts).len() - 1].key_spec(),
        ) == 0,
    ensures
        ({
            let norm = normalize::<K, P>(pts);
            let lo = cut_lo::<K, P>(v, norm[0].key_spec());
            let r = add_result::<K, P>(v, pts);
            &&& 0 <= lo <= v.len()
            &&& r.len() == v.len() + 1
            &&& forall|j: int| 0 <= j < lo ==> r[j] == v[j]
            &&& forall|j: int| lo <= j < v.len() ==> r[j + 1] == v[j]
            &&& r[lo].data == norm
        }),
{
    let norm = normalize::<K, P>(pts);
    lemma_normalize_sorted::<K, P>(pts);
    lemma_normalize_keys::<K, P>(pts);
    lemma_sorted_bounds::<K, P>(norm);
    let s = norm[0].key_spec();
    let t = norm[norm.len() - 1].key_spec();
    lemma_add_result_wf::<K, P>(v, pts);
    lemma_cuts::<K, P>(v, s, t);
    lemma_count_overlap_eq::<K, P>(v, s, t);
    let lo = cut_lo::<K, P>(v, s);
    let hi = cut_hi::<K, P>(v, t);
    assert(hi == lo);
    assert(v.subrange(lo, hi) =~= Seq::<EntryModel<K, P>>::empty());
    assert(concat_data::<K, P>(v.subrange(lo, hi)).len() == 0);
    let mdata = merge_pts::<K, P>(concat_data::<K, P>(v.subrange(lo, hi)), norm);
    assert(mdata == norm);
    let r = add_result::<K, P>(v, pts);
    assert forall|j: int| lo <= j < v.len() implies r[j + 1] == v[j] by {
        assert(r[j + 1] == v.skip(hi)[j - lo]);
    }
    assert forall|j: int| 0 <= j < lo implies r[j] == v[j] by {
        assert(r[j] == v.take(lo)[j]);
    }
}

/// A stored range that fully contains a request is the only stored range
/// overlapping it: the query then classifies the request as `Found`, and
/// `Found` can arise in no other way.
pub proof fn lemma_contains_unique<K: StoreKey, P: StorePoint<K>>(
    v: Seq<EntryModel<K, P>>,
    s: K,
    t: K,
    i: int,
)
    requires
        store_wf::<K, P>(v),
        K::le_spec(s, t),
        0 <= i < v.len(),
        entry_contains(v[i], s, t),
    ensures
        count_overlap(v, s, t) == 1,
        entry_overlaps(v[i], s, t),
        forall|j: int| 0 <= j < v.len() && j != i ==> !entry_overlaps(#[trigger] v[j], s, t),
{
    lemma_contains_implies_overlaps::<K, P>(v[i], s, t);
    assert forall|j: int| 0 <= j < v.len() && j != i implies !entry_overlaps(
        #[trigger] v[j],
        s,
        t,
    ) by {
        if j > i {
            // t <= v[i].end < v[j].start
            lemma_le_lt_trans::<K>(t, v[i].end, v[j].start);
        } else {
            // v[j].end < v[i].start <= s
            lemma_lt_le_trans::<K>(v[j].end, v[i].start, s);
        }
    }
    assert forall|j: int| 0 <= j < v.len() implies (entry_overlaps(#[trigger] v[j], s, t) <==> i
        <= j < i + 1) by {}
    lemma_count_by_region(v, s, t, i, i + 1);
}

/// A range that fully contains a (non-empty) request also overlaps it.
pub proof fn lemma_contains_implies_overlaps<K: StoreKey, P: StorePoint<K>>(
    e: EntryModel<K, P>,
    s: K,
    t: K,
)
    requires
        K::le_spec(s, t),
        entry_contains(e, s, t),
    ensures
        entry_overlaps(e, s, t),
{
    // start <= s <= t <= end
    if lt_spec::<K>(e.end, s) {
        K::lemma_le_trans(s, t, e.end);
    }
    if lt_spec::<K>(t, e.start) {
        K::lemma_le_trans(e.start, s, t);
    }
}

} // verus!
