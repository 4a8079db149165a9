//! The overwrite interval map: disjoint closed key intervals, each carrying
//! one value, with last-write-wins insertion. A new interval truncates
//! whatever it overlaps, so a lookup always sees the latest write covering
//! its key.

use vstd::prelude::*;
use crate::DataError;
use crate::store_model::{
    lead_len, trail_len, lemma_lead_len_props, lemma_trail_len_props, lemma_lead_len_is,
};

verus! {

/// A value an interval map can carry: cloning must preserve the value and
/// equality must be decidable.
pub trait StoreValue: Sized {
    fn dup(&self) -> (r: Self)
        ensures
            r == *self,
    ;

    fn eq_val(&self, other: &Self) -> (r: bool)
        ensures
            r == (*self == *other),
    ;
}

impl StoreValue for i64 {
    fn dup(&self) -> (r: Self) {
        *self
    }

    fn eq_val(&self, other: &Self) -> (r: bool) {
        *self == *other
    }
}

impl StoreValue for crate::bars::IBApiBar {
    fn dup(&self) -> (r: Self) {
        *self
    }

    fn eq_val(&self, other: &Self) -> (r: bool) {
        *self == *other
    }
}

/// One stored interval and its value.
pub struct IntervalEntry<V> {
    pub start: i64,
    pub end: i64,
    pub value: V,
}

/// The model of one interval.
pub struct IntervalModel<V> {
    pub start: i64,
    pub end: i64,
    pub value: V,
}

impl<V> View for IntervalEntry<V> {
    type V = IntervalModel<V>;

    open spec fn view(&self) -> IntervalModel<V> {
        IntervalModel { start: self.start, end: self.end, value: self.value }
    }
}

pub open spec fn ivs_model<V>(es: Seq<IntervalEntry<V>>) -> Seq<IntervalModel<V>> {
    Seq::new(es.len(), |i: int| es[i]@)
}

/// Intervals are ordered, non-empty, and pairwise disjoint.
pub open spec fn ivs_wf<V>(v: Seq<IntervalModel<V>>) -> bool {
    &&& forall|i: int| 0 <= i < v.len() ==> (#[trigger] v[i]).start <= v[i].end
    &&& forall|i: int, j: int| 0 <= i < j < v.len() ==> v[i].end < v[j].start
}

/// The value stored at one key.
pub open spec fn iv_at<V>(v: Seq<IntervalModel<V>>, k: i64) -> Option<V> {
    if exists|i: int| 0 <= i < v.len() && (#[trigger] v[i]).start <= k <= v[i].end {
        Some(v[choose|i: int| 0 <= i < v.len() && (#[trigger] v[i]).start <= k <= v[i].end].value)
    } else {
        None
    }
}

/// Under disjointness, an interval containing the key decides the lookup.
pub proof fn lemma_iv_at_unique<V>(v: Seq<IntervalModel<V>>, k: i64, i: int)
    requires
        ivs_wf(v),
        0 <= i < v.len(),
        v[i].start <= k <= v[i].end,
    ensures
        iv_at(v, k) == Some(v[i].value),
{
    let j = choose|j: int| 0 <= j < v.len() && (#[trigger] v[j]).start <= k <= v[j].end;
    if i < j {
        assert(v[i].end < v[j].start);
    }
    if j < i {
        assert(v[j].end < v[i].start);
    }
}

/// The entries strictly before `s`.
pub open spec fn iv_before<V>(s: i64) -> spec_fn(IntervalModel<V>) -> bool {
    |e: IntervalModel<V>| e.end < s
}

/// The entries strictly after `t`.
pub open spec fn iv_after<V>(t: i64) -> spec_fn(IntervalModel<V>) -> bool {
    |e: IntervalModel<V>| t < e.start
}

/// The map after writing `val` over `[s, t]`: the overlapped segment is
/// removed, its protruding left and right parts survive truncated, and the
/// new interval takes the middle.
pub open spec fn set_result<V>(v: Seq<IntervalModel<V>>, s: i64, t: i64, val: V) -> Seq<
    IntervalModel<V>,
> {
    let lo = lead_len(v, iv_before::<V>(s));
    let hi = v.len() - trail_len(v, iv_after::<V>(t));
    let left = if lo < hi && v[lo].start < s {
        seq![IntervalModel { start: v[lo].start, end: (s - 1) as i64, value: v[lo].value }]
    } else {
        Seq::empty()
    };
    let right = if lo < hi && t < v[hi - 1].end {
        seq![IntervalModel { start: (t + 1) as i64, end: v[hi - 1].end, value: v[hi - 1].value }]
    } else {
        Seq::empty()
    };
    v.take(lo) + left + seq![IntervalModel { start: s, end: t, value: val }] + right + v.skip(hi)
}

/// The three segments a write splits the map into, and the resulting
/// last-write-wins lookup semantics.
#[verifier::rlimit(100)]
pub proof fn lemma_set_result<V>(v: Seq<IntervalModel<V>>, s: i64, t: i64, val: V)
    requires
        ivs_wf(v),
        s <= t,
        s > i64::MIN,
        t < i64::MAX,
    ensures
        ivs_wf(set_result(v, s, t, val)),
        forall|k: i64| #[trigger] iv_at(set_result(v, s, t, val), k) == (if s <= k <= t {
            Some(val)
        } else {
            iv_at(v, k)
        }),
{
    let bp = iv_before::<V>(s);
    let ap = iv_after::<V>(t);
    lemma_lead_len_props(v, bp);
    lemma_trail_len_props(v, ap);
    let lo = lead_len(v, bp);
    let hi = v.len() - trail_len(v, ap);
    assert(lo <= hi) by {
        if lo > hi {
            assert(bp(v[lo - 1]));
            assert(ap(v[lo - 1]));
        }
    }
    // the middle segment overlaps `[s, t]`
    assert forall|i: int| lo <= i < hi implies !bp(#[trigger] v[i]) && !ap(v[i]) by {
        if bp(v[i]) && i > lo {
            assert(v[lo].end < v[i].start);
        }
        if ap(v[i]) && i < hi - 1 {
            assert(v[i].end < v[hi - 1].start);
            assert(ap(v[hi - 1]));
        }
    }
    let left = if lo < hi && v[lo].start < s {
        seq![IntervalModel { start: v[lo].start, end: (s - 1) as i64, value: v[lo].value }]
    } else {
        Seq::<IntervalModel<V>>::empty()
    };
    let right = if lo < hi && t < v[hi - 1].end {
        seq![IntervalModel { start: (t + 1) as i64, end: v[hi - 1].end, value: v[hi - 1].value }]
    } else {
        Seq::<IntervalModel<V>>::empty()
    };
    let r = set_result(v, s, t, val);
    let nl = left.len() as int;
    let nr = right.len() as int;
    assert(r.len() == lo + nl + 1 + nr + v.len() - hi);
    // index map of the result
    assert forall|i: int| 0 <= i < r.len() implies (if i < lo {
        r[i] == v[i]
    } else if i < lo + nl {
        r[i] == left[0]
    } else if i == lo + nl {
        r[i] == IntervalModel { start: s, end: t, value: val }
    } else if i < lo + nl + 1 + nr {
        r[i] == right[0]
    } else {
        r[i] == v[hi + i - (lo + nl + 1 + nr)]
    }) by {}
    assert(ivs_wf(r)) by {
        assert forall|i: int, j: int| 0 <= i < j < r.len() implies r[i].end < r[j].start by {
            if i < lo && j >= lo + nl + 1 + nr {
                assert(r[i] == v[i] && r[j] == v[hi + j - (lo + nl + 1 + nr)]);
            }
        }
    }
    assert forall|k: i64| #[trigger] iv_at(r, k) == (if s <= k <= t {
        Some(val)
    } else {
        iv_at(v, k)
    }) by {
        if s <= k <= t {
            lemma_iv_at_unique(r, k, lo + nl);
        } else if k < s {
            if exists|i: int| 0 <= i < v.len() && (#[trigger] v[i]).start <= k <= v[i].end {
                let i = choose|i: int| 0 <= i < v.len() && (#[trigger] v[i]).start <= k <= v[i].end;
                lemma_iv_at_unique(v, k, i);
                if i < lo {
                    lemma_iv_at_unique(r, k, i);
                } else {
                    // the containing interval overlaps `[s, t]`, so only its
                    // left part can hold `k`
                    assert(!ap(v[i]));
                    assert(i < hi);
                    if i > lo {
                        assert(v[lo].end < v[i].start);
                        assert(!bp(v[lo]));
                        assert(false);
                    }
                    assert(i == lo);
                    assert(v[lo].start <= k && k < s);
                    assert(nl == 1);
                    lemma_iv_at_unique(r, k, lo);
                }
            } else {
                if exists|i: int| 0 <= i < r.len() && (#[trigger] r[i]).start <= k <= r[i].end {
                    let i = choose|i: int| 0 <= i < r.len() && (#[trigger] r[i]).start <= k <= r[i].end;
                    if i < lo {
                        assert(v[i].start <= k <= v[i].end);
                    } else if i < lo + nl {
                        assert(v[lo].start <= k <= v[lo].end);
                    } else if i == lo + nl {
                        assert(false);
                    } else if i < lo + nl + 1 + nr {
                        assert(t + 1 <= k);
                        assert(false);
                    } else {
                        let j = hi + i - (lo + nl + 1 + nr);
                        assert(v[j].start <= k <= v[j].end);
                    }
                    assert(false);
                }
            }
        } else {
            // k > t, symmetric to the k < s case
            if exists|i: int| 0 <= i < v.len() && (#[trigger] v[i]).start <= k <= v[i].end {
                let i = choose|i: int| 0 <= i < v.len() && (#[trigger] v[i]).start <= k <= v[i].end;
                lemma_iv_at_unique(v, k, i);
                if i >= hi {
                    lemma_iv_at_unique(r, k, i - hi + lo + nl + 1 + nr);
                } else {
                    assert(!bp(v[i]));
                    assert(i >= lo);
                    if i < hi - 1 {
                        assert(v[i].end < v[hi - 1].start);
                        assert(!ap(v[hi - 1]));
                        assert(false);
                    }
                    assert(i == hi - 1);
                    assert(t < k && k <= v[hi - 1].end);
                    assert(nr == 1);
                    lemma_iv_at_unique(r, k, lo + nl + 1);
                }
            } else {
                if exists|i: int| 0 <= i < r.len() && (#[trigger] r[i]).start <= k <= r[i].end {
                    let i = choose|i: int| 0 <= i < r.len() && (#[trigger] r[i]).start <= k <= r[i].end;
                    if i < lo {
                        assert(v[i].start <= k <= v[i].end);
                    } else if i < lo + nl {
                        assert(k <= s - 1);
                        assert(false);
                    } else if i == lo + nl {
                        assert(false);
                    } else if i < lo + nl + 1 + nr {
                        assert(v[hi - 1].start <= k <= v[hi - 1].end) by {
                            assert(!bp(v[hi - 1]) && !ap(v[hi - 1]));
                            assert(v[hi - 1].start <= t < k);
                        }
                    } else {
                        let j = hi + i - (lo + nl + 1 + nr);
                        assert(v[j].start <= k <= v[j].end);
                    }
                    assert(false);
                }
            }
        }
    }
}

/// The overwrite interval map, remembering nothing but its intervals.
pub struct RangeDataStorage<V> {
    pub entries: Vec<IntervalEntry<V>>,
}

impl<V> View for RangeDataStorage<V> {
    type V = Seq<IntervalModel<V>>;

    open spec fn view(&self) -> Seq<IntervalModel<V>> {
        ivs_model(self.entries@)
    }
}

impl<V: StoreValue> RangeDataStorage<V> {
    pub open spec fn wf(self) -> bool {
        ivs_wf(self@)
    }

    /// Creates an empty interval map.
    pub fn new() -> (r: Self)
        ensures
            r.wf(),
            r@.len() == 0,
    {
        let r = RangeDataStorage { entries: Vec::new() };
        proof {
            assert(r@ =~= Seq::<IntervalModel<V>>::empty());
        }
        r
    }

    /// The number of disjoint stored intervals.
    pub fn len(&self) -> (r: usize)
        ensures
            r == self@.len(),
    {
        self.entries.len()
    }

    /// Writes `value` over the closed interval `[start, end]` with
    /// last-write-wins semantics: every key of the interval now maps to
    /// `value`, every other key keeps its prior binding. An inverted
    /// interval is rejected unchanged.
    #[verifier::loop_isolation(false)]
    #[verifier::rlimit(100)]
    pub fn set_range(&mut self, start: i64, end: i64, value: V) -> (r: Result<(), DataError>)
        requires
            old(self).wf(),
            start > i64::MIN,
            end < i64::MAX,
        ensures
            final(self).wf(),
            start > end ==> r == Err::<(), DataError>(DataError::Range) && final(self)@ == old(
                self,
            )@,
            start <= end ==> r == Ok::<(), DataError>(()) && final(self)@ == set_result(
                old(self)@,
                start,
                end,
                value,
            ) && forall|k: i64| #[trigger] iv_at(final(self)@, k) == (if start <= k <= end {
                Some(value)
            } else {
                iv_at(old(self)@, k)
            }),
    {
        let ghost v = self@;
        if start > end {
            return Err(DataError::Range);
        }
        proof {
            lemma_set_result(v, start, end, value);
        }
        let n = self.entries.len();
        let mut idx: usize = 0;
        let mut out: Vec<IntervalEntry<V>> = Vec::new();
        // keep what ends strictly before the new interval
        while idx < n && self.entries[idx].end < start
            invariant
                0 <= idx <= n,
                n == self.entries@.len(),
                v == ivs_model(self.entries@),
                forall|i: int| 0 <= i < idx ==> (#[trigger] v[i]).end < start,
                ivs_model(out@) =~= v.take(idx as int),
            decreases n - idx,
        {
            let e = &self.entries[idx];
            out.push(IntervalEntry { start: e.start, end: e.end, value: e.value.dup() });
            proof {
                assert(ivs_model(out@) =~= v.take(idx as int + 1));
            }
            idx = idx + 1;
        }
        proof {
            assert forall|i: int| 0 <= i < idx implies iv_before::<V>(start)(#[trigger] v[i])
                by {}
            if (idx as int) < v.len() {
                assert(!iv_before::<V>(start)(v[idx as int]));
            }
            lemma_lead_len_is(v, iv_before::<V>(start), idx as int);
        }
        let ghost lo = idx as int;
        // truncate the first overlapped interval's protruding left part
        if idx < n && !(end < self.entries[idx].start) && self.entries[idx].start < start {
            let e = &self.entries[idx];
            out.push(IntervalEntry { start: e.start, end: start - 1, value: e.value.dup() });
        }
        // the new interval itself
        out.push(IntervalEntry { start, end, value });
        // skip everything the new interval overlaps
        let ghost pre_mid = ivs_model(out@);
        while idx < n && !(end < self.entries[idx].start)
            invariant
                lo <= idx <= n,
                n == self.entries@.len(),
                v == ivs_model(self.entries@),
                forall|i: int| lo <= i < idx ==> !(end < (#[trigger] v[i]).start),
                ivs_model(out@) == pre_mid,
            decreases n - idx,
        {
            idx = idx + 1;
        }
        proof {
            lemma_trail_len_props(v, iv_after::<V>(end));
            let hi = v.len() - trail_len(v, iv_after::<V>(end));
            if idx < n {
                assert(iv_after::<V>(end)(v[idx as int]));
                assert((idx as int) >= hi) by {
                    if (idx as int) < hi {
                        assert(!iv_after::<V>(end)(v[idx as int])) by {
                            if (idx as int) < hi - 1 {
                                assert(v[idx as int].end < v[hi - 1].start);
                                assert(!iv_after::<V>(end)(v[hi - 1]));
                                assert(v[hi - 1].start <= end);
                                assert(v[idx as int].start <= v[idx as int].end);
                            }
                        }
                    }
                }
                if (idx as int) > lo {
                    assert(!(end < v[idx as int - 1].start));
                    assert((idx as int - 1) < hi) by {
                        if (idx as int - 1) >= hi {
                            assert(iv_after::<V>(end)(v[idx as int - 1]));
                        }
                    }
                }
                assert(idx as int == hi || (idx as int == lo && lo >= hi));
                assert(lo <= hi);
                assert(idx as int == hi);
            } else {
                if hi < n {
                    assert(iv_after::<V>(end)(v[hi as int]));
                    assert((idx as int) > hi - 1);
                    if hi <= (idx as int) - 1 {
                        assert(!(end < v[idx as int - 1].start)

                        );
                        assert(iv_after::<V>(end)(v[idx as int - 1])) by {
                            if (idx as int - 1) > hi {
                                assert(v[hi as int].end < v[idx as int - 1].start);
                                assert(v[hi as int].start <= v[hi as int].end);
                            }
                        }
                        assert(false);
                    }
                    assert(false);
                }
                assert(idx as int == hi);
            }
        }
        let ghost hi = idx as int;
        // truncate the last overlapped interval's protruding right part
        let ghost can_right = lo < hi;
        if idx > 0 {
            let last = idx - 1;
            if start <= self.entries[last].end && end < self.entries[last].end {
                let e = &self.entries[last];
                out.push(IntervalEntry { start: end + 1, end: e.end, value: e.value.dup() });
            }
        }
        // keep what begins strictly after the new interval
        let ghost mid_done = ivs_model(out@);
        while idx < n
            invariant
                hi <= idx <= n,
                n == self.entries@.len(),
                v == ivs_model(self.entries@),
                ivs_model(out@) =~= mid_done + v.subrange(hi, idx as int),
            decreases n - idx,
        {
            let e = &self.entries[idx];
            let ne = IntervalEntry { start: e.start, end: e.end, value: e.value.dup() };
            let ghost old_out = out@;
            out.push(ne);
            proof {
                assert(ne@ == v[idx as int]);
                assert forall|k: int| 0 <= k < out@.len() implies ivs_model(out@)[k] == (mid_done
                    + v.subrange(hi, idx as int + 1))[k] by {
                    if k < old_out.len() {
                        assert(out@[k] == old_out[k]);
                        assert(ivs_model(old_out)[k] == (mid_done + v.subrange(hi, idx as int))[
                        k]);
                    } else {
                        assert(out@[k] == ne);
                        assert((mid_done + v.subrange(hi, idx as int + 1))[k] == v.subrange(
                            hi,
                            idx as int + 1,
                        )[k - mid_done.len()]);
                    }
                }
                assert(ivs_model(out@) =~= mid_done + v.subrange(hi, idx as int + 1));
            }
            idx = idx + 1;
        }
        self.entries = out;
        proof {
            assert(v.subrange(hi, n as int) =~= v.skip(hi));
            assert(final(self)@ =~= set_result(v, start, end, value));
        }
        Ok(())
    }

    /// Writes `value` over `[key_start, key_end]`; the interval must not be
    /// inverted.
    pub fn insert(&mut self, key_start: i64, key_end: i64, value: V)
        requires
            old(self).wf(),
            key_start <= key_end,
            key_start > i64::MIN,
            key_end < i64::MAX,
        ensures
            final(self).wf(),
            final(self)@ == set_result(old(self)@, key_start, key_end, value),
            forall|k: i64| #[trigger] iv_at(final(self)@, k) == (if key_start <= k <= key_end {
                Some(value)
            } else {
                iv_at(old(self)@, k)
            }),
    {
        let r = self.set_range(key_start, key_end, value);
        proof {
            assert(r is Ok);
        }
    }

    /// The value stored at `key`, if any interval covers it.
    pub fn get(&self, key: i64) -> (r: Option<&V>)
        requires
            self.wf(),
        ensures
            match r {
                Some(x) => iv_at(self@, key) == Some(*x),
                None => iv_at(self@, key) is None,
            },
    {
        let n = self.entries.len();
        let mut i: usize = 0;
        while i < n
            invariant
                0 <= i <= n,
                n == self.entries@.len(),
                self.wf(),
                forall|a: int| 0 <= a < i ==> !((#[trigger] self@[a]).start <= key
                    <= self@[a].end),
            decreases n - i,
        {
            let e = &self.entries[i];
            if e.start <= key && key <= e.end {
                proof {
                    lemma_iv_at_unique(self@, key, i as int);
                }
                return Some(&self.entries[i].value);
            }
            i = i + 1;
        }
        None
    }

    /// Whether any interval covers `key`.
    pub fn contains(&mut self, key: i64) -> (r: bool)
        requires
            old(self).wf(),
        ensures
            *final(self) == *old(self),
            r == (iv_at(old(self)@, key) is Some),
    {
        match self.get(key) {
            Some(_) => true,
            None => false,
        }
    }

    /// Whether both boundary keys are covered and carry the same value, the
    /// interval-map reading of "this whole range is known".
    pub fn contains_range(&self, key_start: &i64, key_end: &i64) -> (r: bool)
        requires
            self.wf(),
        ensures
            r == (iv_at(self@, *key_start) is Some && iv_at(self@, *key_end) is Some && iv_at(
                self@,
                *key_start,
            ).unwrap() == iv_at(self@, *key_end).unwrap()),
    {
        let a = self.get(*key_start);
        let b = self.get(*key_end);
        match (a, b) {
            (Some(x), Some(y)) => x.eq_val(y),
            _ => false,
        }
    }
}

} // verus!
