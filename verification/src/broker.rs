//! The lazy three-tier data broker: per ticker and per timeframe it tracks
//! whether cached data is absent, known on disk but unread, or realized in
//! memory. The broker itself performs no I/O: `retrieve_step` decides what
//! the next action is, and the caller feeds observations back through the
//! `apply_*` methods.

use vstd::prelude::*;
use crate::DataError;
use crate::bars::{HashedBarSize, IBApiBar};
use crate::keys::StorePoint;
use crate::range_store::{RangeDataStore, RangeDataGetResult, entries_model};
use crate::store_model::{
    EntryModel, store_wf, sel_all, count_overlap, entry_contains, entry_overlaps, add_result,
};
use crate::persist::{enc_store_doc, spec_parse_doc};

verus! {

/// The in-memory state of one timeframe of one ticker.
pub enum FramePresence {
    /// An on-disk artifact was seen but has not been parsed.
    KnownUnrealized,
    /// The store is materialized in memory.
    Realized(RangeDataStore<i64, IBApiBar>),
}

/// The in-memory state of one ticker.
pub enum TickerPresence {
    /// The ticker's directory was seen but not scanned.
    KnownUnrealized,
    /// The directory was scanned: its timeframe presence map is known.
    Realized(Vec<(HashedBarSize, FramePresence)>),
}

/// What the caller must do next to resolve a request.
pub enum BrokerStep {
    /// Create the ticker's directory if missing, list its files, and report
    /// them through `apply_scan`.
    ScanTicker,
    /// Read the timeframe's file and report the bytes through `apply_load`.
    LoadStore,
    /// Fetch the window from the remote source and report the bars through
    /// `apply_fetch`.
    Fetch,
    /// The request is fully answered by cached data.
    Ready(Vec<IBApiBar>),
}

/// The spec-level name of each step.
pub enum StepKind {
    Scan,
    Load,
    Fetch,
    Ready,
}

pub open spec fn frame_lookup(
    fs: Seq<(HashedBarSize, FramePresence)>,
    tf: HashedBarSize,
) -> Option<FramePresence> {
    if exists|i: int| 0 <= i < fs.len() && fs[i].0 == tf {
        Some(fs[choose|i: int| 0 <= i < fs.len() && fs[i].0 == tf].1)
    } else {
        None
    }
}

pub open spec fn ticker_lookup(
    ts: Seq<(String, TickerPresence)>,
    name: Seq<char>,
) -> Option<TickerPresence> {
    if exists|i: int| 0 <= i < ts.len() && ts[i].0@ == name {
        Some(ts[choose|i: int| 0 <= i < ts.len() && ts[i].0@ == name].1)
    } else {
        None
    }
}

pub open spec fn frames_wf(fs: Seq<(HashedBarSize, FramePresence)>) -> bool {
    &&& forall|i: int, j: int| 0 <= i < j < fs.len() ==> fs[i].0 != fs[j].0
    &&& forall|i: int| 0 <= i < fs.len() ==> ((#[trigger] fs[i]).1 matches
        FramePresence::Realized(st) ==> store_wf::<i64, IBApiBar>(st@))
}

/// The query window is fully answered by one stored range of `v`.
pub open spec fn is_found(v: Seq<EntryModel<i64, IBApiBar>>, s: i64, t: i64) -> bool {
    count_overlap(v, s, t) == 1 && (exists|i: int|
        0 <= i < v.len() && entry_contains(#[trigger] v[i], s, t))
}

/// `nm` is the view of one of the given names.
pub open spec fn names_contain(names: Seq<String>, nm: Seq<char>) -> bool {
    exists|j: int| 0 <= j < names.len() && nm == (#[trigger] names[j])@
}

/// The broker: a storage root and the lazily realized presence map.
pub struct DataBroker {
    pub storage_directory: String,
    pub tickers: Vec<(String, TickerPresence)>,
}

impl DataBroker {
    pub open spec fn wf(self) -> bool {
        &&& forall|i: int, j: int| 0 <= i < j < self.tickers@.len()
            ==> self.tickers@[i].0@ != self.tickers@[j].0@
        &&& forall|i: int| 0 <= i < self.tickers@.len() ==> ((#[trigger] self.tickers@[i]).1
            matches TickerPresence::Realized(fs) ==> frames_wf(fs@))
    }

    /// The presence state of one ticker.
    pub open spec fn ticker_state(self, name: Seq<char>) -> Option<TickerPresence> {
        ticker_lookup(self.tickers@, name)
    }

    /// The presence state of one timeframe of one ticker.
    pub open spec fn frame_state(self, name: Seq<char>, tf: HashedBarSize) -> Option<
        FramePresence,
    > {
        match self.ticker_state(name) {
            Some(TickerPresence::Realized(fs)) => frame_lookup(fs@, tf),
            _ => None,
        }
    }

    /// The realized store of one timeframe, if any.
    pub open spec fn realized_store(self, name: Seq<char>, tf: HashedBarSize) -> Option<
        Seq<EntryModel<i64, IBApiBar>>,
    > {
        match self.frame_state(name, tf) {
            Some(FramePresence::Realized(st)) => Some(st@),
            _ => None,
        }
    }

    /// Which action resolves a request in the current state: scan an
    /// unscanned ticker, load a known-but-unread file, answer a fully
    /// contained window from memory, and fetch in every other case.
    pub open spec fn step_kind_of(self, name: Seq<char>, tf: HashedBarSize, s: i64, t: i64)
        -> StepKind {
        match self.ticker_state(name) {
            None => StepKind::Scan,
            Some(TickerPresence::KnownUnrealized) => StepKind::Scan,
            Some(TickerPresence::Realized(fs)) => match frame_lookup(fs@, tf) {
                None => StepKind::Fetch,
                Some(FramePresence::KnownUnrealized) => StepKind::Load,
                Some(FramePresence::Realized(st)) => if is_found(st@, s, t) {
                    StepKind::Ready
                } else {
                    StepKind::Fetch
                },
            },
        }
    }
}

/// When the keys are unique, finding an index decides the lookup.
pub proof fn lemma_ticker_lookup_at(ts: Seq<(String, TickerPresence)>, i: int)
    requires
        forall|a: int, b: int| 0 <= a < b < ts.len() ==> ts[a].0@ != ts[b].0@,
        0 <= i < ts.len(),
    ensures
        ticker_lookup(ts, ts[i].0@) == Some(ts[i].1),
{
    let name = ts[i].0@;
    assert(exists|k: int| 0 <= k < ts.len() && ts[k].0@ == name);
    let j = choose|k: int| 0 <= k < ts.len() && ts[k].0@ == name;
    if i < j {
        assert(ts[i].0@ != ts[j].0@);
    }
    if j < i {
        assert(ts[j].0@ != ts[i].0@);
    }
}

pub proof fn lemma_frame_lookup_at(fs: Seq<(HashedBarSize, FramePresence)>, i: int)
    requires
        forall|a: int, b: int| 0 <= a < b < fs.len() ==> fs[a].0 != fs[b].0,
        0 <= i < fs.len(),
    ensures
        frame_lookup(fs, fs[i].0) == Some(fs[i].1),
{
    let tf = fs[i].0;
    assert(exists|k: int| 0 <= k < fs.len() && fs[k].0 == tf);
    let j = choose|k: int| 0 <= k < fs.len() && fs[k].0 == tf;
    if i < j {
        assert(fs[i].0 != fs[j].0);
    }
    if j < i {
        assert(fs[j].0 != fs[i].0);
    }
}

impl DataBroker {
    /// Creates a broker over a storage root whose directory entries (one per
    /// already-seen ticker) were just listed; each becomes known but
    /// unscanned. The registered tickers are exactly the distinct given
    /// names: a name seen twice is kept once, and nothing else is kept.
    #[verifier::rlimit(100)]
    pub fn new(storage_directory: String, ticker_names: Vec<String>) -> (r: DataBroker)
        ensures
            r.wf(),
            r.storage_directory == storage_directory,
            forall|name: Seq<char>| #[trigger] r.ticker_state(name) matches Some(p) ==> p
                is KnownUnrealized,
            forall|i: int| 0 <= i < ticker_names@.len() ==> r.ticker_state(
                (#[trigger] ticker_names@[i])@,
            ) == Some(TickerPresence::KnownUnrealized),
            r.tickers@.len() <= ticker_names@.len(),
            forall|k: int| 0 <= k < r.tickers@.len() ==> names_contain(
                ticker_names@,
                (#[trigger] r.tickers@[k]).0@,
            ),
            forall|name: Seq<char>| #[trigger] r.ticker_state(name) is Some <==> names_contain(
                ticker_names@,
                name,
            ),
    {
        let mut tickers: Vec<(String, TickerPresence)> = Vec::new();
        // which given name each registered ticker came from
        let ghost mut src_idx: Seq<int> = Seq::empty();
        let n = ticker_names.len();
        let mut i: usize = 0;
        while i < n
            invariant
                0 <= i <= n,
                n == ticker_names@.len(),
                forall|a: int, b: int| 0 <= a < b < tickers@.len() ==> tickers@[a].0@
                    != tickers@[b].0@,
                forall|a: int| 0 <= a < tickers@.len() ==> (#[trigger] tickers@[a]).1
                    is KnownUnrealized,
                forall|a: int| #![trigger ticker_names@[a]] 0 <= a < i ==> exists|k: int|
                    0 <= k < tickers@.len() && (#[trigger] tickers@[k]).0@ == ticker_names@[a]@,
                tickers@.len() <= i,
                src_idx.len() == tickers@.len(),
                forall|k: int| #![trigger src_idx[k]] 0 <= k < tickers@.len() ==> (0 <= src_idx[k]
                    && src_idx[k] < i && tickers@[k].0@ == ticker_names@[src_idx[k]]@),
            decreases n - i,
        {
            let name = &ticker_names[i];
            let mut seen = false;
            let mut j: usize = 0;
            while j < tickers.len()
                invariant
                    0 <= j <= tickers@.len(),
                    seen == exists|k: int|
                        0 <= k < j && (#[trigger] tickers@[k]).0@ == name@,
                decreases tickers@.len() - j,
            {
                if tickers[j].0.eq(name) {
                    seen = true;
                    proof {
                        assert((tickers@[j as int]).0@ == name@);
                    }
                }
                j = j + 1;
            }
            let ghost pre = tickers@;
            let ghost pre_src = src_idx;
            if !seen {
                tickers.push((name.clone(), TickerPresence::KnownUnrealized));
                proof {
                    src_idx = src_idx.push(i as int);
                }
            }
            proof {
                assert forall|a: int| #![trigger ticker_names@[a]] 0 <= a < i + 1 implies exists|
                    k: int,
                |
                    0 <= k < tickers@.len() && (#[trigger] tickers@[k]).0@ == ticker_names@[a]@ by {
                    if a == i {
                        if seen {
                            let k = choose|k: int|
                                0 <= k < pre.len() && (#[trigger] pre[k]).0@ == name@;
                            assert(tickers@[k].0@ == ticker_names@[a]@);
                        } else {
                            assert(tickers@[tickers@.len() - 1].0@ == ticker_names@[a]@);
                        }
                    } else {
                        let k = choose|k: int|
                            0 <= k < pre.len() && (#[trigger] pre[k]).0@ == ticker_names@[a]@;
                        assert(tickers@[k].0@ == ticker_names@[a]@);
                    }
                }
                assert forall|k: int| #![trigger src_idx[k]] 0 <= k < tickers@.len() implies (0
                    <= src_idx[k] && src_idx[k] < i + 1 && tickers@[k].0@ == ticker_names@[
                src_idx[k]]@) by {
                    if k < pre.len() {
                        assert(src_idx[k] == pre_src[k]);
                        assert(tickers@[k] == pre[k]);
                    } else {
                        assert(src_idx[k] == i as int);
                        assert(tickers@[k].0@ == name@);
                    }
                }
            }
            i = i + 1;
        }
        let r = DataBroker { storage_directory, tickers };
        proof {
            assert forall|name: Seq<char>|
                ((#[trigger] r.ticker_state(name)) matches Some(p) ==> p is KnownUnrealized) by {
                if exists|k: int| 0 <= k < r.tickers@.len() && r.tickers@[k].0@ == name {
                    let k = choose|k: int|
                        0 <= k < r.tickers@.len() && r.tickers@[k].0@ == name;
                    assert(r.tickers@[k].1 is KnownUnrealized);
                }
            }
            assert forall|k: int| 0 <= k < r.tickers@.len() implies names_contain(
                ticker_names@,
                (#[trigger] r.tickers@[k]).0@,
            ) by {
                let j = src_idx[k];
                assert(0 <= j < ticker_names@.len());
                assert(r.tickers@[k].0@ == ticker_names@[j]@);
            }
            assert forall|i2: int| 0 <= i2 < ticker_names@.len() implies r.ticker_state(
                (#[trigger] ticker_names@[i2])@,
            ) == Some(TickerPresence::KnownUnrealized) by {
                let k = choose|k: int|
                    0 <= k < r.tickers@.len() && (#[trigger] r.tickers@[k]).0@
                        == ticker_names@[i2]@;
                assert(0 <= k < r.tickers@.len() && r.tickers@[k].0@ == ticker_names@[i2]@);
                lemma_ticker_lookup_at(r.tickers@, k);
                assert(r.tickers@[k].1 is KnownUnrealized);
            }
            assert forall|name: Seq<char>|
                (#[trigger] r.ticker_state(name) is Some <==> names_contain(
                    ticker_names@,
                    name,
                )) by {
                if r.ticker_state(name) is Some {
                    let k = choose|k: int|
                        0 <= k < r.tickers@.len() && r.tickers@[k].0@ == name;
                    let j = src_idx[k];
                    assert(0 <= j < ticker_names@.len());
                    assert(name == ticker_names@[j]@);
                }
                if names_contain(ticker_names@, name) {
                    let j = choose|j: int|
                        0 <= j < ticker_names@.len() && name == (#[trigger] ticker_names@[j])@;
                    assert(r.ticker_state(ticker_names@[j]@) == Some(
                        TickerPresence::KnownUnrealized,
                    ));
                }
            }
        }
        r
    }

    /// The number of tickers the broker knows of.
    pub fn get_num_tickers(&self) -> (r: usize)
        ensures
            r == self.tickers@.len(),
    {
        self.tickers.len()
    }

    /// Finds a ticker's slot.
    fn find_ticker(&self, name: &String) -> (r: Option<usize>)
        ensures
            match r {
                Some(i) => i < self.tickers@.len() && self.tickers@[i as int].0@ == name@,
                None => forall|k: int| 0 <= k < self.tickers@.len()
                    ==> (#[trigger] self.tickers@[k]).0@ != name@,
            },
    {
        let n = self.tickers.len();
        let mut i: usize = 0;
        while i < n
            invariant
                0 <= i <= n,
                n == self.tickers@.len(),
                forall|k: int| 0 <= k < i ==> (#[trigger] self.tickers@[k]).0@ != name@,
            decreases n - i,
        {
            if self.tickers[i].0.eq(name) {
                return Some(i);
            }
            i = i + 1;
        }
        None
    }

    /// Decides the next action for the request `[start, end]` of one ticker
    /// and timeframe, answering from memory when one stored range fully
    /// contains the window.
    pub fn retrieve_step(&self, ticker: &String, timeframe: HashedBarSize, start: i64, end: i64)
        -> (r: BrokerStep)
        requires
            self.wf(),
            start <= end,
        ensures
            ({
                let k = self.step_kind_of(ticker@, timeframe, start, end);
                match r {
                    BrokerStep::ScanTicker => k == StepKind::Scan,
                    BrokerStep::LoadStore => k == StepKind::Load,
                    BrokerStep::Fetch => k == StepKind::Fetch,
                    BrokerStep::Ready(pts) => k == StepKind::Ready && pts@ == sel_all::<
                        i64,
                        IBApiBar,
                    >(self.realized_store(ticker@, timeframe).unwrap(), start, end),
                }
            }),
    {
        let ti = match self.find_ticker(ticker) {
            None => {
                return BrokerStep::ScanTicker;
            },
            Some(i) => i,
        };
        proof {
            lemma_ticker_lookup_at(self.tickers@, ti as int);
        }
        let frames = match &self.tickers[ti].1 {
            TickerPresence::KnownUnrealized => {
                return BrokerStep::ScanTicker;
            },
            TickerPresence::Realized(fs) => fs,
        };
        let nf = frames.len();
        let mut fi: usize = 0;
        while fi < nf && !(frames[fi].0 == timeframe)
            invariant
                0 <= fi <= nf,
                nf == frames@.len(),
                forall|k: int| 0 <= k < fi ==> (#[trigger] frames@[k]).0 != timeframe,
            decreases nf - fi,
        {
            fi = fi + 1;
        }
        if fi == nf {
            proof {
                assert(frame_lookup(frames@, timeframe) is None);
            }
            return BrokerStep::Fetch;
        }
        proof {
            lemma_frame_lookup_at(frames@, fi as int);
        }
        match &frames[fi].1 {
            FramePresence::KnownUnrealized => BrokerStep::LoadStore,
            FramePresence::Realized(st) => {
                match st.get_range(&start, &end) {
                    RangeDataGetResult::Found(pts) => BrokerStep::Ready(pts),
                    RangeDataGetResult::Partial(_) => BrokerStep::Fetch,
                    RangeDataGetResult::SpansMultiple(_) => BrokerStep::Fetch,
                    RangeDataGetResult::NotFound => BrokerStep::Fetch,
                }
            },
        }
    }
}

/// Replacing the value at one key leaves every other lookup unchanged.
pub proof fn lemma_ticker_lookup_update(
    ts: Seq<(String, TickerPresence)>,
    i: int,
    p: (String, TickerPresence),
)
    requires
        forall|a: int, b: int| 0 <= a < b < ts.len() ==> ts[a].0@ != ts[b].0@,
        0 <= i < ts.len(),
        p.0@ == ts[i].0@,
    ensures
        forall|a: int, b: int| 0 <= a < b < ts.update(i, p).len() ==> ts.update(i, p)[a].0@
            != ts.update(i, p)[b].0@,
        ticker_lookup(ts.update(i, p), ts[i].0@) == Some(p.1),
        forall|nm: Seq<char>| nm != ts[i].0@ ==> #[trigger] ticker_lookup(ts.update(i, p), nm)
            == ticker_lookup(ts, nm),
{
    let u = ts.update(i, p);
    assert forall|a: int, b: int| 0 <= a < b < u.len() implies u[a].0@ != u[b].0@ by {
        assert(u[a].0@ == ts[a].0@ && u[b].0@ == ts[b].0@);
    }
    lemma_ticker_lookup_at(u, i);
    assert forall|nm: Seq<char>| nm != ts[i].0@ implies #[trigger] ticker_lookup(u, nm)
        == ticker_lookup(ts, nm) by {
        assert forall|k: int| 0 <= k < u.len() implies u[k].0@ == ts[k].0@ by {}
        if exists|k: int| 0 <= k < u.len() && u[k].0@ == nm {
            let k1 = choose|k: int| 0 <= k < u.len() && u[k].0@ == nm;
            assert(ts[k1].0@ == nm);
            let k2 = choose|k: int| 0 <= k < ts.len() && ts[k].0@ == nm;
            if k1 < k2 {
                assert(ts[k1].0@ != ts[k2].0@);
            }
            if k2 < k1 {
                assert(ts[k2].0@ != ts[k1].0@);
            }
            assert(k1 == k2);
            assert(k1 != i);
        } else {
            if exists|k: int| 0 <= k < ts.len() && ts[k].0@ == nm {
                let k = choose|k: int| 0 <= k < ts.len() && ts[k].0@ == nm;
                assert(u[k].0@ == nm);
            }
        }
    }
}

pub proof fn lemma_frame_lookup_update(
    fs: Seq<(HashedBarSize, FramePresence)>,
    i: int,
    p: (HashedBarSize, FramePresence),
)
    requires
        forall|a: int, b: int| 0 <= a < b < fs.len() ==> fs[a].0 != fs[b].0,
        0 <= i < fs.len(),
        p.0 == fs[i].0,
    ensures
        forall|a: int, b: int| 0 <= a < b < fs.update(i, p).len() ==> fs.update(i, p)[a].0
            != fs.update(i, p)[b].0,
        frame_lookup(fs.update(i, p), fs[i].0) == Some(p.1),
        forall|tf: HashedBarSize| tf != fs[i].0 ==> #[trigger] frame_lookup(fs.update(i, p), tf)
            == frame_lookup(fs, tf),
{
    let u = fs.update(i, p);
    assert forall|a: int, b: int| 0 <= a < b < u.len() implies u[a].0 != u[b].0 by {
        assert(u[a].0 == fs[a].0 && u[b].0 == fs[b].0);
    }
    lemma_frame_lookup_at(u, i);
    assert forall|tf: HashedBarSize| tf != fs[i].0 implies #[trigger] frame_lookup(u, tf)
        == frame_lookup(fs, tf) by {
        if exists|k: int| 0 <= k < u.len() && u[k].0 == tf {
            let k1 = choose|k: int| 0 <= k < u.len() && u[k].0 == tf;
            assert(fs[k1].0 == tf);
            let k2 = choose|k: int| 0 <= k < fs.len() && fs[k].0 == tf;
            if k1 < k2 {
                assert(fs[k1].0 != fs[k2].0);
            }
            if k2 < k1 {
                assert(fs[k2].0 != fs[k1].0);
            }
            assert(k1 == k2);
            assert(k1 != i);
        } else {
            if exists|k: int| 0 <= k < fs.len() && fs[k].0 == tf {
                let k = choose|k: int| 0 <= k < fs.len() && fs[k].0 == tf;
                assert(u[k].0 == tf);
            }
        }
    }
}

/// Appending a fresh key leaves every other lookup unchanged.
pub proof fn lemma_ticker_lookup_push(ts: Seq<(String, TickerPresence)>, p: (String, TickerPresence))
    requires
        forall|a: int, b: int| 0 <= a < b < ts.len() ==> ts[a].0@ != ts[b].0@,
        forall|k: int| 0 <= k < ts.len() ==> (#[trigger] ts[k]).0@ != p.0@,
    ensures
        forall|a: int, b: int| 0 <= a < b < ts.push(p).len() ==> ts.push(p)[a].0@
            != ts.push(p)[b].0@,
        ticker_lookup(ts.push(p), p.0@) == Some(p.1),
        forall|nm: Seq<char>| nm != p.0@ ==> #[trigger] ticker_lookup(ts.push(p), nm)
            == ticker_lookup(ts, nm),
{
    let u = ts.push(p);
    assert forall|a: int, b: int| 0 <= a < b < u.len() implies u[a].0@ != u[b].0@ by {
        if b < ts.len() {
            assert(u[a].0@ == ts[a].0@ && u[b].0@ == ts[b].0@);
        } else {
            assert(u[a].0@ == ts[a].0@ && u[b] == p);
        }
    }
    assert(u[u.len() - 1] == p);
    lemma_ticker_lookup_at(u, u.len() - 1);
    assert forall|nm: Seq<char>| nm != p.0@ implies #[trigger] ticker_lookup(u, nm)
        == ticker_lookup(ts, nm) by {
        if exists|k: int| 0 <= k < u.len() && u[k].0@ == nm {
            let k1 = choose|k: int| 0 <= k < u.len() && u[k].0@ == nm;
            assert(k1 < ts.len());
            assert(ts[k1].0@ == nm);
            let k2 = choose|k: int| 0 <= k < ts.len() && ts[k].0@ == nm;
            if k1 < k2 {
                assert(ts[k1].0@ != ts[k2].0@);
            }
            if k2 < k1 {
                assert(ts[k2].0@ != ts[k1].0@);
            }
        } else {
            if exists|k: int| 0 <= k < ts.len() && ts[k].0@ == nm {
                let k = choose|k: int| 0 <= k < ts.len() && ts[k].0@ == nm;
                assert(u[k].0@ == nm);
            }
        }
    }
}

pub proof fn lemma_frame_lookup_push(
    fs: Seq<(HashedBarSize, FramePresence)>,
    p: (HashedBarSize, FramePresence),
)
    requires
        forall|a: int, b: int| 0 <= a < b < fs.len() ==> fs[a].0 != fs[b].0,
        forall|k: int| 0 <= k < fs.len() ==> (#[trigger] fs[k]).0 != p.0,
    ensures
        forall|a: int, b: int| 0 <= a < b < fs.push(p).len() ==> fs.push(p)[a].0
            != fs.push(p)[b].0,
        frame_lookup(fs.push(p), p.0) == Some(p.1),
        forall|tf: HashedBarSize| tf != p.0 ==> #[trigger] frame_lookup(fs.push(p), tf)
            == frame_lookup(fs, tf),
{
    let u = fs.push(p);
    assert forall|a: int, b: int| 0 <= a < b < u.len() implies u[a].0 != u[b].0 by {
        if b < fs.len() {
            assert(u[a].0 == fs[a].0 && u[b].0 == fs[b].0);
        } else {
            assert(u[a].0 == fs[a].0 && u[b] == p);
        }
    }
    assert(u[u.len() - 1] == p);
    lemma_frame_lookup_at(u, u.len() - 1);
    assert forall|tf: HashedBarSize| tf != p.0 implies #[trigger] frame_lookup(u, tf)
        == frame_lookup(fs, tf) by {
        if exists|k: int| 0 <= k < u.len() && u[k].0 == tf {
            let k1 = choose|k: int| 0 <= k < u.len() && u[k].0 == tf;
            assert(k1 < fs.len());
            assert(fs[k1].0 == tf);
            let k2 = choose|k: int| 0 <= k < fs.len() && fs[k].0 == tf;
            if k1 < k2 {
                assert(fs[k1].0 != fs[k2].0);
            }
            if k2 < k1 {
                assert(fs[k2].0 != fs[k1].0);
            }
        } else {
            if exists|k: int| 0 <= k < fs.len() && fs[k].0 == tf {
                let k = choose|k: int| 0 <= k < fs.len() && fs[k].0 == tf;
                assert(u[k].0 == tf);
            }
        }
    }
}

impl DataBroker {
    /// Reports the result of scanning one ticker's directory: the listed
    /// file names. Each recognized file becomes a known-but-unread
    /// timeframe; an unrecognized file rejects the whole scan unchanged, as
    /// a corrupt artifact. The ticker becomes realized. A ticker that is
    /// already realized rejects the call unchanged: presence never
    /// regresses.
    #[verifier::loop_isolation(false)]
    #[verifier::rlimit(100)]
    pub fn apply_scan(&mut self, ticker: &String, files: &Vec<String>) -> (r: Result<
        (),
        DataError,
    >)
        requires
            old(self).wf(),
        ensures
            final(self).wf(),
            final(self).storage_directory == old(self).storage_directory,
            r matches Err(e) ==> *final(self) == *old(self) && ((e == DataError::Config && (old(
                self,
            ).ticker_state(ticker@) matches Some(p) && p is Realized)) || (e == DataError::Parse
                && !(old(self).ticker_state(ticker@) matches Some(p2) && p2 is Realized) && (
            exists|i: int|
                0 <= i < files@.len() && forall|tf: HashedBarSize| (#[trigger] tf.location_spec())
                    != (#[trigger] files@[i])@))),
            r matches Ok(u) ==> {
                &&& !(old(self).ticker_state(ticker@) matches Some(p0) && p0 is Realized)
                &&& final(self).ticker_state(ticker@) matches Some(p) && p is Realized
                &&& forall|tf: HashedBarSize| #[trigger] final(self).frame_state(ticker@, tf) == (
                if exists|i: int| 0 <= i < files@.len() && tf.location_spec() == (#[trigger]
                files@[i])@ {
                    Some(FramePresence::KnownUnrealized)
                } else {
                    None::<FramePresence>
                })
                &&& forall|nm: Seq<char>| nm != ticker@ ==> #[trigger] final(self).ticker_state(nm)
                    == old(self).ticker_state(nm)
            },
    {
        proof {
            crate::bars::lemma_location_injective();
        }
        // an already-realized ticker is never demoted
        let ti_opt = self.find_ticker(ticker);
        match ti_opt {
            Some(ti) => {
                proof {
                    lemma_ticker_lookup_at(self.tickers@, ti as int);
                }
                match &self.tickers[ti].1 {
                    TickerPresence::Realized(_) => {
                        return Err(DataError::Config);
                    },
                    TickerPresence::KnownUnrealized => {},
                }
            },
            None => {},
        }
        let mut frames: Vec<(HashedBarSize, FramePresence)> = Vec::new();
        let nf = files.len();
        let mut j: usize = 0;
        while j < nf
            invariant
                0 <= j <= nf,
                forall|a: int, b: int| 0 <= a < b < frames@.len() ==> frames@[a].0
                    != frames@[b].0,
                forall|k: int| 0 <= k < frames@.len() ==> (#[trigger] frames@[k]).1
                    is KnownUnrealized,
                forall|k: int| 0 <= k < frames@.len() ==> exists|i: int|
                    0 <= i < j && (#[trigger] frames@[k]).0.location_spec() == (#[trigger]
                    files@[i])@,
                forall|i: int| #![trigger files@[i]] 0 <= i < j ==> exists|k: int|
                    0 <= k < frames@.len() && (#[trigger] frames@[k]).0.location_spec()
                        == files@[i]@,
            decreases nf - j,
        {
            let tf = match HashedBarSize::from_filename(&files[j]) {
                Err(_) => {
                    return Err(DataError::Parse);
                },
                Ok(tf) => tf,
            };
            let mut dup = false;
            let mut k: usize = 0;
            while k < frames.len()
                invariant
                    0 <= k <= frames@.len(),
                    dup == exists|a: int| 0 <= a < k && (#[trigger] frames@[a]).0 == tf,
                decreases frames@.len() - k,
            {
                if frames[k].0 == tf {
                    dup = true;
                    proof {
                        assert(frames@[k as int].0 == tf);
                    }
                }
                k = k + 1;
            }
            let ghost pre = frames@;
            if !dup {
                frames.push((tf, FramePresence::KnownUnrealized));
            }
            proof {
                assert forall|i: int| #![trigger files@[i]] 0 <= i < j + 1 implies exists|k2: int|
                    0 <= k2 < frames@.len() && (#[trigger] frames@[k2]).0.location_spec()
                        == files@[i]@ by {
                    if i == j {
                        if dup {
                            let a = choose|a: int|
                                0 <= a < pre.len() && (#[trigger] pre[a]).0 == tf;
                            assert(frames@[a].0.location_spec() == files@[j as int]@);
                        } else {
                            assert(frames@[frames@.len() - 1].0.location_spec() == files@[
                                j as int]@);
                        }
                    } else {
                        let k2 = choose|k2: int|
                            0 <= k2 < pre.len() && (#[trigger] pre[k2]).0.location_spec()
                                == files@[i]@;
                        assert(frames@[k2].0.location_spec() == files@[i]@);
                    }
                }
            }
            j = j + 1;
        }
        // install the scanned presence map
        let ghost fseq = frames@;
        let pres = TickerPresence::Realized(frames);
        let ghost pre_t = self.tickers@;
        match ti_opt {
            Some(ti) => {
                let pr = self.tickers.remove(ti);
                self.tickers.insert(ti, (pr.0, pres));
                proof {
                    assert(self.tickers@ =~= pre_t.update(ti as int, (pr.0, pres)));
                    lemma_ticker_lookup_update(pre_t, ti as int, (pr.0, pres));
                }
            },
            None => {
                let newp = (ticker.clone(), pres);
                let ghost gp = newp;
                self.tickers.push(newp);
                proof {
                    lemma_ticker_lookup_push(pre_t, gp);
                }
            },
        }
        proof {
            assert(self.ticker_state(ticker@) == Some(pres));
            assert forall|tf: HashedBarSize| #[trigger] self.frame_state(ticker@, tf) == (
            if exists|i: int| 0 <= i < files@.len() && tf.location_spec() == (#[trigger]
            files@[i])@ {
                Some(FramePresence::KnownUnrealized)
            } else {
                None::<FramePresence>
            }) by {
                if exists|i: int|
                    0 <= i < files@.len() && tf.location_spec() == (#[trigger] files@[i])@ {
                    let i = choose|i: int|
                        0 <= i < files@.len() && tf.location_spec() == (#[trigger] files@[i])@;
                    let k = choose|k: int|
                        0 <= k < fseq.len() && (#[trigger] fseq[k]).0.location_spec()
                            == files@[i]@;
                    assert(fseq[k].0.location_spec() == tf.location_spec());
                    assert(fseq[k].0 == tf);
                    lemma_frame_lookup_at(fseq, k);
                    assert(fseq[k].1 is KnownUnrealized);
                    assert(frame_lookup(fseq, tf) == Some(fseq[k].1));
                } else {
                    if exists|k: int| 0 <= k < fseq.len() && fseq[k].0 == tf {
                        let k = choose|k: int| 0 <= k < fseq.len() && fseq[k].0 == tf;
                        let i = choose|i: int|
                            0 <= i < files@.len() && (#[trigger] fseq[k]).0.location_spec()
                                == files@[i]@;
                        assert(tf.location_spec() == files@[i]@);
                        assert(false);
                    }
                }
            }
        }
        Ok(())
    }

    /// Reports the bytes read for one known-but-unread timeframe: on a
    /// well-formed canonical document the store is realized from it; a
    /// malformed document is rejected unchanged, never replaced by an empty
    /// store. A slot in any other state rejects the call unchanged.
    #[verifier::rlimit(100)]
    pub fn apply_load(&mut self, ticker: &String, timeframe: HashedBarSize, bytes: &Vec<u8>)
        -> (r: Result<(), DataError>)
        requires
            old(self).wf(),
        ensures
            final(self).wf(),
            final(self).storage_directory == old(self).storage_directory,
            r matches Err(e) ==> *final(self) == *old(self) && ((e == DataError::Config && !(old(self).frame_state(ticker@, timeframe) matches Some(p) && p is KnownUnrealized)) || (e
                == DataError::Parse && (spec_parse_doc(bytes@) is None || !store_wf::<
                i64,
                IBApiBar,
            >(spec_parse_doc(bytes@).unwrap())))),
            r matches Ok(u) ==> {
                &&& old(self).frame_state(ticker@, timeframe) matches Some(p) && p
                    is KnownUnrealized
                &&& spec_parse_doc(bytes@) matches Some(v) && store_wf::<i64, IBApiBar>(v)
                &&& final(self).realized_store(ticker@, timeframe) == spec_parse_doc(bytes@)
                &&& forall|tf2: HashedBarSize| tf2 != timeframe ==> #[trigger] final(self).frame_state(ticker@, tf2) == old(self).frame_state(ticker@, tf2)
                &&& forall|nm: Seq<char>| nm != ticker@ ==> #[trigger] final(self).ticker_state(nm)
                    == old(self).ticker_state(nm)
            },
    {
        let ti = match self.find_ticker(ticker) {
            None => {
                return Err(DataError::Config);
            },
            Some(i) => i,
        };
        proof {
            lemma_ticker_lookup_at(self.tickers@, ti as int);
        }
        let fi: usize;
        match &self.tickers[ti].1 {
            TickerPresence::KnownUnrealized => {
                return Err(DataError::Config);
            },
            TickerPresence::Realized(fs) => {
                let nf = fs.len();
                let mut k: usize = 0;
                while k < nf && !(fs[k].0 == timeframe)
                    invariant
                        0 <= k <= nf,
                        nf == fs@.len(),
                        forall|a: int| 0 <= a < k ==> (#[trigger] fs@[a]).0 != timeframe,
                    decreases nf - k,
                {
                    k = k + 1;
                }
                if k == nf {
                    proof {
                        assert(frame_lookup(fs@, timeframe) is None);
                    }
                    return Err(DataError::Config);
                }
                proof {
                    lemma_frame_lookup_at(fs@, k as int);
                }
                match &fs[k].1 {
                    FramePresence::Realized(_) => {
                        return Err(DataError::Config);
                    },
                    FramePresence::KnownUnrealized => {
                        fi = k;
                    },
                }
            },
        }
        let loc = self.storage_directory.clone().concat("/").concat(ticker.as_str());
        let name = timeframe.to_location();
        let st = match RangeDataStore::<i64, IBApiBar>::load(bytes, loc, name) {
            Err(_) => {
                return Err(DataError::Parse);
            },
            Ok(st) => st,
        };
        let ghost pre_t = self.tickers@;
        let pr = self.tickers.remove(ti);
        match pr.1 {
            TickerPresence::KnownUnrealized => {
                proof {
                    assert(false);
                }
                Err(DataError::Config)
            },
            TickerPresence::Realized(mut fs) => {
                let ghost pre_f = fs@;
                let fe = fs.remove(fi);
                let newf = (fe.0, FramePresence::Realized(st));
                fs.insert(fi, newf);
                proof {
                    assert(fs@ =~= pre_f.update(fi as int, newf));
                    lemma_frame_lookup_update(pre_f, fi as int, newf);
                }
                let newp = (pr.0, TickerPresence::Realized(fs));
                self.tickers.insert(ti, newp);
                proof {
                    assert(self.tickers@ =~= pre_t.update(ti as int, newp));
                    lemma_ticker_lookup_update(pre_t, ti as int, newp);
                }
                Ok(())
            },
        }
    }

    /// Reports the bars fetched from the remote source for one window. The
    /// timeframe must be absent or already realized; its store (an empty
    /// one, if absent) absorbs the non-empty bar set, and the returned
    /// bytes are the canonical document of the updated store, for the
    /// caller to persist. An empty bar set leaves the store as it was.
    #[verifier::rlimit(100)]
    pub fn apply_fetch(
        &mut self,
        ticker: &String,
        timeframe: HashedBarSize,
        bars: Vec<IBApiBar>,
    ) -> (r: Result<Vec<u8>, DataError>)
        requires
            old(self).wf(),
        ensures
            final(self).wf(),
            final(self).storage_directory == old(self).storage_directory,
            r matches Err(e) ==> *final(self) == *old(self) && e == DataError::Config && !(old(self).ticker_state(ticker@) matches Some(p) && p is Realized && !(old(self).frame_state(
                ticker@,
                timeframe,
            ) matches Some(q) && q is KnownUnrealized)),
            r matches Ok(doc) ==> ({
                let prior = match old(self).realized_store(ticker@, timeframe) {
                    Some(v) => v,
                    None => Seq::<EntryModel<i64, IBApiBar>>::empty(),
                };
                let updated = if bars@.len() == 0 {
                    prior
                } else {
                    add_result::<i64, IBApiBar>(prior, bars@)
                };
                &&& old(self).ticker_state(ticker@) matches Some(p) && p is Realized
                &&& final(self).realized_store(ticker@, timeframe) == Some(updated)
                &&& doc@ == enc_store_doc(updated)
                &&& forall|tf2: HashedBarSize| tf2 != timeframe ==> #[trigger] final(self).frame_state(ticker@, tf2) == old(self).frame_state(ticker@, tf2)
                &&& forall|nm: Seq<char>| nm != ticker@ ==> #[trigger] final(self).ticker_state(nm)
                    == old(self).ticker_state(nm)
            }),
    {
        let ti = match self.find_ticker(ticker) {
            None => {
                return Err(DataError::Config);
            },
            Some(i) => i,
        };
        proof {
            lemma_ticker_lookup_at(self.tickers@, ti as int);
        }
        // 0: absent, 1: known-unrealized, 2: realized
        let mut slot_kind: u8 = 0;
        let mut fi: usize = 0;
        match &self.tickers[ti].1 {
            TickerPresence::KnownUnrealized => {
                return Err(DataError::Config);
            },
            TickerPresence::Realized(fs) => {
                let nf = fs.len();
                let mut k: usize = 0;
                while k < nf && !(fs[k].0 == timeframe)
                    invariant
                        0 <= k <= nf,
                        nf == fs@.len(),
                        forall|a: int| 0 <= a < k ==> (#[trigger] fs@[a]).0 != timeframe,
                    decreases nf - k,
                {
                    k = k + 1;
                }
                if k == nf {
                    proof {
                        assert(frame_lookup(fs@, timeframe) is None);
                    }
                    slot_kind = 0;
                } else {
                    proof {
                        lemma_frame_lookup_at(fs@, k as int);
                    }
                    match &fs[k].1 {
                        FramePresence::KnownUnrealized => {
                            return Err(DataError::Config);
                        },
                        FramePresence::Realized(_) => {
                            slot_kind = 2;
                            fi = k;
                        },
                    }
                }
            },
        }
        let ghost pre_t = self.tickers@;
        let pr = self.tickers.remove(ti);
        match pr.1 {
            TickerPresence::KnownUnrealized => {
                proof {
                    assert(false);
                }
                Err(DataError::Config)
            },
            TickerPresence::Realized(mut fs) => {
                let ghost pre_f = fs@;
                if slot_kind == 2 {
                    let fe = fs.remove(fi);
                    match fe.1 {
                        FramePresence::KnownUnrealized => {
                            proof {
                                assert(false);
                            }
                            Err(DataError::Config)
                        },
                        FramePresence::Realized(mut st) => {
                            if bars.len() > 0 {
                                let res = st.add_range(bars);
                                proof {
                                    assert(res is Ok);
                                }
                            }
                            let doc = st.save();
                            let newf = (fe.0, FramePresence::Realized(st));
                            fs.insert(fi, newf);
                            proof {
                                assert(fs@ =~= pre_f.update(fi as int, newf));
                                lemma_frame_lookup_update(pre_f, fi as int, newf);
                            }
                            let newp = (pr.0, TickerPresence::Realized(fs));
                            self.tickers.insert(ti, newp);
                            proof {
                                assert(self.tickers@ =~= pre_t.update(ti as int, newp));
                                lemma_ticker_lookup_update(pre_t, ti as int, newp);
                            }
                            Ok(doc)
                        },
                    }
                } else {
                    let loc = self.storage_directory.clone().concat("/").concat(ticker.as_str());
                    let name = timeframe.to_location();
                    let mut st = RangeDataStore::<i64, IBApiBar>::new(loc, name);
                    proof {
                        assert(st@ =~= Seq::<EntryModel<i64, IBApiBar>>::empty());
                    }
                    if bars.len() > 0 {
                        let res = st.add_range(bars);
                        proof {
                            assert(res is Ok);
                        }
                    }
                    let doc = st.save();
                    let newf = (timeframe, FramePresence::Realized(st));
                    fs.push(newf);
                    proof {
                        lemma_frame_lookup_push(pre_f, newf);
                    }
                    let newp = (pr.0, TickerPresence::Realized(fs));
                    self.tickers.insert(ti, newp);
                    proof {
                        assert(self.tickers@ =~= pre_t.update(ti as int, newp));
                        lemma_ticker_lookup_update(pre_t, ti as int, newp);
                    }
                    Ok(doc)
                }
            },
        }
    }

    /// The cached points of the request's window, ascending by key: what a
    /// retrieval returns once the store is realized. Empty when nothing is
    /// realized for the pair.
    pub fn window_points(&self, ticker: &String, timeframe: HashedBarSize, start: i64, end: i64)
        -> (r: Vec<IBApiBar>)
        requires
            self.wf(),
            start <= end,
        ensures
            match self.realized_store(ticker@, timeframe) {
                Some(v) => r@ == sel_all::<i64, IBApiBar>(v, start, end),
                None => r@ == Seq::<IBApiBar>::empty(),
            },
    {
        let ti = match self.find_ticker(ticker) {
            None => {
                let v: Vec<IBApiBar> = Vec::new();
                proof {
                    assert(v@ =~= Seq::<IBApiBar>::empty());
                }
                return v;
            },
            Some(i) => i,
        };
        proof {
            lemma_ticker_lookup_at(self.tickers@, ti as int);
        }
        match &self.tickers[ti].1 {
            TickerPresence::KnownUnrealized => {
                let v: Vec<IBApiBar> = Vec::new();
                proof {
                    assert(v@ =~= Seq::<IBApiBar>::empty());
                }
                v
            },
            TickerPresence::Realized(fs) => {
                let nf = fs.len();
                let mut k: usize = 0;
                while k < nf && !(fs[k].0 == timeframe)
                    invariant
                        0 <= k <= nf,
                        nf == fs@.len(),
                        forall|a: int| 0 <= a < k ==> (#[trigger] fs@[a]).0 != timeframe,
                    decreases nf - k,
                {
                    k = k + 1;
                }
                if k == nf {
                    proof {
                        assert(frame_lookup(fs@, timeframe) is None);
                    }
                    let v: Vec<IBApiBar> = Vec::new();
                    proof {
                        assert(v@ =~= Seq::<IBApiBar>::empty());
                    }
                    return v;
                }
                proof {
                    lemma_frame_lookup_at(fs@, k as int);
                }
                match &fs[k].1 {
                    FramePresence::KnownUnrealized => {
                        let v: Vec<IBApiBar> = Vec::new();
                        proof {
                            assert(v@ =~= Seq::<IBApiBar>::empty());
                        }
                        v
                    },
                    FramePresence::Realized(st) => {
                        match st.get_range(&start, &end) {
                            RangeDataGetResult::Found(pts) => pts,
                            RangeDataGetResult::Partial(pts) => pts,
                            RangeDataGetResult::SpansMultiple(pts) => pts,
                            RangeDataGetResult::NotFound => {
                                proof {
                                    crate::store_model::lemma_count_zero_sel_empty::<
                                        i64,
                                        IBApiBar,
                                    >(st@, start, end);
                                }
                                let v: Vec<IBApiBar> = Vec::new();
                                proof {
                                    assert(v@ =~= Seq::<IBApiBar>::empty());
                                    assert(v@ =~= sel_all::<i64, IBApiBar>(st@, start, end));
                                }
                                v
                            },
                        }
                    },
                }
            },
        }
    }

    /// Whether the cached data fully contains the window, without touching
    /// disk or the remote source.
    pub fn has_range(
        &mut self,
        ticker: String,
        timeframe: HashedBarSize,
        start_date: i64,
        end_date: i64,
    ) -> (r: Result<bool, DataError>)
        requires
            old(self).wf(),
            start_date <= end_date,
        ensures
            *final(self) == *old(self),
            r == Ok::<bool, DataError>(
                match old(self).realized_store(ticker@, timeframe) {
                    Some(v) => is_found(v, start_date, end_date),
                    None => false,
                },
            ),
    {
        match self.retrieve_step(&ticker, timeframe, start_date, end_date) {
            BrokerStep::Ready(_) => Ok(true),
            BrokerStep::ScanTicker => Ok(false),
            BrokerStep::LoadStore => Ok(false),
            BrokerStep::Fetch => Ok(false),
        }
    }

    /// A placeholder kept for interface compatibility: it accepts a bar and
    /// changes nothing.
    pub fn insert(
        &mut self,
        timeframe: HashedBarSize,
        start_date: i64,
        end_date: i64,
        value: IBApiBar,
    ) -> (r: Result<(), DataError>)
        ensures
            *final(self) == *old(self),
            r == Ok::<(), DataError>(()),
    {
        Ok(())
    }
}

// ---------------------------------------------------------------------------
// Laws of the broker
// ---------------------------------------------------------------------------

/// On a fresh root the first request scans its ticker, and once the scan has
/// found nothing on disk the one remaining action is a single remote fetch;
/// what `apply_fetch` then hands back for persistence is exactly the
/// document of the store built from the fetched bars.
pub proof fn lemma_empty_root_single_fetch(
    b0: DataBroker,
    b1: DataBroker,
    name: Seq<char>,
    tf: HashedBarSize,
    s: i64,
    t: i64,
)
    requires
        b0.tickers@.len() == 0,
        b1.ticker_state(name) matches Some(p) && p matches TickerPresence::Realized(fs)
            && fs@.len() == 0,
    ensures
        b0.step_kind_of(name, tf, s, t) == StepKind::Scan,
        b1.step_kind_of(name, tf, s, t) == StepKind::Fetch,
{
    assert(!(exists|i: int| 0 <= i < b0.tickers@.len() && b0.tickers@[i].0@ == name));
}

/// When the remote source honors its contract — a non-empty, strictly
/// ordered bar sequence whose timestamps lie within the requested window —
/// a fetch into a fresh timeframe leaves a store whose answer for that
/// window is exactly the fetched sequence: what `apply_fetch` realizes,
/// `window_points` hands back unchanged.
pub proof fn lemma_fresh_fetch_returns_bars(bars: Seq<IBApiBar>, s: i64, t: i64)
    requires
        crate::store_model::pts_sorted::<i64, IBApiBar>(bars),
        bars.len() > 0,
        forall|i: int| 0 <= i < bars.len() ==> s <= (#[trigger] bars[i]).date <= t,
    ensures
        sel_all::<i64, IBApiBar>(
            add_result::<i64, IBApiBar>(Seq::empty(), bars),
            s,
            t,
        ) == bars,
{
    crate::range_store::lemma_add_to_empty::<i64, IBApiBar>(Seq::empty(), bars);
    crate::store_model::lemma_normalize_sorted_id::<i64, IBApiBar>(bars);
    let r = add_result::<i64, IBApiBar>(Seq::empty(), bars);
    assert(r.len() == 1);
    assert(r[0].data == bars);
    assert forall|i: int| 0 <= i < bars.len() implies crate::store_model::within::<i64>(
        (#[trigger] bars[i]).key_spec(),
        s,
        t,
    ) by {}
    crate::store_model::lemma_sel_pts_all_within::<i64, IBApiBar>(bars, s, t);
    assert(r.drop_last() =~= Seq::<EntryModel<i64, IBApiBar>>::empty());
    assert(r.last() == r[0]);
    assert(sel_all::<i64, IBApiBar>(r, s, t) == sel_all::<i64, IBApiBar>(r.drop_last(), s, t)
        + crate::store_model::sel_pts::<i64, IBApiBar>(bars, s, t));
    assert(sel_all::<i64, IBApiBar>(r.drop_last(), s, t) + crate::store_model::sel_pts::<
        i64,
        IBApiBar,
    >(bars, s, t) =~= bars);
}

/// A request that an earlier retrieval already satisfied (one stored range
/// fully contains its window) is answered from memory: no further fetch is
/// issued.
pub proof fn lemma_repeat_request_no_fetch(
    b: DataBroker,
    name: Seq<char>,
    tf: HashedBarSize,
    s: i64,
    t: i64,
)
    requires
        b.realized_store(name, tf) matches Some(v) && is_found(v, s, t),
    ensures
        b.step_kind_of(name, tf, s, t) == StepKind::Ready,
{
}

} // verus!
