use crate::record::RankingRecord;
use vstd::prelude::*;

verus! {

/// The highest rank among the records, or 0 when there are none.
pub open spec fn max_rank(s: Seq<RankingRecord>) -> nat
    decreases s.len(),
{
    if s.len() == 0 {
        0
    } else {
        let m = max_rank(s.drop_last());
        if s.last().rank > m {
            s.last().rank as nat
        } else {
            m
        }
    }
}

/// Whether a page that moved the highest rank from `old_high` to `new_high`
/// lets collection go on: it must have raised the highest rank, and the next
/// start rank must still be addressable.
pub open spec fn continues(old_high: nat, new_high: nat) -> bool {
    old_high < new_high && new_high < usize::MAX
}

/// Where a collection stands.
#[derive(PartialEq, Eq, Structural, Clone, Copy, Debug)]
pub enum Phase {
    Fetching,
    StoppedNoProgress,
    StoppedByFailure,
}

/// What the driver of a collection does next.
#[derive(PartialEq, Eq, Structural, Clone, Copy, Debug)]
pub enum Step {
    /// Wait out the rate limit, then fetch the page that begins at `start`.
    FetchAfterPause { start: usize },
    /// The collection is over.
    Stop,
}

/// What a collector holds: the records in fetch order, the highest rank seen
/// and the phase.
pub struct CollectorView {
    pub records: Seq<RankingRecord>,
    pub highest: nat,
    pub phase: Phase,
}

/// The accumulator of one collection run: records in fetch order, the highest
/// rank seen so far and the phase.
pub struct Collector {
    records: Vec<RankingRecord>,
    highest: usize,
    phase: Phase,
}

impl View for Collector {
    type V = CollectorView;

    closed spec fn view(&self) -> CollectorView {
        CollectorView { records: self.records@, highest: self.highest as nat, phase: self.phase }
    }
}

pub proof fn lemma_max_rank_concat(a: Seq<RankingRecord>, b: Seq<RankingRecord>)
    ensures
        max_rank(a + b) == if max_rank(a) >= max_rank(b) {
            max_rank(a)
        } else {
            max_rank(b)
        },
    decreases b.len(),
{
    if b.len() == 0 {
        assert(a + b =~= a);
    } else {
        assert((a + b).drop_last() =~= a + b.drop_last());
        lemma_max_rank_concat(a, b.drop_last());
    }
}

impl Collector {
    pub closed spec fn wf(&self) -> bool {
        &&& self.highest as nat == max_rank(self.records@)
        &&& (self.phase == Phase::Fetching ==> self.highest < usize::MAX)
    }

    /// A collection that has fetched nothing yet.
    pub fn new() -> (r: Collector)
        ensures
            r.wf(),
            r@.records.len() == 0,
            r@.highest == 0,
            r@.phase == Phase::Fetching,
    {
        Collector { records: Vec::new(), highest: 0, phase: Phase::Fetching }
    }

    /// The rank that the next page request starts at.
    pub fn next_start(&self) -> (r: usize)
        requires
            self.wf(),
            self@.phase == Phase::Fetching,
        ensures
            r == self@.highest + 1,
    {
        self.highest + 1
    }

    pub fn phase(&self) -> (r: Phase)
        ensures
            r == self@.phase,
    {
        self.phase
    }

    pub fn highest_rank_seen(&self) -> (r: usize)
        ensures
            r == self@.highest,
    {
        self.highest
    }

    pub fn records(&self) -> (r: &Vec<RankingRecord>)
        ensures
            r@ == self@.records,
    {
        &self.records
    }

    /// Hands the accumulated records over, in fetch order.
    pub fn into_records(self) -> (r: Vec<RankingRecord>)
        ensures
            r@ == self@.records,
    {
        self.records
    }

    /// Merges a fetched page: its records are appended, the highest rank is
    /// raised to the page's maximum if that is higher, and the collection goes
    /// on only if the highest rank rose (and a next page can be addressed).
    pub fn merge_page(&mut self, page: Vec<RankingRecord>) -> (step: Step)
        requires
            old(self).wf(),
            old(self)@.phase == Phase::Fetching,
        ensures
            final(self).wf(),
            final(self)@.records == old(self)@.records + page@,
            final(self)@.highest == max_rank(old(self)@.records + page@),
            final(self)@.highest == if max_rank(page@) > old(self)@.highest {
                max_rank(page@)
            } else {
                old(self)@.highest
            },
            continues(old(self)@.highest, final(self)@.highest) ==> final(self)@.phase
                == Phase::Fetching && step == (Step::FetchAfterPause {
                start: (final(self)@.highest + 1) as usize,
            }),
            !continues(old(self)@.highest, final(self)@.highest) ==> final(self)@.phase
                == Phase::StoppedNoProgress && step == Step::Stop,
            max_rank(page@) <= old(self)@.highest ==> step == Step::Stop,
    {
        let ghost old_records = self.records@;
        let ghost page_seq = page@;
        let mut page_high: usize = 0;
        let mut i: usize = 0;
        while i < page.len()
            invariant
                i <= page@.len(),
                page_high as nat == max_rank(page@.subrange(0, i as int)),
            decreases page@.len() - i,
        {
            assert(page@.subrange(0, i + 1).drop_last() =~= page@.subrange(0, i as int));
            if page[i].rank > page_high {
                page_high = page[i].rank;
            }
            i = i + 1;
        }
        assert(page@.subrange(0, i as int) =~= page@);
        let mut page = page;
        self.records.append(&mut page);
        proof {
            lemma_max_rank_concat(old_records, page_seq);
        }
        let old_high = self.highest;
        if page_high > self.highest {
            self.highest = page_high;
        }
        if old_high < self.highest && self.highest < usize::MAX {
            Step::FetchAfterPause { start: self.highest + 1 }
        } else {
            self.phase = Phase::StoppedNoProgress;
            Step::Stop
        }
    }

    /// Records that a fetch failed: the records are kept and the collection
    /// is over.
    pub fn fetch_failed(&mut self)
        requires
            old(self).wf(),
        ensures
            final(self).wf(),
            final(self)@.records == old(self)@.records,
            final(self)@.highest == old(self)@.highest,
            final(self)@.phase == Phase::StoppedByFailure,
    {
        self.phase = Phase::StoppedByFailure;
    }

    /// Takes the outcome of the fetch at `next_start`: a page is merged, a
    /// failure (`None`) ends the collection with what was gathered so far.
    pub fn handle(&mut self, outcome: Option<Vec<RankingRecord>>) -> (step: Step)
        requires
            old(self).wf(),
            old(self)@.phase == Phase::Fetching,
        ensures
            final(self).wf(),
            match outcome {
                None => {
                    &&& final(self)@.records == old(self)@.records
                    &&& final(self)@.highest == old(self)@.highest
                    &&& final(self)@.phase == Phase::StoppedByFailure
                    &&& step == Step::Stop
                },
                Some(page) => {
                    &&& final(self)@.records == old(self)@.records + page@
                    &&& final(self)@.highest == max_rank(old(self)@.records + page@)
                    &&& continues(old(self)@.highest, final(self)@.highest) ==> final(self)@.phase
                        == Phase::Fetching && step == (Step::FetchAfterPause {
                        start: (final(self)@.highest + 1) as usize,
                    })
                    &&& !continues(old(self)@.highest, final(self)@.highest) ==> final(self)@.phase
                        == Phase::StoppedNoProgress && step == Step::Stop
                },
            },
    {
        match outcome {
            None => {
                self.fetch_failed();
                Step::Stop
            },
            Some(page) => self.merge_page(page),
        }
    }
}

/// The records that a whole collection run gathers from `fetch`, a map from a
/// start rank to the page served there (`None` for a failed fetch), starting
/// from `records` with highest rank `highest`; `None` if more than `fuel`
/// pages would be needed.
pub open spec fn run(
    fetch: spec_fn(nat) -> Option<Seq<RankingRecord>>,
    records: Seq<RankingRecord>,
    highest: nat,
    fuel: nat,
) -> Option<Seq<RankingRecord>>
    decreases fuel,
{
    if fuel == 0 {
        None
    } else {
        match fetch(highest + 1) {
            None => Some(records),
            Some(page) => {
                let all = records + page;
                let high = max_rank(all);
                if continues(highest, high) {
                    run(fetch, all, high, (fuel - 1) as nat)
                } else {
                    Some(all)
                }
            },
        }
    }
}

/// A data set whose record at index `i` has rank `i + 1`.
pub open spec fn densely_ranked(data: Seq<RankingRecord>) -> bool {
    forall|i: int| 0 <= i < data.len() ==> #[trigger] data[i].rank == i + 1
}

/// A source that serves `data` in pages of `size` records: the page at
/// `start` holds the records of ranks `start` up to `start + size - 1`, cut
/// at the end of the data, and is empty past it.
pub open spec fn paged_source(data: Seq<RankingRecord>, size: nat, start: nat) -> Option<
    Seq<RankingRecord>,
> {
    if 1 <= start <= data.len() + 1 {
        let lo = start - 1;
        let hi = if lo + size <= data.len() {
            lo + size
        } else {
            data.len() as int
        };
        Some(data.subrange(lo, hi))
    } else {
        Some(Seq::empty())
    }
}

proof fn lemma_max_rank_prefix(data: Seq<RankingRecord>, k: int)
    requires
        densely_ranked(data),
        0 <= k <= data.len(),
    ensures
        max_rank(data.subrange(0, k)) == k,
    decreases k,
{
    if k > 0 {
        assert(data.subrange(0, k).drop_last() =~= data.subrange(0, k - 1));
        lemma_max_rank_prefix(data, k - 1);
        assert(data.subrange(0, k).last() == data[k - 1]);
    }
}

proof fn lemma_paged_run_from(data: Seq<RankingRecord>, size: nat, high: nat, fuel: nat)
    requires
        densely_ranked(data),
        data.len() < usize::MAX,
        size >= 1,
        high <= data.len(),
        fuel >= data.len() - high + 1,
    ensures
        run(|start: nat| paged_source(data, size, start), data.subrange(0, high as int), high, fuel)
            == Some(data),
    decreases fuel,
{
    let fetch = |start: nat| paged_source(data, size, start);
    let n = data.len() as int;
    let lo = high as int;
    let hi = if lo + size <= n {
        lo + size
    } else {
        n
    };
    let all = data.subrange(0, lo) + data.subrange(lo, hi);
    assert(all =~= data.subrange(0, hi));
    lemma_max_rank_prefix(data, hi);
    if high < n {
        lemma_paged_run_from(data, size, hi as nat, (fuel - 1) as nat);
    } else {
        assert(data.subrange(0, hi) =~= data);
    }
}

/// Serving a densely ranked data set in pages of any positive size, a
/// collection gathers exactly the whole data set, in rank order, within one
/// page more than there are records.
pub proof fn lemma_paged_collection_is_complete(data: Seq<RankingRecord>, size: nat)
    requires
        densely_ranked(data),
        data.len() < usize::MAX,
        size >= 1,
    ensures
        run(|start: nat| paged_source(data, size, start), Seq::empty(), 0, data.len() + 1) == Some(
            data,
        ),
{
    assert(data.subrange(0, 0) =~= Seq::<RankingRecord>::empty());
    lemma_paged_run_from(data, size, 0, data.len() + 1);
}

/// A page that brings no rank above the highest one seen ends the collection
/// right after it is merged.
pub proof fn lemma_no_progress_page_stops(
    fetch: spec_fn(nat) -> Option<Seq<RankingRecord>>,
    records: Seq<RankingRecord>,
    page: Seq<RankingRecord>,
    fuel: nat,
)
    requires
        fetch(max_rank(records) + 1) == Some(page),
        max_rank(page) <= max_rank(records),
        fuel >= 1,
    ensures
        run(fetch, records, max_rank(records), fuel) == Some(records + page),
{
    lemma_max_rank_concat(records, page);
}

/// When the very first fetch fails, a collection gathers nothing.
pub proof fn lemma_first_failure_collects_nothing(
    fetch: spec_fn(nat) -> Option<Seq<RankingRecord>>,
    fuel: nat,
)
    requires
        fetch(1) is None,
        fuel >= 1,
    ensures
        run(fetch, Seq::empty(), 0, fuel) == Some(Seq::<RankingRecord>::empty()),
{
}

} // verus!
