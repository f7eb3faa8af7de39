use vstd::prelude::*;

verus! {

/// A census score as the library needs it: a key whose unsigned order is the
/// numeric order of the score, and the decimal text under which it is shown.
pub struct Score {
    pub key: u64,
    pub text: String,
}

/// One nation's entry in a census ranking.
pub struct RankingRecord {
    pub nation: String,
    pub rank: usize,
    pub score: Score,
}

impl RankingRecord {
    pub fn new(nation: String, rank: usize, key: u64, text: String) -> (r: RankingRecord)
        ensures
            r.nation@ == nation@,
            r.rank == rank,
            r.score.key == key,
            r.score.text@ == text@,
    {
        RankingRecord { nation, rank, score: Score { key, text } }
    }
}

/// Every rank of the sequence is positive.
pub open spec fn ranks_positive(s: Seq<RankingRecord>) -> bool {
    forall|i: int| 0 <= i < s.len() ==> s[i].rank >= 1
}

/// Whether a fetched page is well formed: ranks are 1-based.
pub fn page_is_well_formed(page: &Vec<RankingRecord>) -> (r: bool)
    ensures
        r == ranks_positive(page@),
{
    let mut i: usize = 0;
    while i < page.len()
        invariant
            i <= page@.len(),
            forall|j: int| 0 <= j < i ==> page@[j].rank >= 1,
        decreases page@.len() - i,
    {
        if page[i].rank == 0 {
            return false;
        }
        i = i + 1;
    }
    true
}

} // verus!
