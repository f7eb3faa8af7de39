use crate::finalizer::{finalize, lemma_finalize_idempotent, sort_by_score};
use crate::record::RankingRecord;
use vstd::prelude::*;

verus! {

pub open spec fn digit_chars() -> Seq<char> {
    seq!['0', '1', '2', '3', '4', '5', '6', '7', '8', '9']
}

/// The decimal digits of `n`, without leading zeros.
pub open spec fn decimal(n: nat) -> Seq<char>
    decreases n,
{
    if n < 10 {
        seq![digit_chars()[n as int]]
    } else {
        decimal(n / 10) + seq![digit_chars()[(n % 10) as int]]
    }
}

/// The two header lines: region and census, then the column names.
pub open spec fn header_text(region: Seq<char>, census_id: nat) -> Seq<char> {
    "Region: "@ + region + ", CensusID: "@ + decimal(census_id) + "\n"@ + "Rank,Name,Value\n"@
}

/// One data line: `rank,name,score`.
pub open spec fn row_text(r: RankingRecord) -> Seq<char> {
    decimal(r.rank as nat) + ","@ + r.nation@ + ","@ + r.score.text@ + "\n"@
}

pub open spec fn rows_text(s: Seq<RankingRecord>) -> Seq<char>
    decreases s.len(),
{
    if s.len() == 0 {
        Seq::empty()
    } else {
        rows_text(s.drop_last()) + row_text(s.last())
    }
}

/// The whole report: the header lines, then one line per record in the given
/// order.
pub open spec fn report_text(region: Seq<char>, census_id: nat, rows: Seq<RankingRecord>) -> Seq<
    char,
> {
    header_text(region, census_id) + rows_text(rows)
}

/// The decimal text of `n`.
pub fn decimal_text(n: usize) -> (r: String)
    ensures
        r@ == decimal(n as nat),
    decreases n,
{
    proof {
        reveal_strlit("0123456789");
    }
    assert("0123456789"@ =~= digit_chars());
    let d: usize = n % 10;
    let digit = "0123456789".substring_char(d, d + 1);
    assert(digit@ =~= seq![digit_chars()[d as int]]);
    if n < 10 {
        String::from_str(digit)
    } else {
        let mut s = decimal_text(n / 10);
        s.append(digit);
        s
    }
}

/// Renders the report of records that are already in the order wanted.
pub fn render_report(region: &str, census_id: u8, rows: &Vec<RankingRecord>) -> (r: String)
    ensures
        r@ == report_text(region@, census_id as nat, rows@),
{
    let mut out = String::from_str("Region: ");
    out.append(region);
    out.append(", CensusID: ");
    let id = decimal_text(census_id as usize);
    out.append(id.as_str());
    out.append("\n");
    out.append("Rank,Name,Value\n");
    assert(out@ =~= header_text(region@, census_id as nat));
    let mut i: usize = 0;
    while i < rows.len()
        invariant
            i <= rows@.len(),
            out@ == header_text(region@, census_id as nat) + rows_text(rows@.subrange(0, i as int)),
        decreases rows@.len() - i,
    {
        let r = &rows[i];
        let rank = decimal_text(r.rank);
        let ghost before = out@;
        out.append(rank.as_str());
        out.append(",");
        out.append(r.nation.as_str());
        out.append(",");
        out.append(r.score.text.as_str());
        out.append("\n");
        assert(rows@.subrange(0, i + 1).drop_last() =~= rows@.subrange(0, i as int));
        assert(out@ =~= before + row_text(rows@[i as int]));
        i = i + 1;
    }
    assert(rows@.subrange(0, i as int) =~= rows@);
    out
}

/// Orders the records by score and renders the report of them.
pub fn finalize_report(region: &str, census_id: u8, records: Vec<RankingRecord>) -> (r: String)
    ensures
        r@ == report_text(region@, census_id as nat, sort_by_score(records@)),
{
    let sorted = finalize(records);
    render_report(region, census_id, &sorted)
}

/// Finalizing is idempotent: the report of records that are finalized twice
/// is the same text as that of records finalized once.
pub proof fn lemma_report_idempotent(region: Seq<char>, census_id: nat, records: Seq<RankingRecord>)
    ensures
        report_text(region, census_id, sort_by_score(sort_by_score(records))) == report_text(
            region,
            census_id,
            sort_by_score(records),
        ),
{
    lemma_finalize_idempotent(records);
}

} // verus!
