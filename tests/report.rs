use census_rankings::finalizer::finalize;
use census_rankings::record::RankingRecord;
use census_rankings::report::{decimal_text, finalize_report, render_report};

fn rec(name: &str, rank: usize, key: u64, text: &str) -> RankingRecord {
    RankingRecord::new(name.to_string(), rank, key, text.to_string())
}

fn keys(v: &[RankingRecord]) -> Vec<u64> {
    v.iter().map(|r| r.score.key).collect()
}

fn sample() -> Vec<RankingRecord> {
    vec![
        rec("a", 1, 50, "5.0"),
        rec("b", 2, 10, "1.0"),
        rec("c", 3, 30, "3.0"),
        rec("d", 4, 10, "1.0"),
        rec("e", 5, 70, "7.0"),
    ]
}

#[test]
fn finalize_orders_by_score() {
    let out = finalize(sample());
    assert_eq!(keys(&out), vec![10, 10, 30, 50, 70]);
    let ranks: Vec<usize> = out.iter().map(|r| r.rank).collect();
    // Equal scores keep their input order.
    assert_eq!(ranks, vec![2, 4, 3, 1, 5]);
}

#[test]
fn finalize_permutations_agree_on_scores() {
    let mut reversed = sample();
    reversed.reverse();
    let mut rotated = sample();
    rotated.rotate_left(2);
    let a = finalize(sample());
    assert_eq!(keys(&a), keys(&finalize(reversed)));
    assert_eq!(keys(&a), keys(&finalize(rotated)));
}

#[test]
fn finalize_empty() {
    assert!(finalize(Vec::new()).is_empty());
}

#[test]
fn finalize_twice_is_byte_identical() {
    let first = finalize_report("X", 65, sample());
    let second = finalize_report("X", 65, sample());
    assert_eq!(first, second);
    let again = render_report("X", 65, &finalize(finalize(sample())));
    assert_eq!(first, again);
}

#[test]
fn two_records_example() {
    let out = finalize_report("X", 65, vec![rec("A", 1, 50, "5.0"), rec("B", 2, 10, "1.0")]);
    assert_eq!(out, "Region: X, CensusID: 65\nRank,Name,Value\n2,B,1.0\n1,A,5.0\n");
}

#[test]
fn no_records_gives_only_headers() {
    let out = finalize_report("the_region", 65, Vec::new());
    assert_eq!(out, "Region: the_region, CensusID: 65\nRank,Name,Value\n");
    assert_eq!(out.lines().count(), 2);
}

#[test]
fn header_shows_census_id() {
    assert_eq!(finalize_report("r", 0, Vec::new()), "Region: r, CensusID: 0\nRank,Name,Value\n");
    assert_eq!(finalize_report("r", 255, Vec::new()), "Region: r, CensusID: 255\nRank,Name,Value\n");
}

#[test]
fn decimal_text_values() {
    assert_eq!(decimal_text(0), "0");
    assert_eq!(decimal_text(7), "7");
    assert_eq!(decimal_text(65), "65");
    assert_eq!(decimal_text(1234567), "1234567");
    assert_eq!(decimal_text(usize::MAX), usize::MAX.to_string());
}
