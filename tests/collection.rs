use census_rankings::collector::{Collector, Phase, Step};
use census_rankings::record::{page_is_well_formed, RankingRecord};

fn rec(name: &str, rank: usize, key: u64, text: &str) -> RankingRecord {
    RankingRecord::new(name.to_string(), rank, key, text.to_string())
}

fn dataset(n: usize) -> Vec<(String, usize)> {
    (1..=n).map(|r| (format!("nation{}", r), r)).collect()
}

fn page_of(data: &[(String, usize)], size: usize, start: usize) -> Vec<RankingRecord> {
    data.iter()
        .filter(|(_, r)| *r >= start && *r < start + size)
        .map(|(n, r)| rec(n, *r, *r as u64, &r.to_string()))
        .collect()
}

/// Drives a collection with `fetch`; returns the records, the phase it ended
/// in and the start ranks that were requested.
fn drive<F: FnMut(usize) -> Option<Vec<RankingRecord>>>(
    mut fetch: F,
) -> (Vec<RankingRecord>, Phase, Vec<usize>) {
    let mut c = Collector::new();
    let mut starts = Vec::new();
    loop {
        let start = c.next_start();
        starts.push(start);
        match c.handle(fetch(start)) {
            Step::FetchAfterPause { start: s } => assert_eq!(s, c.highest_rank_seen() + 1),
            Step::Stop => break,
        }
    }
    let phase = c.phase();
    (c.into_records(), phase, starts)
}

fn assert_complete(n: usize, size: usize) {
    let data = dataset(n);
    let (records, phase, starts) = drive(|s| Some(page_of(&data, size, s)));
    assert_eq!(records.len(), n);
    let ranks: Vec<usize> = records.iter().map(|r| r.rank).collect();
    assert_eq!(ranks, (1..=n).collect::<Vec<usize>>());
    assert_eq!(phase, Phase::StoppedNoProgress);
    assert_eq!(starts.len(), (n + size - 1) / size + 1);
}

#[test]
fn complete_with_page_size_one() {
    assert_complete(5, 1);
}

#[test]
fn complete_with_page_size_equal_to_total() {
    assert_complete(6, 6);
}

#[test]
fn complete_with_page_size_above_total() {
    assert_complete(4, 20);
}

#[test]
fn complete_with_uneven_pages() {
    assert_complete(47, 20);
}

#[test]
fn empty_source_stops_after_one_page() {
    let (records, phase, starts) = drive(|_| Some(Vec::new()));
    assert!(records.is_empty());
    assert_eq!(phase, Phase::StoppedNoProgress);
    assert_eq!(starts, vec![1]);
}

#[test]
fn repeated_maximal_page_stops_after_one_more_page() {
    let (records, phase, starts) =
        drive(|_| Some(vec![rec("a", 1, 1, "1"), rec("b", 2, 2, "2"), rec("c", 3, 3, "3")]));
    assert_eq!(starts, vec![1, 4]);
    assert_eq!(phase, Phase::StoppedNoProgress);
    // The no-progress page is still appended.
    assert_eq!(records.len(), 6);
}

#[test]
fn first_fetch_failure_gives_nothing() {
    let (records, phase, starts) = drive(|_| None);
    assert!(records.is_empty());
    assert_eq!(phase, Phase::StoppedByFailure);
    assert_eq!(starts, vec![1]);
}

#[test]
fn failure_keeps_what_was_gathered() {
    let data = dataset(30);
    let (records, phase, starts) =
        drive(|s| if s == 1 { Some(page_of(&data, 20, s)) } else { None });
    assert_eq!(records.len(), 20);
    assert_eq!(phase, Phase::StoppedByFailure);
    assert_eq!(starts, vec![1, 21]);
}

#[test]
fn merge_raises_highest_to_page_maximum() {
    let mut c = Collector::new();
    let step = c.merge_page(vec![rec("a", 3, 0, "0"), rec("b", 9, 0, "0"), rec("c", 5, 0, "0")]);
    assert_eq!(step, Step::FetchAfterPause { start: 10 });
    assert_eq!(c.highest_rank_seen(), 9);
    assert_eq!(c.records().len(), 3);
    assert_eq!(c.next_start(), 10);
}

#[test]
fn lower_ranks_only_stop_the_collection() {
    let mut c = Collector::new();
    c.merge_page(vec![rec("a", 9, 0, "0")]);
    let step = c.merge_page(vec![rec("b", 4, 0, "0")]);
    assert_eq!(step, Step::Stop);
    assert_eq!(c.highest_rank_seen(), 9);
    assert_eq!(c.phase(), Phase::StoppedNoProgress);
    assert_eq!(c.records().len(), 2);
}

#[test]
fn largest_rank_ends_the_collection() {
    let mut c = Collector::new();
    let step = c.merge_page(vec![rec("a", usize::MAX, 0, "0")]);
    assert_eq!(step, Step::Stop);
    assert_eq!(c.highest_rank_seen(), usize::MAX);
    assert_eq!(c.phase(), Phase::StoppedNoProgress);
}

#[test]
fn failure_after_pages_marks_phase() {
    let mut c = Collector::new();
    c.merge_page(vec![rec("a", 1, 0, "0")]);
    c.fetch_failed();
    assert_eq!(c.phase(), Phase::StoppedByFailure);
    assert_eq!(c.highest_rank_seen(), 1);
    assert_eq!(c.records().len(), 1);
}

#[test]
fn page_with_rank_zero_is_malformed() {
    assert!(page_is_well_formed(&vec![rec("a", 1, 0, "0"), rec("b", 2, 0, "0")]));
    assert!(page_is_well_formed(&Vec::new()));
    assert!(!page_is_well_formed(&vec![rec("a", 1, 0, "0"), rec("b", 0, 0, "0")]));
}

#[test]
fn first_failure_report_has_only_headers() {
    let (records, _, _) = drive(|_| None);
    let report = census_rankings::report::finalize_report("X", 65, records);
    assert_eq!(report, "Region: X, CensusID: 65\nRank,Name,Value\n");
}

#[test]
fn one_page_then_no_progress_report() {
    let (records, phase, starts) = drive(|s| {
        if s == 1 {
            Some(vec![rec("A", 1, 50, "5.0"), rec("B", 2, 10, "1.0")])
        } else {
            Some(Vec::new())
        }
    });
    assert_eq!(starts, vec![1, 3]);
    assert_eq!(phase, Phase::StoppedNoProgress);
    let report = census_rankings::report::finalize_report("X", 65, records);
    assert_eq!(report, "Region: X, CensusID: 65\nRank,Name,Value\n2,B,1.0\n1,A,5.0\n");
}
