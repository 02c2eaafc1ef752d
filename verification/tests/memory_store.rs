use nt::error::NtError;
use nt::memory::context::{select_context, ContextItem, RawCandidate, SummaryCandidate};
use nt::memory::store::{
    children_exist, forget_outcome, history_count, missing_summary, sqlite_integer, summary_input_nodes,
    summary_write, SummaryWrite,
};
use nt::memory::tree::{MemoryRange, WakeNode};

fn range(value: &str) -> MemoryRange {
    MemoryRange::parse(value).unwrap()
}

fn raw(seq: u64, chars: usize) -> RawCandidate {
    RawCandidate { seq, chars }
}

fn item(lo: u64, hi: u64, summary: bool, chars: usize) -> ContextItem {
    ContextItem { lo, hi, summary, chars }
}

#[test]
fn history_must_be_numbered_from_zero_without_gaps() {
    assert_eq!(history_count(0, None).unwrap(), 0);
    assert_eq!(history_count(3, Some(2)).unwrap(), 3);
    assert!(matches!(
        history_count(3, Some(5)),
        Err(NtError::InvalidStoredMemory { column: "sequence", .. })
    ));
    assert!(matches!(
        history_count(-1, None),
        Err(NtError::InvalidStoredMemory { column: "count", .. })
    ));
    assert!(history_count(0, Some(0)).is_err());
}

#[test]
fn sqlite_integers_must_fit_i64() {
    assert_eq!(sqlite_integer(7, "memory sequence").unwrap(), 7);
    assert_eq!(
        sqlite_integer(u64::MAX, "memory sequence").unwrap_err().to_string(),
        "invalid memory sequence `18446744073709551615`"
    );
}

#[test]
fn summaries_need_their_inputs_within_the_history() {
    assert!(children_exist(range("0-1"), &[]));
    assert!(!children_exist(range("0-3"), &[range("0-1")]));
    assert!(children_exist(range("0-3"), &[range("2-3"), range("0-1")]));

    assert_eq!(
        summary_input_nodes(4, range("0-3")).unwrap(),
        (WakeNode::Summary(range("0-1")), WakeNode::Summary(range("2-3")))
    );
    assert_eq!(summary_input_nodes(2, range("0-1")).unwrap(), (WakeNode::Raw(0), WakeNode::Raw(1)));
    assert_eq!(
        summary_input_nodes(3, range("0-3")).unwrap_err().to_string(),
        "invalid memory range `0-3 extends past raw history`"
    );
}

#[test]
fn storing_a_summary_inserts_once_and_refuses_conflicts() {
    assert_eq!(summary_write(2, range("0-1"), true, None, "both").unwrap(), SummaryWrite::Insert);
    assert_eq!(
        summary_write(2, range("0-1"), true, Some("both"), "both").unwrap(),
        SummaryWrite::Unchanged
    );
    assert_eq!(
        summary_write(2, range("0-1"), true, Some("other"), "both").unwrap_err().to_string(),
        "invalid memory range `0-1 conflicts with existing summary`"
    );
    assert!(summary_write(1, range("0-1"), true, None, "both").is_err());
    assert!(summary_write(4, range("0-3"), false, None, "all").is_err());
}

#[test]
fn forgetting_reports_missing_summaries() {
    assert_eq!(forget_outcome(range("0-3"), 2).unwrap(), 2);
    assert!(forget_outcome(range("0-3"), 0).is_err());
    assert_eq!(
        missing_summary(range("4-7")).to_string(),
        "invalid memory range `4-7 summary missing; run nt memory nap`"
    );
}

#[test]
fn queryless_context_splits_recent_raw_and_summaries() {
    let recent = [raw(9, 30), raw(8, 30), raw(7, 10)];
    let summaries = [
        SummaryCandidate { lo: 4, hi: 7, chars: 20 },
        SummaryCandidate { lo: 0, hi: 3, chars: 30 },
    ];
    let context = select_context(100, &[], &recent, &summaries, false);
    assert_eq!(
        context,
        vec![item(4, 7, true, 20), item(8, 8, false, 30), item(9, 9, false, 30)]
    );
}

#[test]
fn searched_context_deduplicates_raw_memories_and_excludes_overlapping_summaries() {
    let matching = [raw(3, 10), raw(5, 10)];
    let recent = [raw(5, 10), raw(6, 10)];
    let summaries = [
        SummaryCandidate { lo: 4, hi: 7, chars: 10 },
        SummaryCandidate { lo: 0, hi: 1, chars: 10 },
    ];
    let context = select_context(100, &matching, &recent, &summaries, true);
    assert_eq!(
        context,
        vec![
            item(0, 1, true, 10),
            item(3, 3, false, 10),
            item(5, 5, false, 10),
            item(6, 6, false, 10),
        ]
    );
    assert!(context.iter().map(|item| item.chars).sum::<usize>() <= 100);
    assert_eq!(context, select_context(100, &matching, &recent, &summaries, true));
}

#[test]
fn context_never_truncates_an_item_that_does_not_fit() {
    let context = select_context(10, &[], &[raw(1, 7), raw(0, 7)], &[], false);
    assert!(context.is_empty());
    let context = select_context(10, &[], &[raw(1, 6), raw(0, 5)], &[], false);
    assert_eq!(context, vec![item(1, 1, false, 6)]);
}
