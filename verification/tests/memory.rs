use nt::error::NtError;
use nt::memory::model::{Memory, NewMemory, NewSummary, Summary};
use nt::memory::query::{fts_expression, MemoryContextQuery, MemoryListQuery, MemoryRecallQuery};
use nt::memory::tree::{wake_cover, MemoryRange, WakeNode};

fn expressions(values: &[&str]) -> Vec<String> {
    values.iter().map(|value| (*value).to_string()).collect()
}

fn range(value: &str) -> MemoryRange {
    MemoryRange::parse(value).unwrap()
}

#[test]
fn memory_bodies_are_short_nonempty_single_lines() {
    assert_eq!(NewMemory::new("concise").unwrap().body(), "concise");
    assert!(NewMemory::new(&"e".repeat(512)).is_ok());
    assert!(NewSummary::new(&"é".repeat(512)).is_ok());

    for invalid in ["", "two\nlines", "carriage\rreturn", "nul\0byte"] {
        assert!(NewMemory::new(invalid).is_err(), "accepted {invalid:?}");
    }
    assert!(matches!(
        NewMemory::new(&"é".repeat(513)),
        Err(NtError::InvalidValue { field: "memory body", .. })
    ));
}

#[test]
fn stored_memories_and_summaries_are_validated() {
    let memory = Memory::from_stored(3, "2026-05-28T14:30:12Z".to_string(), "fact".to_string()).unwrap();
    assert_eq!(memory.seq(), 3);
    assert_eq!(memory.body(), "fact");
    assert!(Memory::from_stored(-1, "2026-05-28T14:30:12Z".to_string(), "fact".to_string()).is_err());
    assert!(Memory::from_stored(1, "2026-05-28T14:30:12Z".to_string(), "two\nlines".to_string()).is_err());

    let summary = Summary::from_stored(4, 8, "digest".to_string()).unwrap();
    assert_eq!(summary.range(), range("4-7"));
    assert_eq!(summary.body(), "digest");
    assert!(Summary::from_stored(4, 7, "digest".to_string()).is_err());
}

#[test]
fn list_parses_positive_bounds_and_limit() {
    let query = MemoryListQuery::parse(&expressions(&["since:10", "until:20", "limit:5"])).unwrap();
    assert_eq!(query.since(), Some(10));
    assert_eq!(query.until(), Some(20));
    assert_eq!(query.limit(), Some(5));
    assert_eq!(MemoryListQuery::parse(&[]).unwrap().limit(), None);
}

#[test]
fn filters_reject_unknown_duplicate_invalid_and_reversed_values() {
    for values in [
        vec!["tag:rust"],
        vec!["plain"],
        vec!["since:0"],
        vec!["until:-1"],
        vec!["limit:"],
        vec!["limit:9223372036854775808"],
        vec!["since:2", "since:3"],
        vec!["until:2", "until:3"],
        vec!["limit:2", "limit:3"],
        vec!["since:20", "until:10"],
    ] {
        assert!(MemoryListQuery::parse(&expressions(&values)).is_err());
    }
}

#[test]
fn recall_tokenizes_unicode_and_deduplicates_deterministically() {
    let query =
        MemoryRecallQuery::parse(&expressions(&["zebra café", "since:7", "café_alpha", "limit:8"])).unwrap();
    assert_eq!(query.since(), Some(7));
    assert_eq!(query.until(), None);
    assert_eq!(query.limit(), Some(8));
    assert_eq!(query.terms(), ["alpha", "café", "zebra"]);
    assert_eq!(query.fts_expression(), "\"alpha\" AND \"café\" AND \"zebra\"");
}

#[test]
fn recall_requires_terms_and_rejects_unknown_filters() {
    for values in [vec![], vec!["***"], vec!["since:1"], vec!["source:book"]] {
        assert!(MemoryRecallQuery::parse(&expressions(&values)).is_err());
    }
}

#[test]
fn context_permits_empty_terms_but_no_filters() {
    assert!(MemoryContextQuery::parse(&[]).unwrap().terms().is_empty());
    assert!(MemoryContextQuery::parse(&expressions(&["---"])).unwrap().terms().is_empty());
    let query = MemoryContextQuery::parse(&expressions(&["beta alpha", "beta"])).unwrap();
    assert_eq!(query.terms(), ["alpha", "beta"]);
    assert_eq!(query.fts_expression(), "\"alpha\" AND \"beta\"");
    assert!(MemoryContextQuery::parse(&expressions(&["since:1"])).is_err());
    assert!(MemoryContextQuery::parse(&expressions(&["kind:event"])).is_err());
}

#[test]
fn fts_builder_quotes_and_escapes_every_literal() {
    assert_eq!(fts_expression(&[]), "");
    assert_eq!(fts_expression(&["a\"b".to_string(), "c".to_string()]), "\"a\"\"b\" AND \"c\"");
}

#[test]
fn ranges_parse_display_and_partition_with_checked_arithmetic() {
    for value in ["0-1", "0-3", "4-7", "24-31"] {
        assert_eq!(range(value).to_string(), value);
    }
    for value in ["", "0", "1-2", "0-2", "2-5", "04-7", "0-9223372036854775807"] {
        assert!(MemoryRange::parse(value).is_err(), "accepted {value}");
    }

    let parent = range("8-15");
    let (WakeNode::Summary(left), WakeNode::Summary(right)) = parent.children() else {
        panic!("expected summaries");
    };
    assert_eq!((left, right), (range("8-11"), range("12-15")));
    assert_eq!(left.parent(), Some(parent));
    assert!(parent.contains(left));

    let (WakeNode::Raw(0), WakeNode::Raw(1)) = range("0-1").children() else {
        panic!("expected raw memories");
    };
    assert!(MemoryRange::new(u64::MAX - 1, u64::MAX).is_err());
}

#[test]
fn wake_cover_properties_hold_across_histories_and_budgets() {
    assert!(wake_cover(0, 0).unwrap().is_empty());
    for count in 1..=512_u64 {
        let minimum = count.count_ones() as usize;
        let maximum = usize::try_from(count.min(128)).unwrap();
        let mut previous: Option<Vec<WakeNode>> = None;
        for budget in minimum..=maximum {
            let cover = wake_cover(count, budget).unwrap();
            assert!(cover.len() <= budget);
            assert_eq!(cover.first().unwrap().lo(), 0);
            assert_eq!(cover.last().unwrap().hi(), count);
            assert!(cover.windows(2).all(|pair| pair[0].hi() == pair[1].lo()));
            assert!(cover.windows(2).all(|pair| pair[0].size() >= pair[1].size()));
            assert!(cover.iter().all(|node| match node {
                WakeNode::Raw(_) => true,
                WakeNode::Summary(range) => MemoryRange::new(range.lo(), range.hi()).is_ok(),
            }));
            if count <= budget as u64 {
                assert!(cover.iter().all(|node| matches!(node, WakeNode::Raw(_))));
            }
            if let Some(old) = previous.replace(cover.clone()) {
                for old_node in old {
                    assert!(cover
                        .iter()
                        .any(|new_node| old_node.lo() <= new_node.lo() && old_node.hi() >= new_node.hi()));
                }
            }
            assert_eq!(cover, wake_cover(count, budget).unwrap());
        }
    }

    for count in [513, 777, 1_000, 4_095, 4_096, 1_000_000, i64::MAX as u64] {
        let minimum = count.count_ones() as usize;
        for budget in [minimum, minimum.max(64), minimum.max(128)] {
            let cover = wake_cover(count, budget).unwrap();
            assert!(cover.len() <= budget);
            assert_eq!(cover.first().unwrap().lo(), 0);
            assert_eq!(cover.last().unwrap().hi(), count);
            assert!(cover.windows(2).all(|pair| pair[0].hi() == pair[1].lo()));
            assert!(cover.windows(2).all(|pair| pair[0].size() >= pair[1].size()));
        }
    }
}

#[test]
fn wake_rejects_a_budget_below_the_minimum_cover() {
    assert!(wake_cover(7, 2).is_err());
}

#[test]
fn wake_uses_age_relative_sizes_instead_of_a_precise_right_tail() {
    let cover = wake_cover(1_000_000, 128).unwrap();
    let raw = cover.iter().filter(|node| matches!(node, WakeNode::Raw(_))).count();
    let largest = cover.iter().map(|node| node.size()).max().unwrap();
    assert!(raw < 32, "unexpectedly precise raw tail: {raw}");
    assert!(largest <= 131_072, "oldest block is too coarse: {largest}");
    assert!(
        cover.windows(2).all(|pair| pair[0].size() / pair[1].size() <= 2),
        "adjacent ages decay by more than one binary level: {cover:?}"
    );
}

#[test]
fn wake_cover_of_seven_with_minimum_budget_is_the_binary_decomposition() {
    assert_eq!(
        wake_cover(7, 3).unwrap(),
        vec![WakeNode::Summary(range("0-3")), WakeNode::Summary(range("4-5")), WakeNode::Raw(6)]
    );
}

#[test]
fn wake_errors_name_the_budget_or_the_range() {
    assert_eq!(
        wake_cover(7, 2),
        Err(NtError::InvalidValue {
            field: "wake budget",
            value: "2 entries cannot cover this history".to_string(),
        })
    );
    assert_eq!(
        wake_cover(u64::MAX, 128),
        Err(NtError::InvalidValue {
            field: "memory range",
            value: "history exceeds SQLite identity".to_string(),
        })
    );
}

#[test]
fn wake_cover_length_is_the_smaller_of_budget_and_history() {
    assert_eq!(wake_cover(5, 10).unwrap().len(), 5);
    assert_eq!(wake_cover(1_000, 40).unwrap().len(), 40);
    assert_eq!(wake_cover(8, 1).unwrap().len(), 1);
}
