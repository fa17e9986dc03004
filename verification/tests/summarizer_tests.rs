use tldir::summarizer::{join_summaries, per_chunk_budget, ReduceAction, SummaryReduction};

#[test]
fn test_reduce_three_chunks_then_one_reduce_call() {
    // three map calls budgeted 300 / 3 = 100 tokens each, then one reduce
    // call over the blank-line join, budgeted the full 300 tokens
    let mut reduction = SummaryReduction::new(3, 300);

    match reduction.next_action() {
        ReduceAction::SummarizeChunk { index, budget } => {
            assert_eq!(index, 0);
            assert_eq!(budget, 100);
        },
        _ => panic!("expected the first map call"),
    }
    reduction.add_summary("first".to_string());

    match reduction.next_action() {
        ReduceAction::SummarizeChunk { index, budget } => {
            assert_eq!(index, 1);
            assert_eq!(budget, 100);
        },
        _ => panic!("expected the second map call"),
    }
    reduction.add_summary("second".to_string());

    match reduction.next_action() {
        ReduceAction::SummarizeChunk { index, budget } => {
            assert_eq!(index, 2);
            assert_eq!(budget, 100);
        },
        _ => panic!("expected the third map call"),
    }
    reduction.add_summary("third".to_string());

    match reduction.next_action() {
        ReduceAction::SummarizeJoined { prompt, budget } => {
            assert_eq!(prompt, "first\n\nsecond\n\nthird");
            assert_eq!(budget, 300);
        },
        _ => panic!("expected the single reduce call"),
    }
}

#[test]
fn test_reduce_single_chunk_no_reduce_call() {
    // with a single chunk the summary is returned unchanged, no reduce call
    let mut reduction = SummaryReduction::new(1, 300);

    match reduction.next_action() {
        ReduceAction::SummarizeChunk { index, budget } => {
            assert_eq!(index, 0);
            assert_eq!(budget, 300);
        },
        _ => panic!("expected one map call"),
    }
    reduction.add_summary("the only summary".to_string());

    match reduction.next_action() {
        ReduceAction::Finished { summary } => {
            assert_eq!(summary, "the only summary");
        },
        _ => panic!("expected the reduction to finish without a reduce call"),
    }
}

#[test]
fn test_reduce_no_chunks() {
    let reduction = SummaryReduction::new(0, 300);
    match reduction.next_action() {
        ReduceAction::Finished { summary } => assert_eq!(summary, ""),
        _ => panic!("an empty reduction finishes immediately"),
    }
}

#[test]
fn test_per_chunk_budget_floor() {
    // more chunks than tokens: the budget is clamped to one token, never zero
    assert_eq!(per_chunk_budget(2, 5), 1);
    assert_eq!(per_chunk_budget(0, 3), 1);
    assert_eq!(per_chunk_budget(300, 3), 100);
    assert_eq!(per_chunk_budget(301, 3), 100);
}

#[test]
fn test_join_summaries_separator() {
    assert_eq!(join_summaries(&vec![]), "");
    assert_eq!(join_summaries(&vec!["one".to_string()]), "one");
    assert_eq!(
        join_summaries(&vec!["one".to_string(), "two".to_string()]),
        "one\n\ntwo"
    );
}
