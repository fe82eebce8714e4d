use std::ops::Range;
use sus_compiler::debug::{
    add_debug_span, most_recent_spans, SpanDebugger, TouchedSpansHistory, NUM_SPANS_TO_PRINT,
    SPAN_TOUCH_HISTORY_SIZE,
};

fn active_history() -> TouchedSpansHistory {
    TouchedSpansHistory::new()
}

#[test]
fn reports_most_recent_first_without_duplicates() {
    let mut history = active_history();
    let _debugger = SpanDebugger::new("ctx", "text", &mut history);
    add_debug_span(0..3, &mut history);
    add_debug_span(4..6, &mut history);
    add_debug_span(0..3, &mut history);
    add_debug_span(7..9, &mut history);
    let spans = most_recent_spans(&history);
    assert_eq!(spans, vec![7..9, 0..3, 4..6]);
}

#[test]
fn last_touched_span_is_reported_first() {
    let mut history = active_history();
    let _debugger = SpanDebugger::new("ctx", "text", &mut history);
    for i in 0..20usize {
        add_debug_span(i..i + 1, &mut history);
    }
    add_debug_span(5..6, &mut history);
    let spans = most_recent_spans(&history);
    assert_eq!(spans[0], 5..6);
}

#[test]
fn reports_at_most_ten_spans() {
    let mut history = active_history();
    let _debugger = SpanDebugger::new("ctx", "text", &mut history);
    for i in 0..30usize {
        add_debug_span(i..i + 2, &mut history);
    }
    let spans = most_recent_spans(&history);
    assert_eq!(spans.len(), NUM_SPANS_TO_PRINT);
    let expected: Vec<Range<usize>> = (20..30usize).rev().map(|i| i..i + 2).collect();
    assert_eq!(spans, expected);
}

#[test]
fn spans_older_than_the_buffer_are_forgotten() {
    let mut history = active_history();
    let _debugger = SpanDebugger::new("ctx", "text", &mut history);
    add_debug_span(100..200, &mut history);
    for _ in 0..SPAN_TOUCH_HISTORY_SIZE {
        add_debug_span(1..2, &mut history);
    }
    assert_eq!(most_recent_spans(&history), vec![1..2]);
}

#[test]
fn span_just_inside_the_buffer_is_kept() {
    let mut history = active_history();
    let _debugger = SpanDebugger::new("ctx", "text", &mut history);
    add_debug_span(100..200, &mut history);
    for _ in 0..SPAN_TOUCH_HISTORY_SIZE - 1 {
        add_debug_span(1..2, &mut history);
    }
    assert_eq!(most_recent_spans(&history), vec![1..2, 100..200]);
}

#[test]
fn new_debugger_forgets_earlier_spans() {
    let mut history = active_history();
    let mut first = SpanDebugger::new("first", "text", &mut history);
    add_debug_span(1..2, &mut history);
    first.defuse(&mut history);
    let second = SpanDebugger::new("second", "text", &mut history);
    add_debug_span(3..4, &mut history);
    assert_eq!(most_recent_spans(&history), vec![3..4]);
    assert_eq!(second.context(), "second");
    assert_eq!(second.file_text(), "text");
}

#[test]
fn defused_debugger_reports_nothing() {
    let mut history = active_history();
    let mut debugger = SpanDebugger::new("ctx", "text", &mut history);
    add_debug_span(1..2, &mut history);
    debugger.defuse(&mut history);
    assert_eq!(debugger.report_on_drop(&history), None);
}

#[test]
fn debugger_dropped_in_a_panic_reports_the_spans() {
    let mut history = active_history();
    let debugger = SpanDebugger::new("instantiating top", "module top {}", &mut history);
    add_debug_span(0..6, &mut history);
    add_debug_span(7..10, &mut history);
    assert_eq!(debugger.report_on_drop(&history), Some(vec![7..10, 0..6]));
    assert_eq!(debugger.context(), "instantiating top");
}

#[test]
fn no_span_touched_reports_nothing_to_print() {
    let mut history = active_history();
    let debugger = SpanDebugger::new("ctx", "text", &mut history);
    assert_eq!(debugger.report_on_drop(&history), Some(vec![]));
}
