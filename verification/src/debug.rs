use std::ops::Range;
use vstd::prelude::*;

verus! {

/// Number of touched spans that the history buffer keeps.
pub const SPAN_TOUCH_HISTORY_SIZE: usize = 256;

/// A ring buffer of the spans most recently touched while a
/// [`SpanDebugger`] guards a piece of work.
pub struct TouchedSpansHistory {
    span_history: Vec<Range<usize>>,
    num_spans: usize,
    in_use: bool,
    touched: Ghost<Seq<Range<usize>>>,
}

/// What a [`TouchedSpansHistory`] stands for: whether a debugger is active,
/// and every span touched since the history was last reset, oldest first.
pub struct HistoryView {
    pub in_use: bool,
    pub touched: Seq<Range<usize>>,
}

impl View for TouchedSpansHistory {
    type V = HistoryView;

    closed spec fn view(&self) -> HistoryView {
        HistoryView { in_use: self.in_use, touched: self.touched@ }
    }
}

impl TouchedSpansHistory {
    /// The buffer holds the last `SPAN_TOUCH_HISTORY_SIZE` touched spans, the
    /// `i`-th touched span in slot `i % SPAN_TOUCH_HISTORY_SIZE`.
    pub closed spec fn wf(&self) -> bool {
        &&& self.span_history@.len() == SPAN_TOUCH_HISTORY_SIZE
        &&& self.num_spans == self.touched@.len()
        &&& forall|i: int|
            #![trigger self.touched@[i]]
            0 <= i < self.touched@.len() && self.touched@.len() - SPAN_TOUCH_HISTORY_SIZE <= i
                ==> self.span_history@[i % (SPAN_TOUCH_HISTORY_SIZE as int)] == self.touched@[i]
    }

    /// An empty history that no debugger uses yet.
    pub fn new() -> (h: Self)
        ensures
            h.wf(),
            h@.touched == Seq::<Range<usize>>::empty(),
            !h@.in_use,
    {
        let mut span_history: Vec<Range<usize>> = Vec::new();
        let mut i: usize = 0;
        while i < SPAN_TOUCH_HISTORY_SIZE
            invariant
                i <= SPAN_TOUCH_HISTORY_SIZE,
                span_history@.len() == i,
            decreases SPAN_TOUCH_HISTORY_SIZE - i,
        {
            // Slots not touched yet hold a placeholder span.
            span_history.push(usize::MAX..usize::MAX);
            i = i + 1;
        }
        TouchedSpansHistory { span_history, num_spans: 0, in_use: false, touched: Ghost(Seq::empty()) }
    }

    /// Whether a debugger currently uses the history.
    pub fn in_use(&self) -> (b: bool)
        ensures
            b == self@.in_use,
    {
        self.in_use
    }

    /// How many spans were touched since the history was last reset.
    pub fn num_touched(&self) -> (n: usize)
        requires
            self.wf(),
        ensures
            n == self@.touched.len(),
    {
        self.num_spans
    }
}

/// Registers a span as touched, so that it may be printed if the guarded
/// work panics.
///
/// The slot of the oldest kept span is overwritten once the buffer is full.
pub fn add_debug_span(span_rng: Range<usize>, history: &mut TouchedSpansHistory)
    requires
        old(history).wf(),
        old(history)@.touched.len() < usize::MAX,
    ensures
        final(history).wf(),
        final(history)@.touched == old(history)@.touched.push(span_rng),
        final(history)@.in_use == old(history)@.in_use,
{
    let cur_idx = history.num_spans;
    history.num_spans = cur_idx + 1;
    let slot = cur_idx % SPAN_TOUCH_HISTORY_SIZE;
    history.span_history.set(slot, span_rng);
    proof {
        let old_touched = history.touched@;
        history.touched = Ghost(old_touched.push(span_rng));
        assert forall|i: int|
            #![trigger history.touched@[i]]
            0 <= i < history.touched@.len() && history.touched@.len() - SPAN_TOUCH_HISTORY_SIZE <= i
                implies history.span_history@[i % (SPAN_TOUCH_HISTORY_SIZE as int)]
                    == history.touched@[i] by {
            if i < cur_idx {
                assert(old_touched[i] == history.touched@[i]);
                lemma_distinct_slots(i, cur_idx as int);
            }
        }
    }
}

/// Number of distinct spans reported when a guarded piece of work panics.
pub const NUM_SPANS_TO_PRINT: usize = 10;

/// The touched spans that the history still holds: the last
/// `SPAN_TOUCH_HISTORY_SIZE` of them, oldest first.
pub open spec fn kept_spans(touched: Seq<Range<usize>>) -> Seq<Range<usize>> {
    if touched.len() > SPAN_TOUCH_HISTORY_SIZE {
        touched.subrange(touched.len() - SPAN_TOUCH_HISTORY_SIZE, touched.len() as int)
    } else {
        touched
    }
}

/// Walks `remaining` from its newest span back to its oldest, appending to
/// `picked` every span that `picked` does not hold yet, and stops once
/// `picked` holds `NUM_SPANS_TO_PRINT` spans.
pub open spec fn pick_recent_distinct(
    remaining: Seq<Range<usize>>,
    picked: Seq<Range<usize>>,
) -> Seq<Range<usize>>
    decreases remaining.len(),
{
    if remaining.len() == 0 || picked.len() >= NUM_SPANS_TO_PRINT {
        picked
    } else {
        let span = remaining.last();
        let next = if picked.contains(span) {
            picked
        } else {
            picked.push(span)
        };
        pick_recent_distinct(remaining.drop_last(), next)
    }
}

/// The spans reported for a history that touched `touched`: the distinct
/// kept spans, most recently touched first, at most `NUM_SPANS_TO_PRINT`.
pub open spec fn spans_to_print(touched: Seq<Range<usize>>) -> Seq<Range<usize>> {
    pick_recent_distinct(kept_spans(touched), Seq::empty())
}

/// Whether `spans` holds `span`, comparing bounds.
fn holds_span(spans: &Vec<Range<usize>>, span: &Range<usize>) -> (b: bool)
    ensures
        b == spans@.contains(*span),
{
    let mut i: usize = 0;
    while i < spans.len()
        invariant
            i <= spans@.len(),
            forall|j: int| 0 <= j < i ==> spans@[j] != *span,
        decreases spans@.len() - i,
    {
        if spans[i].start == span.start && spans[i].end == span.end {
            assert(spans@[i as int] == *span);
            return true;
        }
        i = i + 1;
    }
    false
}

/// The spans to report while a debugger is active: the distinct spans among
/// the kept ones, most recently touched first, at most `NUM_SPANS_TO_PRINT`.
pub fn most_recent_spans(history: &TouchedSpansHistory) -> (spans: Vec<Range<usize>>)
    requires
        history.wf(),
        history@.in_use,
    ensures
        spans@ == spans_to_print(history@.touched),
{
    let ghost kept = kept_spans(history@.touched);
    let mut spans: Vec<Range<usize>> = Vec::with_capacity(NUM_SPANS_TO_PRINT);
    let end_at: usize = if history.num_spans > SPAN_TOUCH_HISTORY_SIZE {
        history.num_spans - SPAN_TOUCH_HISTORY_SIZE
    } else {
        0
    };
    let mut cur_i: usize = history.num_spans;
    assert(kept.subrange(0, cur_i - end_at) == kept);
    while cur_i > end_at && spans.len() < NUM_SPANS_TO_PRINT
        invariant
            history.wf(),
            end_at <= cur_i <= history.num_spans,
            end_at == (if history.num_spans > SPAN_TOUCH_HISTORY_SIZE {
                history.num_spans - SPAN_TOUCH_HISTORY_SIZE
            } else {
                0
            }),
            kept == kept_spans(history@.touched),
            kept.len() == history.num_spans - end_at,
            pick_recent_distinct(kept.subrange(0, cur_i - end_at), spans@) == spans_to_print(
                history@.touched,
            ),
        decreases cur_i,
    {
        cur_i = cur_i - 1;
        let grabbed = &history.span_history[cur_i % SPAN_TOUCH_HISTORY_SIZE];
        let ghost rest = kept.subrange(0, cur_i + 1 - end_at);
        assert(rest.last() == *grabbed) by {
            assert(kept[cur_i - end_at] == history@.touched[cur_i as int]);
        }
        assert(rest.drop_last() == kept.subrange(0, cur_i - end_at));
        if !holds_span(&spans, grabbed) {
            spans.push(grabbed.start..grabbed.end);
        }
    }
    spans
}

/// Guards a piece of work: while it is active, the touched spans are kept
/// in the history, and if the work panics before [`SpanDebugger::defuse`] is
/// called, the most recent ones are reported together with `context`.
///
/// Only one debugger can use a history at a time.
pub struct SpanDebugger<'text> {
    context: &'text str,
    file_text: &'text str,
    defused: bool,
}

impl<'text> SpanDebugger<'text> {
    pub closed spec fn spec_context(&self) -> &'text str {
        self.context
    }

    pub closed spec fn spec_file_text(&self) -> &'text str {
        self.file_text
    }

    pub closed spec fn is_defused(&self) -> bool {
        self.defused
    }

    /// Activates the history for a new guarded piece of work, forgetting the
    /// spans touched before.
    pub fn new(context: &'text str, file_text: &'text str, history: &mut TouchedSpansHistory) -> (
        debugger: Self)
        requires
            old(history).wf(),
            !old(history)@.in_use,
        ensures
            final(history).wf(),
            final(history)@.in_use,
            final(history)@.touched == Seq::<Range<usize>>::empty(),
            debugger.spec_context() == context,
            debugger.spec_file_text() == file_text,
            !debugger.is_defused(),
    {
        history.in_use = true;
        history.num_spans = 0;
        proof {
            history.touched = Ghost(Seq::empty());
        }
        SpanDebugger { context, file_text, defused: false }
    }

    /// Marks the guarded work as finished without a panic, and releases the
    /// history for the next debugger.
    pub fn defuse(&mut self, history: &mut TouchedSpansHistory)
        requires
            old(history).wf(),
            old(history)@.in_use,
        ensures
            final(history).wf(),
            !final(history)@.in_use,
            final(history)@.touched == old(history)@.touched,
            final(self).is_defused(),
            final(self).spec_context() == old(self).spec_context(),
            final(self).spec_file_text() == old(self).spec_file_text(),
    {
        history.in_use = false;
        self.defused = true;
    }

    /// Whether [`SpanDebugger::defuse`] was called.
    pub fn defused(&self) -> (b: bool)
        ensures
            b == self.is_defused(),
    {
        self.defused
    }

    /// The context the debugger was created with.
    pub fn context(&self) -> (c: &'text str)
        ensures
            c == self.spec_context(),
    {
        self.context
    }

    /// The text of the file the guarded work reads.
    pub fn file_text(&self) -> (t: &'text str)
        ensures
            t == self.spec_file_text(),
    {
        self.file_text
    }

    /// What a debugger reports when it is dropped: nothing once defused;
    /// otherwise (a panic unwinds through the guarded work) the spans to
    /// print, most recent first.
    pub fn report_on_drop(&self, history: &TouchedSpansHistory) -> (report: Option<
        Vec<Range<usize>>,
    >)
        requires
            history.wf(),
            !self.is_defused() ==> history@.in_use,
        ensures
            self.is_defused() ==> report is None,
            !self.is_defused() ==> (report matches Some(spans) && spans@ == spans_to_print(
                history@.touched,
            )),
    {
        if self.defused {
            None
        } else {
            Some(most_recent_spans(history))
        }
    }
}

/// Whether no span occurs twice in `spans`.
pub open spec fn no_duplicates(spans: Seq<Range<usize>>) -> bool {
    forall|i: int, j: int| 0 <= i < j < spans.len() ==> spans[i] != spans[j]
}

/// Picking keeps what was picked, adds only spans of `remaining`, never
/// picks a span twice, never exceeds `NUM_SPANS_TO_PRINT`, and misses a span
/// of `remaining` only once that many spans are picked.
proof fn lemma_pick_recent_distinct(remaining: Seq<Range<usize>>, picked: Seq<Range<usize>>)
    requires
        no_duplicates(picked),
        picked.len() <= NUM_SPANS_TO_PRINT,
    ensures
        ({
            let r = pick_recent_distinct(remaining, picked);
            &&& no_duplicates(r)
            &&& r.len() <= NUM_SPANS_TO_PRINT
            &&& picked.len() <= r.len()
            &&& r.subrange(0, picked.len() as int) == picked
            &&& forall|k: int|
                0 <= k < r.len() ==> picked.contains(#[trigger] r[k]) || remaining.contains(r[k])
            &&& forall|k: int|
                0 <= k < remaining.len() ==> r.contains(#[trigger] remaining[k]) || r.len()
                    == NUM_SPANS_TO_PRINT
            &&& forall|k: int| 0 <= k < picked.len() ==> r.contains(#[trigger] picked[k])
        }),
    decreases remaining.len(),
{
    let r = pick_recent_distinct(remaining, picked);
    if remaining.len() == 0 || picked.len() >= NUM_SPANS_TO_PRINT {
        assert(r.subrange(0, picked.len() as int) == picked);
        assert forall|k: int| 0 <= k < picked.len() implies r.contains(#[trigger] picked[k]) by {
            assert(r[k] == picked[k]);
        }
    } else {
        let span = remaining.last();
        let next = if picked.contains(span) {
            picked
        } else {
            picked.push(span)
        };
        assert(no_duplicates(next));
        lemma_pick_recent_distinct(remaining.drop_last(), next);
        assert(r == pick_recent_distinct(remaining.drop_last(), next));
        assert(r.subrange(0, picked.len() as int) == next.subrange(0, picked.len() as int));
        assert forall|k: int| 0 <= k < picked.len() implies r.contains(#[trigger] picked[k]) by {
            assert(next[k] == picked[k]);
            assert(next.contains(next[k]));
        }
        assert forall|k: int| 0 <= k < r.len() implies picked.contains(#[trigger] r[k])
            || remaining.contains(r[k]) by {
            if next.contains(r[k]) {
                let m = choose|m: int| 0 <= m < next.len() && next[m] == r[k];
                if m == picked.len() {
                    assert(remaining[remaining.len() - 1] == r[k]);
                } else {
                    assert(picked[m] == r[k]);
                }
            } else {
                let m = choose|m: int|
                    0 <= m < remaining.drop_last().len() && remaining.drop_last()[m] == r[k];
                assert(remaining[m] == r[k]);
            }
        }
        assert forall|k: int| 0 <= k < remaining.len() implies r.contains(#[trigger] remaining[k])
            || r.len() == NUM_SPANS_TO_PRINT by {
            if k == remaining.len() - 1 {
                if picked.contains(span) {
                    let m = choose|m: int| 0 <= m < picked.len() && picked[m] == span;
                    assert(r.contains(picked[m]));
                } else {
                    assert(next[picked.len() as int] == span);
                    assert(next.contains(next[picked.len() as int]));
                }
            } else {
                assert(remaining.drop_last()[k] == remaining[k]);
            }
        }
    }
}

/// The spans reported for a history are distinct, at most
/// `NUM_SPANS_TO_PRINT`, each still kept in the history; and every kept span
/// is reported unless `NUM_SPANS_TO_PRINT` spans already are.
pub proof fn lemma_reported_spans(touched: Seq<Range<usize>>)
    ensures
        ({
            let r = spans_to_print(touched);
            let kept = kept_spans(touched);
            &&& no_duplicates(r)
            &&& r.len() <= NUM_SPANS_TO_PRINT
            &&& forall|k: int| 0 <= k < r.len() ==> kept.contains(#[trigger] r[k])
            &&& forall|k: int|
                0 <= k < kept.len() ==> r.contains(#[trigger] kept[k]) || r.len()
                    == NUM_SPANS_TO_PRINT
            &&& forall|k: int|
                #![trigger r[k]]
                0 <= k < r.len() ==> exists|j: int|
                    0 <= j < touched.len() && touched.len() - j <= SPAN_TOUCH_HISTORY_SIZE
                        && #[trigger] touched[j] == r[k]
            &&& forall|j: int|
                0 <= j < touched.len() && touched.len() - j <= SPAN_TOUCH_HISTORY_SIZE ==> r.contains(
                    #[trigger] touched[j],
                ) || r.len() == NUM_SPANS_TO_PRINT
        }),
{
    let kept = kept_spans(touched);
    let r = spans_to_print(touched);
    lemma_pick_recent_distinct(kept, Seq::empty());
    let off: int = if touched.len() > SPAN_TOUCH_HISTORY_SIZE {
        touched.len() - SPAN_TOUCH_HISTORY_SIZE
    } else {
        0
    };
    assert forall|k: int| #![trigger r[k]] 0 <= k < r.len() implies exists|j: int|
        0 <= j < touched.len() && touched.len() - j <= SPAN_TOUCH_HISTORY_SIZE
            && #[trigger] touched[j] == r[k] by {
        assert(kept.contains(r[k]));
        let m = choose|m: int| 0 <= m < kept.len() && kept[m] == r[k];
        assert(kept[m] == touched[m + off]);
    }
    assert forall|j: int|
        0 <= j < touched.len() && touched.len() - j <= SPAN_TOUCH_HISTORY_SIZE implies r.contains(
        #[trigger] touched[j],
    ) || r.len() == NUM_SPANS_TO_PRINT by {
        assert(kept[j - off] == touched[j]);
    }
}

/// The span touched last is the first one reported.
pub proof fn lemma_last_touched_reported_first(touched: Seq<Range<usize>>, span: Range<usize>)
    ensures
        spans_to_print(touched.push(span)).len() > 0,
        spans_to_print(touched.push(span))[0] == span,
{
    let t = touched.push(span);
    let kept = kept_spans(t);
    assert(kept.last() == span);
    let first: Seq<Range<usize>> = Seq::empty().push(span);
    assert(!Seq::<Range<usize>>::empty().contains(span));
    assert(spans_to_print(t) == pick_recent_distinct(kept.drop_last(), first));
    lemma_pick_recent_distinct(kept.drop_last(), first);
    assert(spans_to_print(t).subrange(0, 1) == first);
    assert(spans_to_print(t)[0] == spans_to_print(t).subrange(0, 1)[0]);
}

/// Only the last `SPAN_TOUCH_HISTORY_SIZE` touched spans matter: spans
/// touched before them are forgotten.
pub proof fn lemma_older_spans_forgotten(older: Seq<Range<usize>>, recent: Seq<Range<usize>>)
    requires
        recent.len() >= SPAN_TOUCH_HISTORY_SIZE,
    ensures
        spans_to_print(older + recent) == spans_to_print(recent),
{
    let t = older + recent;
    assert(kept_spans(t) == kept_spans(recent));
}

/// The index of the last occurrence of `span` in `spans`, or -1 if it does
/// not occur.
pub open spec fn last_touch(spans: Seq<Range<usize>>, span: Range<usize>) -> int
    decreases spans.len(),
{
    if spans.len() == 0 {
        -1
    } else if spans.last() == span {
        spans.len() - 1
    } else {
        last_touch(spans.drop_last(), span)
    }
}

proof fn lemma_last_touch_at(spans: Seq<Range<usize>>, span: Range<usize>, i: int)
    requires
        0 <= i < spans.len(),
        spans[i] == span,
        forall|j: int| i < j < spans.len() ==> spans[j] != span,
    ensures
        last_touch(spans, span) == i,
    decreases spans.len(),
{
    if i < spans.len() - 1 {
        assert(spans[spans.len() - 1] != span);
        lemma_last_touch_at(spans.drop_last(), span, i);
    }
}

proof fn lemma_pick_recent_first(
    kept: Seq<Range<usize>>,
    n: int,
    picked: Seq<Range<usize>>,
)
    requires
        0 <= n <= kept.len(),
        picked.len() <= NUM_SPANS_TO_PRINT,
        forall|a: int, b: int|
            0 <= a < b < picked.len() ==> last_touch(kept, #[trigger] picked[a]) > last_touch(
                kept,
                #[trigger] picked[b],
            ),
        forall|a: int| 0 <= a < picked.len() ==> last_touch(kept, #[trigger] picked[a]) >= n,
        picked.len() < NUM_SPANS_TO_PRINT ==> forall|i: int|
            n <= i < kept.len() ==> picked.contains(#[trigger] kept[i]),
    ensures
        ({
            let r = pick_recent_distinct(kept.take(n), picked);
            forall|a: int, b: int|
                0 <= a < b < r.len() ==> last_touch(kept, #[trigger] r[a]) > last_touch(
                    kept,
                    #[trigger] r[b],
                )
        }),
    decreases n,
{
    let remaining = kept.take(n);
    if n > 0 && picked.len() < NUM_SPANS_TO_PRINT {
        let span = remaining.last();
        assert(span == kept[n - 1]);
        assert(remaining.drop_last() == kept.take(n - 1));
        if picked.contains(span) {
            assert(pick_recent_distinct(remaining, picked) == pick_recent_distinct(
                kept.take(n - 1),
                picked,
            ));
            lemma_pick_recent_first(kept, n - 1, picked);
        } else {
            assert forall|j: int| n - 1 < j < kept.len() implies kept[j] != span by {
                assert(picked.contains(kept[j]));
            }
            lemma_last_touch_at(kept, span, n - 1);
            let next = picked.push(span);
            assert forall|a: int, b: int| 0 <= a < b < next.len() implies last_touch(
                kept,
                #[trigger] next[a],
            ) > last_touch(kept, #[trigger] next[b]) by {
                if b == picked.len() {
                    assert(next[a] == picked[a]);
                } else {
                    assert(next[a] == picked[a] && next[b] == picked[b]);
                }
            }
            assert forall|a: int| 0 <= a < next.len() implies last_touch(kept, #[trigger] next[a])
                >= n - 1 by {
                if a < picked.len() {
                    assert(next[a] == picked[a]);
                }
            }
            assert forall|i: int| n - 1 <= i < kept.len() implies next.contains(
                #[trigger] kept[i],
            ) by {
                if i == n - 1 {
                    assert(next[picked.len() as int] == span);
                } else {
                    let m = choose|m: int| 0 <= m < picked.len() && picked[m] == kept[i];
                    assert(next[m] == kept[i]);
                }
            }
            assert(pick_recent_distinct(remaining, picked) == pick_recent_distinct(
                kept.take(n - 1),
                next,
            ));
            lemma_pick_recent_first(kept, n - 1, next);
        }
    }
}

/// The spans are reported most recently touched first: a span comes before
/// another exactly when its last touch is the later one.
pub proof fn lemma_reported_most_recent_first(touched: Seq<Range<usize>>)
    ensures
        ({
            let r = spans_to_print(touched);
            let kept = kept_spans(touched);
            forall|a: int, b: int|
                0 <= a < b < r.len() ==> last_touch(kept, #[trigger] r[a]) > last_touch(
                    kept,
                    #[trigger] r[b],
                )
        }),
{
    let kept = kept_spans(touched);
    assert(kept.take(kept.len() as int) == kept);
    lemma_pick_recent_first(kept, kept.len() as int, Seq::empty());
}

/// Two indices less than a buffer length apart use different slots.
proof fn lemma_distinct_slots(i: int, j: int)
    requires
        0 <= i < j,
        j - i < SPAN_TOUCH_HISTORY_SIZE,
    ensures
        i % (SPAN_TOUCH_HISTORY_SIZE as int) != j % (SPAN_TOUCH_HISTORY_SIZE as int),
{
    let n = SPAN_TOUCH_HISTORY_SIZE as int;
    assert(i % n != j % n) by (nonlinear_arith)
        requires
            0 <= i < j,
            j - i < n,
            n > 0,
    ;
}

} // verus!
