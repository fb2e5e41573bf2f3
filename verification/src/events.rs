//! The atomic book mutations a `LevelTracker` emits, and spec-level tools
//! for reasoning about sequences of them.

use vstd::prelude::*;

use crate::size::Size;

verus! {

/// An atomic mutation of one price level.
///
/// `Add` increases the resting size, `Cancel` decreases it without a trade,
/// `Take` records an execution (`visible_size_on_book` is the inferred
/// resting size immediately before it, `trade_idx` correlates to the source
/// trade), and `Refresh` overwrites the size absolutely (`None` forces
/// removal).
#[derive(Clone, Copy, Debug, PartialEq, Eq)]
pub enum LevelEvent {
    Add { size: Size },
    Cancel { size: Size },
    Take { size: Size, visible_size_on_book: Size, trade_idx: usize },
    Refresh { size: Option<Size> },
}

/// The signed change in resting size that replaying one event causes.
/// `Refresh` is an absolute overwrite, not a relative change; trackers never
/// emit it, and it contributes no relative delta here.
pub open spec fn event_delta(e: LevelEvent) -> int {
    match e {
        LevelEvent::Add { size } => size.units as int,
        LevelEvent::Cancel { size } => -(size.units as int),
        LevelEvent::Take { size, .. } => -(size.units as int),
        LevelEvent::Refresh { .. } => 0,
    }
}

/// The net change in resting size over a whole event sequence.
pub open spec fn seq_delta(s: Seq<LevelEvent>) -> int
    decreases s.len(),
{
    if s.len() == 0 {
        0
    } else {
        seq_delta(s.drop_last()) + event_delta(s.last())
    }
}

/// Replaying `s` against a running total that starts at `start` never drives
/// the total negative at any prefix.
pub open spec fn prefix_nonneg(start: int, s: Seq<LevelEvent>) -> bool {
    forall|k: int| 0 <= k <= s.len() ==> start + seq_delta(#[trigger] s.take(k)) >= 0
}

/// Tracker-style events: relative changes only (a tracker never emits
/// `Refresh`), each of positive size.
pub open spec fn tracker_events_ok(s: Seq<LevelEvent>) -> bool {
    forall|i: int|
        0 <= i < s.len() ==> match #[trigger] s[i] {
            LevelEvent::Add { size } => size.units > 0,
            LevelEvent::Cancel { size } => size.units > 0,
            LevelEvent::Take { size, .. } => size.units > 0,
            LevelEvent::Refresh { .. } => false,
        }
}

/// Tracker-style event sequences are closed under concatenation.
pub proof fn lemma_tracker_events_ok_concat(a: Seq<LevelEvent>, b: Seq<LevelEvent>)
    requires
        tracker_events_ok(a),
        tracker_events_ok(b),
    ensures
        tracker_events_ok(a + b),
{
    assert forall|i: int| 0 <= i < (a + b).len() implies match #[trigger] (a + b)[i] {
        LevelEvent::Add { size } => size.units > 0,
        LevelEvent::Cancel { size } => size.units > 0,
        LevelEvent::Take { size, .. } => size.units > 0,
        LevelEvent::Refresh { .. } => false,
    } by {
        if i < a.len() {
            assert((a + b)[i] == a[i]);
        } else {
            assert((a + b)[i] == b[i - a.len()]);
        }
    }
}

/// `seq_delta` distributes over concatenation.
pub proof fn lemma_seq_delta_concat(a: Seq<LevelEvent>, b: Seq<LevelEvent>)
    ensures
        seq_delta(a + b) == seq_delta(a) + seq_delta(b),
    decreases b.len(),
{
    if b.len() == 0 {
        assert(a + b =~= a);
    } else {
        lemma_seq_delta_concat(a, b.drop_last());
        assert((a + b).drop_last() =~= a + b.drop_last());
        assert((a + b).last() == b.last());
    }
}

/// `seq_delta` of a singleton.
pub proof fn lemma_seq_delta_one(e: LevelEvent)
    ensures
        seq_delta(seq![e]) == event_delta(e),
{
    assert(seq![e].drop_last() =~= Seq::<LevelEvent>::empty());
    assert(seq_delta(Seq::<LevelEvent>::empty()) == 0);
    assert(seq![e].last() == e);
}

/// A nonnegative-prefix replay of `a` followed by one of `b` (starting where
/// `a` left off) is a nonnegative-prefix replay of `a + b`.
pub proof fn lemma_prefix_nonneg_concat(start: int, a: Seq<LevelEvent>, b: Seq<LevelEvent>)
    requires
        prefix_nonneg(start, a),
        prefix_nonneg(start + seq_delta(a), b),
    ensures
        prefix_nonneg(start, a + b),
{
    assert forall|k: int| 0 <= k <= (a + b).len() implies start + seq_delta(
        #[trigger] (a + b).take(k),
    ) >= 0 by {
        if k <= a.len() {
            assert((a + b).take(k) =~= a.take(k));
        } else {
            let j = k - a.len();
            assert((a + b).take(k) =~= a + b.take(j));
            lemma_seq_delta_concat(a, b.take(j));
            assert(start + seq_delta(a) + seq_delta(b.take(j)) >= 0);
        }
    }
}

/// The empty sequence replays without going negative from any nonnegative
/// start.
pub proof fn lemma_prefix_nonneg_empty(start: int)
    requires
        start >= 0,
    ensures
        prefix_nonneg(start, Seq::<LevelEvent>::empty()),
{
    assert forall|k: int| 0 <= k <= 0 implies start + seq_delta(
        #[trigger] Seq::<LevelEvent>::empty().take(k),
    ) >= 0 by {
        assert(Seq::<LevelEvent>::empty().take(k) =~= Seq::<LevelEvent>::empty());
    }
}

/// `seq_delta` of a two-element sequence.
pub proof fn lemma_seq_delta_two(e1: LevelEvent, e2: LevelEvent)
    ensures
        seq_delta(seq![e1, e2]) == event_delta(e1) + event_delta(e2),
{
    assert(seq![e1, e2].drop_last() =~= seq![e1]);
    assert(seq![e1, e2].last() == e2);
    lemma_seq_delta_one(e1);
}

/// A two-element sequence replays without going negative iff each of its
/// running totals stays nonnegative.
pub proof fn lemma_prefix_nonneg_two(start: int, e1: LevelEvent, e2: LevelEvent)
    requires
        start >= 0,
        start + event_delta(e1) >= 0,
        start + event_delta(e1) + event_delta(e2) >= 0,
    ensures
        prefix_nonneg(start, seq![e1, e2]),
{
    let s2 = seq![e1, e2];
    assert forall|k: int| 0 <= k <= s2.len() implies start + seq_delta(#[trigger] s2.take(k)) >= 0 by {
        if k == 0 {
            assert(s2.take(0) =~= Seq::<LevelEvent>::empty());
        } else if k == 1 {
            assert(s2.take(1) =~= seq![e1]);
            lemma_seq_delta_one(e1);
        } else {
            assert(s2.take(2) =~= s2);
            lemma_seq_delta_two(e1, e2);
        }
    }
}

/// A singleton replays without going negative iff the start plus its delta
/// stays nonnegative.
pub proof fn lemma_prefix_nonneg_one(start: int, e: LevelEvent)
    requires
        start >= 0,
        start + event_delta(e) >= 0,
    ensures
        prefix_nonneg(start, seq![e]),
{
    let s1 = seq![e];
    assert forall|k: int| 0 <= k <= s1.len() implies start + seq_delta(#[trigger] s1.take(k)) >= 0 by {
        if k == 0 {
            assert(s1.take(0) =~= Seq::<LevelEvent>::empty());
        } else {
            assert(s1.take(1) =~= s1);
            lemma_seq_delta_one(e);
        }
    }
}

} // verus!
