//! Per-(side, price) reconciliation of a depth feed against a trade tape.
//!
//! A `LevelTracker` holds an absolute size belief from the depth feed
//! (`diff_size`), a buffer of trades not yet explained by that feed
//! (`expected_trades`), and an optional deletion mark. Every mutating call
//! appends the atomic events needed to keep any downstream replay
//! non-negative, and restores the tracker invariants before returning.

use vstd::prelude::*;

use crate::events::LevelEvent;
use crate::size::{Size, MAX_SIZE_UNITS};

verus! {

/// A buffered trade observation: `implied_add` is the portion of `trade_sz`
/// that had to be synthesized as liquidity never confirmed by the depth feed.
#[derive(Debug, Clone, Copy, PartialEq, Eq)]
pub struct TimestampedOffset {
    pub time: u64,
    pub trade_sz: Size,
    pub implied_add: Size,
}

impl TimestampedOffset {
    pub fn new(time: u64, trade_sz: Size, implied_add: Size) -> (r: Self)
        ensures
            r.time == time,
            r.trade_sz == trade_sz,
            r.implied_add == implied_add,
    {
        Self { time, trade_sz, implied_add }
    }

    /// The trade volume this entry still asks the depth feed to account for.
    pub open spec fn removal(self) -> int {
        self.trade_sz.units - self.implied_add.units
    }

    /// `implied_add` never exceeds the trade size and neither is negative.
    pub open spec fn wf(self) -> bool {
        0 <= self.implied_add.units <= self.trade_sz.units
    }
}

/// Whether a buffered trade still counts toward size removal under the given
/// deletion mark: all trades count when unmarked, otherwise only trades
/// strictly after the mark.
pub open spec fn relevant_at(t: TimestampedOffset, mark: Option<u64>) -> bool {
    match mark {
        Option::Some(m) => m < t.time,
        Option::None => true,
    }
}

/// Sum of `removal()` over the entries relevant under `mark`.
pub open spec fn removal_sum(s: Seq<TimestampedOffset>, mark: Option<u64>) -> int
    decreases s.len(),
{
    if s.len() == 0 {
        0
    } else {
        removal_sum(s.drop_last(), mark) + if relevant_at(s.last(), mark) {
            s.last().removal()
        } else {
            0
        }
    }
}

/// Sum of `trade_sz` over all entries.
pub open spec fn trade_sz_sum(s: Seq<TimestampedOffset>) -> int
    decreases s.len(),
{
    if s.len() == 0 {
        0
    } else {
        trade_sz_sum(s.drop_last()) + s.last().trade_sz.units
    }
}

/// Every entry is well formed.
pub open spec fn offsets_ok(s: Seq<TimestampedOffset>) -> bool {
    forall|i: int| 0 <= i < s.len() ==> (#[trigger] s[i]).wf()
}

/// Entry times are strictly increasing.
pub open spec fn times_sorted(s: Seq<TimestampedOffset>) -> bool {
    forall|i: int, j: int| 0 <= i < j < s.len() ==> #[trigger] s[i].time < #[trigger] s[j].time
}

/// The number of leading entries with time at or before `dt`; for a
/// time-sorted buffer this is the whole stale prefix.
pub open spec fn split_point(s: Seq<TimestampedOffset>, dt: u64) -> int
    decreases s.len(),
{
    if s.len() == 0 {
        0
    } else if s[0].time <= dt {
        1 + split_point(s.skip(1), dt)
    } else {
        0
    }
}

/// For a sorted buffer, `split_point` separates the entries at or before
/// `dt` from those strictly after it.
pub proof fn lemma_split_point(s: Seq<TimestampedOffset>, dt: u64)
    requires
        times_sorted(s),
    ensures
        0 <= split_point(s, dt) <= s.len(),
        forall|i: int| 0 <= i < split_point(s, dt) ==> #[trigger] s[i].time <= dt,
        forall|i: int| split_point(s, dt) <= i < s.len() ==> #[trigger] s[i].time > dt,
    decreases s.len(),
{
    if s.len() > 0 {
        assert(forall|k: int| 0 <= k < s.skip(1).len() ==> s.skip(1)[k] == #[trigger] s[k + 1]);
        assert(times_sorted(s.skip(1)));
        lemma_split_point(s.skip(1), dt);
        if s[0].time <= dt {
            // sortedness puts every entry the recursion deemed stale after
            // the head, so the head joins the stale prefix
            assert(forall|i: int|
                1 <= i < s.len() ==> #[trigger] s[i].time == s.skip(1)[i - 1].time);
        } else {
            assert(forall|i: int| 1 <= i < s.len() ==> #[trigger] s[i].time > s[0].time);
        }
    }
}

/// Two buffers with the same times, agreeing on the removal of every
/// relevant entry, have the same relevant removal sum.
pub proof fn lemma_removal_sum_pointwise(
    s: Seq<TimestampedOffset>,
    r: Seq<TimestampedOffset>,
    mark: Option<u64>,
)
    requires
        s.len() == r.len(),
        forall|i: int| 0 <= i < s.len() ==> #[trigger] r[i].time == s[i].time,
        forall|i: int|
            0 <= i < s.len() && relevant_at(#[trigger] s[i], mark) ==> r[i].removal()
                == s[i].removal(),
    ensures
        removal_sum(r, mark) == removal_sum(s, mark),
    decreases s.len(),
{
    if s.len() > 0 {
        assert(forall|i: int| 0 <= i < s.drop_last().len() ==> s.drop_last()[i] == #[trigger] s[i]);
        assert(forall|i: int| 0 <= i < r.drop_last().len() ==> r.drop_last()[i] == #[trigger] r[i]);
        assert(s.last() == s[s.len() - 1]);
        assert(r.last() == r[r.len() - 1]);
        assert(relevant_at(r.last(), mark) == relevant_at(s.last(), mark));
        lemma_removal_sum_pointwise(s.drop_last(), r.drop_last(), mark);
    }
}

/// Both sums distribute over concatenation.
pub proof fn lemma_sums_concat(a: Seq<TimestampedOffset>, b: Seq<TimestampedOffset>, mark: Option<u64>)
    ensures
        removal_sum(a + b, mark) == removal_sum(a, mark) + removal_sum(b, mark),
        trade_sz_sum(a + b) == trade_sz_sum(a) + trade_sz_sum(b),
    decreases b.len(),
{
    if b.len() == 0 {
        assert(a + b =~= a);
    } else {
        lemma_sums_concat(a, b.drop_last(), mark);
        assert((a + b).drop_last() =~= a + b.drop_last());
        assert((a + b).last() == b.last());
    }
}

/// Splitting a sequence at `k` splits both sums.
pub proof fn lemma_sums_split(s: Seq<TimestampedOffset>, k: int, mark: Option<u64>)
    requires
        0 <= k <= s.len(),
    ensures
        removal_sum(s, mark) == removal_sum(s.take(k), mark) + removal_sum(s.skip(k), mark),
        trade_sz_sum(s) == trade_sz_sum(s.take(k)) + trade_sz_sum(s.skip(k)),
{
    assert(s =~= s.take(k) + s.skip(k));
    lemma_sums_concat(s.take(k), s.skip(k), mark);
}

/// Extending a prefix by one element extends both sums by its contribution.
pub proof fn lemma_sums_take_step(s: Seq<TimestampedOffset>, i: int, mark: Option<u64>)
    requires
        0 <= i < s.len(),
    ensures
        removal_sum(s.take(i + 1), mark) == removal_sum(s.take(i), mark) + if relevant_at(
            s[i],
            mark,
        ) {
            s[i].removal()
        } else {
            0
        },
        trade_sz_sum(s.take(i + 1)) == trade_sz_sum(s.take(i)) + s[i].trade_sz.units,
{
    assert(s.take(i + 1).drop_last() =~= s.take(i));
    assert(s.take(i + 1).last() == s[i]);
}

/// For well-formed entries the removal sum is between zero and the total
/// trade volume, under any mark.
pub proof fn lemma_removal_sum_bounds(s: Seq<TimestampedOffset>, mark: Option<u64>)
    requires
        offsets_ok(s),
    ensures
        0 <= removal_sum(s, mark),
        removal_sum(s, mark) <= removal_sum(s, Option::None),
        removal_sum(s, Option::None) <= trade_sz_sum(s),
        0 <= trade_sz_sum(s),
    decreases s.len(),
{
    if s.len() > 0 {
        assert(offsets_ok(s.drop_last())) by {
            assert(forall|i: int|
                0 <= i < s.drop_last().len() ==> s.drop_last()[i] == #[trigger] s[i]);
        }
        assert(s.last() == s[s.len() - 1]);
        lemma_removal_sum_bounds(s.drop_last(), mark);
    }
}

/// A mark that keeps fewer entries relevant never increases the removal sum.
pub proof fn lemma_removal_sum_mark_mono(
    s: Seq<TimestampedOffset>,
    m1: Option<u64>,
    m2: Option<u64>,
)
    requires
        offsets_ok(s),
        forall|i: int| 0 <= i < s.len() && relevant_at(#[trigger] s[i], m2) ==> relevant_at(s[i], m1),
    ensures
        removal_sum(s, m2) <= removal_sum(s, m1),
    decreases s.len(),
{
    if s.len() > 0 {
        assert(forall|i: int| 0 <= i < s.drop_last().len() ==> s.drop_last()[i] == #[trigger] s[i]);
        assert(s.last() == s[s.len() - 1]);
        lemma_removal_sum_mark_mono(s.drop_last(), m1, m2);
    }
}

/// A removal sum of well-formed entries is zero iff every relevant entry's
/// removal is zero.
pub proof fn lemma_removal_sum_zero(s: Seq<TimestampedOffset>, mark: Option<u64>)
    requires
        offsets_ok(s),
    ensures
        (removal_sum(s, mark) == 0) <==> (forall|i: int|
            0 <= i < s.len() && relevant_at(#[trigger] s[i], mark) ==> s[i].removal() == 0),
    decreases s.len(),
{
    if s.len() > 0 {
        assert(forall|i: int| 0 <= i < s.drop_last().len() ==> s.drop_last()[i] == #[trigger] s[i]);
        assert(s.last() == s[s.len() - 1]);
        lemma_removal_sum_zero(s.drop_last(), mark);
        lemma_removal_sum_bounds(s.drop_last(), mark);
    }
}

/// The `Size` holding `v` quanta; meaningful when `v` fits in an `i128`.
pub open spec fn size_from(v: int) -> Size {
    Size { units: v as i128 }
}

/// Any single trade size is at most the total trade volume.
pub proof fn lemma_trade_sz_le_sum(s: Seq<TimestampedOffset>, i: int)
    requires
        offsets_ok(s),
        0 <= i < s.len(),
    ensures
        s[i].trade_sz.units <= trade_sz_sum(s),
        0 <= s[i].trade_sz.units,
{
    lemma_sums_split(s, i, Option::None);
    assert(s.skip(i)[0] == s[i]);
    assert(s.skip(i).take(1) =~= seq![s[i]]);
    lemma_sums_split(s.skip(i), 1, Option::None);
    assert(trade_sz_sum(seq![s[i]]) == s[i].trade_sz.units) by {
        assert(seq![s[i]].drop_last() =~= Seq::<TimestampedOffset>::empty());
        assert(seq![s[i]].last() == s[i]);
        assert(trade_sz_sum(Seq::<TimestampedOffset>::empty()) == 0);
    }
    assert(offsets_ok(s.take(i))) by {
        assert(forall|k: int| 0 <= k < s.take(i).len() ==> s.take(i)[k] == #[trigger] s[k]);
    }
    assert(offsets_ok(s.skip(i).skip(1))) by {
        assert(forall|k: int|
            0 <= k < s.skip(i).skip(1).len() ==> s.skip(i).skip(1)[k] == #[trigger] s[k + i + 1]);
    }
    lemma_removal_sum_bounds(s.take(i), Option::None);
    lemma_removal_sum_bounds(s.skip(i).skip(1), Option::None);
}

/// How `append_new_trade` folds a new observation into the buffer: merged
/// into the last entry when the times coincide, appended otherwise.
pub open spec fn merge_last(s: Seq<TimestampedOffset>, t: TimestampedOffset) -> Seq<
    TimestampedOffset,
> {
    if s.len() > 0 && s.last().time == t.time {
        s.update(
            s.len() - 1,
            TimestampedOffset {
                time: t.time,
                trade_sz: size_from(s.last().trade_sz.units + t.trade_sz.units),
                implied_add: size_from(s.last().implied_add.units + t.implied_add.units),
            },
        )
    } else {
        s.push(t)
    }
}

/// Effect of `merge_last` on the sums, well-formedness and times.
pub proof fn lemma_merge_last(s: Seq<TimestampedOffset>, t: TimestampedOffset, mark: Option<u64>)
    requires
        offsets_ok(s),
        t.wf(),
        trade_sz_sum(s) + t.trade_sz.units <= MAX_SIZE_UNITS,
    ensures
        removal_sum(merge_last(s, t), mark) == removal_sum(s, mark) + if relevant_at(t, mark) {
            t.removal()
        } else {
            0
        },
        trade_sz_sum(merge_last(s, t)) == trade_sz_sum(s) + t.trade_sz.units,
        offsets_ok(merge_last(s, t)),
        s.len() > 0 && s.last().time == t.time ==> merge_last(s, t).len() == s.len() && forall|
            i: int,
        |
            0 <= i < s.len() ==> #[trigger] merge_last(s, t)[i].time == s[i].time,
        !(s.len() > 0 && s.last().time == t.time) ==> merge_last(s, t) == s.push(t),
{
    lemma_removal_sum_bounds(s, mark);
    if s.len() > 0 && s.last().time == t.time {
        let j = s.len() - 1;
        lemma_trade_sz_le_sum(s, j);
        assert(s[j] == s.last());
        let merged = TimestampedOffset {
            time: t.time,
            trade_sz: size_from(s.last().trade_sz.units + t.trade_sz.units),
            implied_add: size_from(s.last().implied_add.units + t.implied_add.units),
        };
        assert(s.last().implied_add.units + t.implied_add.units <= s.last().trade_sz.units
            + t.trade_sz.units <= MAX_SIZE_UNITS);
        assert(merged.trade_sz.units == s.last().trade_sz.units + t.trade_sz.units);
        assert(merged.implied_add.units == s.last().implied_add.units + t.implied_add.units);
        let r = merge_last(s, t);
        assert(r.drop_last() =~= s.drop_last());
        assert(r.last() == merged);
        assert(relevant_at(merged, mark) == relevant_at(t, mark));
        assert(relevant_at(s.last(), mark) == relevant_at(t, mark));
        assert(merged.removal() == s.last().removal() + t.removal());
        assert(merged.wf());
        assert(offsets_ok(r)) by {
            assert(forall|i: int| 0 <= i < r.len() - 1 ==> r[i] == #[trigger] s[i]);
            assert(r[r.len() - 1] == merged);
        }
    } else {
        let r = s.push(t);
        assert(r.drop_last() =~= s);
        assert(r.last() == t);
        assert(offsets_ok(r)) by {
            assert(forall|i: int| 0 <= i < r.len() - 1 ==> r[i] == #[trigger] s[i]);
            assert(r[r.len() - 1] == t);
        }
    }
}

/// Both sums step over the first element.
pub proof fn lemma_sums_first_step(s: Seq<TimestampedOffset>, mark: Option<u64>)
    requires
        s.len() > 0,
    ensures
        removal_sum(s, mark) == (if relevant_at(s[0], mark) {
            s[0].removal()
        } else {
            0
        }) + removal_sum(s.skip(1), mark),
        trade_sz_sum(s) == s[0].trade_sz.units + trade_sz_sum(s.skip(1)),
{
    lemma_sums_split(s, 1, mark);
    assert(s.take(1) =~= seq![s[0]]);
    assert(seq![s[0]].drop_last() =~= Seq::<TimestampedOffset>::empty());
    assert(seq![s[0]].last() == s[0]);
    assert(removal_sum(Seq::<TimestampedOffset>::empty(), mark) == 0);
    assert(trade_sz_sum(Seq::<TimestampedOffset>::empty()) == 0);
    assert(removal_sum(seq![s[0]], mark) == if relevant_at(s[0], mark) {
        s[0].removal()
    } else {
        0
    });
    assert(trade_sz_sum(seq![s[0]]) == s[0].trade_sz.units);
}

/// Absorb a trade surplus into the buffer oldest-first: each entry's
/// `implied_add` grows by at most its own unexplained removal, and the
/// running surplus falls by that entry's unexplained removal, until the
/// surplus is exhausted. Returns the rewritten buffer and the remaining
/// surplus.
pub open spec fn absorb_surplus_front(s: Seq<TimestampedOffset>, surplus: int) -> (
    Seq<TimestampedOffset>,
    int,
)
    decreases s.len(),
{
    if s.len() == 0 || surplus <= 0 {
        (s, surplus)
    } else {
        let t = s[0];
        let possible = t.removal();
        let t2 = TimestampedOffset {
            time: t.time,
            trade_sz: t.trade_sz,
            implied_add: size_from(t.implied_add.units + vstd::math::min(possible, surplus)),
        };
        let rec = absorb_surplus_front(s.skip(1), surplus - possible);
        (seq![t2] + rec.0, rec.1)
    }
}

/// What `absorb_surplus_front` does to the buffer: times and trade sizes are
/// untouched, well-formedness is preserved, and a positive surplus is taken
/// out of the unexplained removal until one side is exhausted.
#[verifier::rlimit(60)]
pub proof fn lemma_absorb_front(s: Seq<TimestampedOffset>, surplus: int)
    requires
        offsets_ok(s),
    ensures
        ({
            let r = absorb_surplus_front(s, surplus).0;
            let fin = absorb_surplus_front(s, surplus).1;
            &&& r.len() == s.len()
            &&& forall|i: int|
                0 <= i < s.len() ==> #[trigger] r[i].time == s[i].time && r[i].trade_sz
                    == s[i].trade_sz && r[i].implied_add.units >= s[i].implied_add.units
            &&& offsets_ok(r)
            &&& trade_sz_sum(r) == trade_sz_sum(s)
            &&& fin <= surplus
            &&& (surplus <= 0 ==> r == s && fin == surplus)
            &&& (surplus > 0 && fin <= 0 ==> removal_sum(r, Option::None) == removal_sum(
                s,
                Option::None,
            ) - surplus)
            &&& (surplus > 0 && fin > 0 ==> removal_sum(r, Option::None) == 0 && fin == surplus
                - removal_sum(s, Option::None))
        }),
    decreases s.len(),
{
    if s.len() == 0 || surplus <= 0 {
    } else {
        let t = s[0];
        let possible = t.removal();
        let t2 = TimestampedOffset {
            time: t.time,
            trade_sz: t.trade_sz,
            implied_add: size_from(t.implied_add.units + vstd::math::min(possible, surplus)),
        };
        assert(t.wf());
        assert(0 <= t.implied_add.units + vstd::math::min(possible, surplus)
            <= t.trade_sz.units);
        assert(t2.wf());
        assert(offsets_ok(s.skip(1))) by {
            assert(forall|k: int|
                0 <= k < s.skip(1).len() ==> s.skip(1)[k] == #[trigger] s[k + 1]);
        }
        lemma_absorb_front(s.skip(1), surplus - possible);
        let rec = absorb_surplus_front(s.skip(1), surplus - possible);
        let r = seq![t2] + rec.0;
        assert(r[0] == t2);
        assert(r.skip(1) =~= rec.0);
        assert(forall|i: int| 0 <= i < rec.0.len() ==> #[trigger] r[i + 1] == rec.0[i]);
        lemma_sums_first_step(s, Option::None);
        lemma_sums_first_step(r, Option::None);
        assert(t2.removal() == possible - vstd::math::min(possible, surplus));
        if surplus - possible <= 0 {
            assert(rec.0 == s.skip(1));
            assert(removal_sum(r, Option::None) == t2.removal() + removal_sum(
                s.skip(1),
                Option::None,
            ));
        }
    }
}

/// Absorb a depth-feed size increase into the buffer, most recent first:
/// each entry's `implied_add` shrinks by at most the running surplus — the
/// increase explains liquidity previously only implied — and the surplus
/// falls by the entry's previous `implied_add`, until exhausted. Under a
/// deletion mark, entries still relevant (strictly after the mark) are
/// skipped: the increase cannot interact with them.
pub open spec fn absorb_surplus_back(
    s: Seq<TimestampedOffset>,
    surplus: int,
    mark: Option<u64>,
) -> (Seq<TimestampedOffset>, int)
    decreases s.len(),
{
    if s.len() == 0 || surplus <= 0 {
        (s, surplus)
    } else {
        let t = s.last();
        if mark is Some && relevant_at(t, mark) {
            let rec = absorb_surplus_back(s.drop_last(), surplus, mark);
            (rec.0.push(t), rec.1)
        } else {
            let t2 = TimestampedOffset {
                time: t.time,
                trade_sz: t.trade_sz,
                implied_add: size_from(vstd::math::max(t.implied_add.units - surplus, 0)),
            };
            let rec = absorb_surplus_back(s.drop_last(), surplus - t.implied_add.units, mark);
            (rec.0.push(t2), rec.1)
        }
    }
}

/// What `absorb_surplus_back` does to the buffer: times and trade sizes are
/// untouched, `implied_add` never grows, well-formedness is preserved, and
/// entries relevant under a set mark are left exactly as they were.
#[verifier::rlimit(60)]
pub proof fn lemma_absorb_back(s: Seq<TimestampedOffset>, surplus: int, mark: Option<u64>)
    requires
        offsets_ok(s),
    ensures
        ({
            let r = absorb_surplus_back(s, surplus, mark).0;
            let fin = absorb_surplus_back(s, surplus, mark).1;
            &&& r.len() == s.len()
            &&& forall|i: int|
                0 <= i < s.len() ==> #[trigger] r[i].time == s[i].time && r[i].trade_sz
                    == s[i].trade_sz && r[i].implied_add.units <= s[i].implied_add.units
            &&& offsets_ok(r)
            &&& trade_sz_sum(r) == trade_sz_sum(s)
            &&& (surplus <= 0 ==> r =~= s && fin == surplus)
            &&& (mark is Some ==> forall|i: int|
                0 <= i < s.len() && relevant_at(#[trigger] s[i], mark) ==> r[i] == s[i])
        }),
    decreases s.len(),
{
    if s.len() == 0 || surplus <= 0 {
    } else {
        let t = s.last();
        assert(t == s[s.len() - 1]);
        assert(t.wf());
        assert(offsets_ok(s.drop_last())) by {
            assert(forall|k: int|
                0 <= k < s.drop_last().len() ==> s.drop_last()[k] == #[trigger] s[k]);
        }
        if mark is Some && relevant_at(t, mark) {
            lemma_absorb_back(s.drop_last(), surplus, mark);
            let rec = absorb_surplus_back(s.drop_last(), surplus, mark);
            let r = rec.0.push(t);
            assert(r.drop_last() =~= rec.0);
            assert(r.last() == t);
            assert(forall|i: int| 0 <= i < rec.0.len() ==> #[trigger] r[i] == rec.0[i]);
            lemma_sums_concat(rec.0, seq![t], mark);
            assert(r =~= rec.0 + seq![t]);
            assert(trade_sz_sum(seq![t]) == t.trade_sz.units) by {
                assert(seq![t].drop_last() =~= Seq::<TimestampedOffset>::empty());
                assert(seq![t].last() == t);
                assert(trade_sz_sum(Seq::<TimestampedOffset>::empty()) == 0);
            }
            lemma_sums_concat(s.drop_last(), seq![t], mark);
            assert(s =~= s.drop_last() + seq![t]);
        } else {
            let t2 = TimestampedOffset {
                time: t.time,
                trade_sz: t.trade_sz,
                implied_add: size_from(vstd::math::max(t.implied_add.units - surplus, 0)),
            };
            assert(0 <= vstd::math::max(t.implied_add.units - surplus, 0)
                <= t.implied_add.units);
            assert(t2.wf());
            lemma_absorb_back(s.drop_last(), surplus - t.implied_add.units, mark);
            let rec = absorb_surplus_back(s.drop_last(), surplus - t.implied_add.units, mark);
            let r = rec.0.push(t2);
            assert(r.drop_last() =~= rec.0);
            assert(r.last() == t2);
            assert(forall|i: int| 0 <= i < rec.0.len() ==> #[trigger] r[i] == rec.0[i]);
            assert(trade_sz_sum(seq![t2]) == t2.trade_sz.units) by {
                assert(seq![t2].drop_last() =~= Seq::<TimestampedOffset>::empty());
                assert(seq![t2].last() == t2);
                assert(trade_sz_sum(Seq::<TimestampedOffset>::empty()) == 0);
            }
            assert(trade_sz_sum(seq![t]) == t.trade_sz.units) by {
                assert(seq![t].drop_last() =~= Seq::<TimestampedOffset>::empty());
                assert(seq![t].last() == t);
                assert(trade_sz_sum(Seq::<TimestampedOffset>::empty()) == 0);
            }
            lemma_sums_concat(rec.0, seq![t2], mark);
            assert(r =~= rec.0 + seq![t2]);
            lemma_sums_concat(s.drop_last(), seq![t], mark);
            assert(s =~= s.drop_last() + seq![t]);
        }
    }
}

/// The single trailing event that reports a net change of the inferred size:
/// an `Add` for an increase, a `Cancel` for a decrease, nothing for zero.
pub open spec fn net_change_events(delta: int) -> Seq<LevelEvent> {
    if delta > 0 {
        seq![LevelEvent::Add { size: size_from(delta) }]
    } else if delta < 0 {
        seq![LevelEvent::Cancel { size: size_from(-delta) }]
    } else {
        Seq::empty()
    }
}

/// The net-change event sequence moves a running total by exactly `delta`,
/// and never below the end value or the start value.
pub proof fn lemma_net_change_events(delta: int, start: int)
    requires
        -(2 * MAX_SIZE_UNITS) <= delta <= 2 * MAX_SIZE_UNITS,
        start >= 0,
        start + delta >= 0,
    ensures
        crate::events::seq_delta(net_change_events(delta)) == delta,
        crate::events::prefix_nonneg(start, net_change_events(delta)),
        crate::events::tracker_events_ok(net_change_events(delta)),
{
    if delta > 0 {
        crate::events::lemma_seq_delta_one(LevelEvent::Add { size: size_from(delta) });
        crate::events::lemma_prefix_nonneg_one(start, LevelEvent::Add { size: size_from(delta) });
        assert(net_change_events(delta)[0] == LevelEvent::Add { size: size_from(delta) });
    } else if delta < 0 {
        crate::events::lemma_seq_delta_one(LevelEvent::Cancel { size: size_from(-delta) });
        crate::events::lemma_prefix_nonneg_one(
            start,
            LevelEvent::Cancel { size: size_from(-delta) },
        );
        assert(net_change_events(delta)[0] == LevelEvent::Cancel { size: size_from(-delta) });
    } else {
        crate::events::lemma_prefix_nonneg_empty(start);
    }
}

/// The events `account_for_surplus_trades_at` emits for a positive surplus:
/// a `Cancel` of the part known to precede the synthetic add, the `Add` of
/// the full surplus, then a `Cancel` of whatever remains. A non-positive
/// surplus emits nothing.
pub open spec fn reconcile_events(surplus: int, stcf: int) -> Seq<LevelEvent> {
    if surplus > 0 {
        if stcf > 0 {
            let later = vstd::math::max(surplus - stcf, 0);
            let head = seq![
                LevelEvent::Cancel { size: size_from(vstd::math::min(surplus, stcf)) },
                LevelEvent::Add { size: size_from(surplus) },
            ];
            if later > 0 {
                head.push(LevelEvent::Cancel { size: size_from(later) })
            } else {
                head
            }
        } else {
            seq![
                LevelEvent::Add { size: size_from(surplus) },
                LevelEvent::Cancel { size: size_from(surplus) },
            ]
        }
    } else {
        Seq::empty()
    }
}

/// The reconciliation events are net-neutral and never drive a running total
/// that starts at or above `stcf` negative.
pub proof fn lemma_reconcile_events(surplus: int, stcf: int, start: int)
    requires
        0 <= stcf <= MAX_SIZE_UNITS,
        surplus <= 2 * MAX_SIZE_UNITS,
        stcf <= start,
    ensures
        crate::events::seq_delta(reconcile_events(surplus, stcf)) == 0,
        crate::events::prefix_nonneg(start, reconcile_events(surplus, stcf)),
        crate::events::tracker_events_ok(reconcile_events(surplus, stcf)),
{
    let evs = reconcile_events(surplus, stcf);
    if surplus > 0 {
        if stcf > 0 {
            let later = vstd::math::max(surplus - stcf, 0);
            let c1 = LevelEvent::Cancel { size: size_from(vstd::math::min(surplus, stcf)) };
            let a = LevelEvent::Add { size: size_from(surplus) };
            let head = seq![c1, a];
            crate::events::lemma_seq_delta_two(c1, a);
            crate::events::lemma_prefix_nonneg_two(start, c1, a);
            assert(head[0] == c1);
            assert(head[1] == a);
            if later > 0 {
                let c2 = LevelEvent::Cancel { size: size_from(later) };
                assert(evs =~= head + seq![c2]);
                assert(evs[0] == c1 && evs[1] == a && evs[2] == c2);
                crate::events::lemma_seq_delta_one(c2);
                crate::events::lemma_seq_delta_concat(head, seq![c2]);
                crate::events::lemma_prefix_nonneg_one(
                    start + crate::events::seq_delta(head),
                    c2,
                );
                crate::events::lemma_prefix_nonneg_concat(start, head, seq![c2]);
            }
        } else {
            let a = LevelEvent::Add { size: size_from(surplus) };
            let c = LevelEvent::Cancel { size: size_from(surplus) };
            crate::events::lemma_seq_delta_two(a, c);
            crate::events::lemma_prefix_nonneg_two(start, a, c);
            assert(evs[0] == a && evs[1] == c);
        }
    } else {
        crate::events::lemma_prefix_nonneg_empty(start);
    }
}

/// The per-(side, price) reconciliation state machine.
#[derive(Debug, PartialEq, Eq)]
pub struct LevelTracker {
    /// Buffered trades not yet explained by the depth feed, ordered by
    /// strictly increasing time (same-time trades are merged on append).
    pub expected_trades: Vec<TimestampedOffset>,
    /// The absolute resting size last reported by the depth feed.
    pub diff_size: Size,
    /// The latest depth-feed timestamp applied to this tracker.
    pub last_ts: u64,
    /// When set, the level is presumed gone as of this time.
    pub marked_for_deletion_at: Option<u64>,
}

impl LevelTracker {
    /// Sum of still-relevant unexplained trade volume.
    pub open spec fn spec_total_size_removal(self) -> int {
        removal_sum(self.expected_trades@, self.marked_for_deletion_at)
    }

    /// Best estimate of true resting size: zero when marked for deletion,
    /// else the depth-feed size net of unexplained trade volume.
    pub open spec fn spec_inferred_size(self) -> int {
        if self.marked_for_deletion_at is Some {
            0
        } else {
            self.diff_size.units - self.spec_total_size_removal()
        }
    }

    /// The time after which a deletion mark would be new information.
    pub open spec fn spec_last_size_time(self) -> u64 {
        match self.marked_for_deletion_at {
            Option::Some(m) => m,
            Option::None => self.last_ts,
        }
    }

    /// Every buffered entry is well formed.
    pub open spec fn offsets_wf(self) -> bool {
        offsets_ok(self.expected_trades@)
    }

    /// Buffered times are strictly increasing, strictly after `last_ts`, and
    /// a deletion mark is strictly after `last_ts`.
    pub open spec fn times_ok(self) -> bool {
        &&& times_sorted(self.expected_trades@)
        &&& forall|i: int|
            0 <= i < self.expected_trades@.len() ==> #[trigger] self.expected_trades@[i].time
                > self.last_ts
        &&& match self.marked_for_deletion_at {
            Option::Some(m) => m > self.last_ts,
            Option::None => true,
        }
    }

    /// All stored quantities stay within `MAX_SIZE_UNITS`, so every
    /// intermediate sum the reconciliation forms fits in an `i128`.
    pub open spec fn bounded(self) -> bool {
        &&& trade_sz_sum(self.expected_trades@) <= MAX_SIZE_UNITS
        &&& 0 <= self.diff_size.units <= MAX_SIZE_UNITS
    }

    /// Relevant unexplained volume never exceeds the depth-feed size.
    pub open spec fn balanced(self) -> bool {
        0 <= self.spec_total_size_removal() <= self.diff_size.units
    }

    /// When marked for deletion, every still-relevant trade has been fully
    /// explained by synthesized liquidity.
    pub open spec fn settled(self) -> bool {
        self.marked_for_deletion_at is Some ==> self.spec_total_size_removal() == 0
    }

    /// The tracker invariant: established by the constructors and preserved
    /// by every mutating call.
    pub open spec fn wf(self) -> bool {
        &&& self.offsets_wf()
        &&& self.times_ok()
        &&& self.bounded()
        &&& self.balanced()
        &&& self.settled()
    }

    /// The state-machine invariant that `validate` checks at run time; it is
    /// part of `wf` and proved preserved by every mutating call.
    pub open spec fn invariant_holds(self) -> bool {
        &&& self.offsets_wf()
        &&& self.balanced()
        &&& self.settled()
    }

    /// A fresh tracker whose staleness clock starts at `timestamp`.
    pub fn default_with_ts(timestamp: u64) -> (r: Self)
        ensures
            r.expected_trades@.len() == 0,
            r.diff_size.units == 0,
            r.last_ts == timestamp,
            r.marked_for_deletion_at is None,
            r.wf(),
    {
        Self {
            expected_trades: Vec::new(),
            diff_size: Size { units: 0 },
            last_ts: timestamp,
            marked_for_deletion_at: Option::None,
        }
    }

    /// See `spec_last_size_time`.
    pub fn last_size_time(&self) -> (r: u64)
        ensures
            r == self.spec_last_size_time(),
    {
        match self.marked_for_deletion_at {
            Option::Some(m) => m,
            Option::None => self.last_ts,
        }
    }

    /// See `spec_total_size_removal`.
    pub fn total_size_removal(&self) -> (r: Size)
        requires
            self.offsets_wf(),
            self.bounded(),
        ensures
            r.units == self.spec_total_size_removal(),
    {
        let n = self.expected_trades.len();
        let mut sum: i128 = 0;
        let mut i: usize = 0;
        while i < n
            invariant
                n == self.expected_trades@.len(),
                0 <= i <= n,
                offsets_ok(self.expected_trades@),
                trade_sz_sum(self.expected_trades@) <= MAX_SIZE_UNITS,
                sum == removal_sum(self.expected_trades@.take(i as int), self.marked_for_deletion_at),
            decreases n - i,
        {
            let ghost s = self.expected_trades@;
            proof {
                lemma_sums_take_step(s, i as int, self.marked_for_deletion_at);
                assert(offsets_ok(s.take(i + 1 as int))) by {
                    assert(forall|k: int|
                        0 <= k < s.take(i + 1 as int).len() ==> s.take(i + 1 as int)[k]
                            == #[trigger] s[k]);
                }
                lemma_removal_sum_bounds(s.take(i + 1 as int), self.marked_for_deletion_at);
                lemma_sums_split(s, i + 1 as int, self.marked_for_deletion_at);
                lemma_removal_sum_bounds(s.skip(i + 1 as int), self.marked_for_deletion_at);
                assert(offsets_ok(s.skip(i + 1 as int))) by {
                    assert(forall|k: int|
                        0 <= k < s.skip(i + 1 as int).len() ==> s.skip(i + 1 as int)[k]
                            == #[trigger] s[k + i + 1]);
                }
            }
            let t = self.expected_trades[i];
            let is_relevant = match self.marked_for_deletion_at {
                Option::Some(m) => m < t.time,
                Option::None => true,
            };
            if is_relevant {
                sum = sum + (t.trade_sz.units - t.implied_add.units);
            }
            i = i + 1;
        }
        proof {
            assert(self.expected_trades@.take(n as int) =~= self.expected_trades@);
        }
        Size { units: sum }
    }

    /// See `spec_inferred_size`.
    pub fn inferred_size(&self) -> (r: Size)
        requires
            self.offsets_wf(),
            self.bounded(),
        ensures
            r.units == self.spec_inferred_size(),
    {
        if self.marked_for_deletion_at.is_some() {
            return Size { units: 0 };
        }
        let removal = self.total_size_removal();
        proof {
            lemma_removal_sum_bounds(self.expected_trades@, self.marked_for_deletion_at);
        }
        Size { units: self.diff_size.units - removal.units }
    }

    /// The level holds no size and buffers no trades: the orchestrator may
    /// evict this tracker.
    pub fn definitely_gone(&self) -> (r: bool)
        ensures
            r == (self.diff_size.units == 0 && self.expected_trades@.len() == 0),
    {
        self.diff_size.units == 0 && self.expected_trades.len() == 0
    }

    /// Runtime check of the state-machine invariant; the verified mutating
    /// calls preserve it, so on states produced by this library it returns
    /// true.
    pub fn validate(&self) -> (r: bool)
        requires
            self.bounded(),
        ensures
            r == self.invariant_holds(),
    {
        let n = self.expected_trades.len();
        let mut i: usize = 0;
        while i < n
            invariant
                n == self.expected_trades@.len(),
                0 <= i <= n,
                forall|k: int| 0 <= k < i ==> (#[trigger] self.expected_trades@[k]).wf(),
            decreases n - i,
        {
            let t = self.expected_trades[i];
            if !(0 <= t.implied_add.units && t.implied_add.units <= t.trade_sz.units) {
                proof {
                    assert(!self.expected_trades@[i as int].wf());
                    assert(!self.offsets_wf());
                }
                return false;
            }
            i = i + 1;
        }
        let removal = self.total_size_removal();
        if !(0 <= removal.units && removal.units <= self.diff_size.units) {
            return false;
        }
        if self.marked_for_deletion_at.is_some() && removal.units != 0 {
            return false;
        }
        true
    }
}

impl LevelTracker {
    /// Fold a trade observation into the buffer, merging it into the last
    /// entry when the timestamps coincide.
    pub fn append_new_trade(&mut self, trade: TimestampedOffset)
        requires
            old(self).offsets_wf(),
            trade.wf(),
            trade_sz_sum(old(self).expected_trades@) + trade.trade_sz.units <= MAX_SIZE_UNITS,
        ensures
            final(self).expected_trades@ == merge_last(old(self).expected_trades@, trade),
            final(self).diff_size == old(self).diff_size,
            final(self).last_ts == old(self).last_ts,
            final(self).marked_for_deletion_at == old(self).marked_for_deletion_at,
    {
        let ghost s = self.expected_trades@;
        let n = self.expected_trades.len();
        if n > 0 {
            let last = self.expected_trades[n - 1];
            if last.time == trade.time {
                proof {
                    lemma_trade_sz_le_sum(s, n - 1);
                    lemma_removal_sum_bounds(s, Option::None);
                    assert(s[n - 1] == s.last());
                }
                let merged = TimestampedOffset {
                    time: trade.time,
                    trade_sz: Size { units: last.trade_sz.units + trade.trade_sz.units },
                    implied_add: Size { units: last.implied_add.units + trade.implied_add.units },
                };
                let _ = self.expected_trades.pop();
                self.expected_trades.push(merged);
                proof {
                    assert(self.expected_trades@ =~= merge_last(s, trade));
                }
                return ;
            }
        }
        self.expected_trades.push(trade);
        proof {
            assert(self.expected_trades@ =~= merge_last(s, trade));
        }
    }

    /// Reconcile trade volume in excess of the depth-feed size.
    ///
    /// For a positive surplus this emits a `Cancel` of the part known to be
    /// a real cancellation (`size_to_cancel_first`), an `Add` of the full
    /// surplus — liquidity that must have existed unseen — and a `Cancel` of
    /// the remainder, while absorbing the surplus into the buffered trades'
    /// `implied_add` oldest-first. A surplus that cannot be fully absorbed
    /// signals an upstream protocol violation and is excluded by contract.
    /// A non-positive surplus leaves the state and the events untouched.
    pub fn account_for_surplus_trades_at(
        &mut self,
        surplus_traded: Size,
        size_to_cancel_first: Size,
        events: &mut Vec<LevelEvent>,
    )
        requires
            old(self).offsets_wf(),
            trade_sz_sum(old(self).expected_trades@) <= MAX_SIZE_UNITS,
            0 <= size_to_cancel_first.units <= MAX_SIZE_UNITS,
            surplus_traded.units <= removal_sum(old(self).expected_trades@, Option::None),
            -(2 * MAX_SIZE_UNITS) <= surplus_traded.units,
        ensures
            final(self).expected_trades@ == absorb_surplus_front(
                old(self).expected_trades@,
                surplus_traded.units as int,
            ).0,
            final(self).diff_size == old(self).diff_size,
            final(self).last_ts == old(self).last_ts,
            final(self).marked_for_deletion_at == old(self).marked_for_deletion_at,
            final(events)@ == old(events)@ + reconcile_events(
                surplus_traded.units as int,
                size_to_cancel_first.units as int,
            ),
            surplus_traded.units > 0 ==> removal_sum(final(self).expected_trades@, Option::None)
                == removal_sum(old(self).expected_trades@, Option::None) - surplus_traded.units,
            surplus_traded.units <= 0 ==> final(self).expected_trades@ == old(
                self,
            ).expected_trades@ && final(events)@ == old(events)@,
    {
        let ghost s0 = self.expected_trades@;
        let surplus0 = surplus_traded.units;
        proof {
            lemma_removal_sum_bounds(s0, Option::None);
            lemma_absorb_front(s0, surplus0 as int);
        }
        if surplus0 > 0 {
            // First, cancel off the volume before the add, since it is known
            // to be early and part of the diff.
            let should_cancel_later: i128;
            if size_to_cancel_first.units > 0 {
                let diff = surplus0 - size_to_cancel_first.units;
                let remains: i128 = if diff > 0 {
                    diff
                } else {
                    0
                };
                let can_cancel: i128 = if surplus0 < size_to_cancel_first.units {
                    surplus0
                } else {
                    size_to_cancel_first.units
                };
                events.push(LevelEvent::Cancel { size: Size { units: can_cancel } });
                should_cancel_later = remains;
            } else {
                should_cancel_later = surplus0;
            }
            events.push(LevelEvent::Add { size: surplus_traded });
            // Re-cancel the volume seen afterwards: it has to come after the
            // add.
            if should_cancel_later > 0 {
                events.push(LevelEvent::Cancel { size: Size { units: should_cancel_later } });
            }
            proof {
                assert(events@ =~= old(events)@ + reconcile_events(
                    surplus0 as int,
                    size_to_cancel_first.units as int,
                ));
            }
            let mut surplus: i128 = surplus0;
            let mut i: usize = 0;
            proof {
                assert(s0.skip(0) =~= s0);
                assert(self.expected_trades@.take(0) + absorb_surplus_front(s0, surplus0 as int).0
                    =~= absorb_surplus_front(s0, surplus0 as int).0);
            }
            while i < self.expected_trades.len() && surplus > 0
                invariant
                    0 <= i <= self.expected_trades@.len(),
                    self.expected_trades@.len() == s0.len(),
                    offsets_ok(s0),
                    offsets_ok(self.expected_trades@),
                    trade_sz_sum(s0) <= MAX_SIZE_UNITS,
                    -(2 * MAX_SIZE_UNITS) <= surplus <= surplus0,
                    surplus0 <= MAX_SIZE_UNITS,
                    self.expected_trades@.skip(i as int) =~= s0.skip(i as int),
                    absorb_surplus_front(s0, surplus0 as int).0 =~= self.expected_trades@.take(
                        i as int,
                    ) + absorb_surplus_front(s0.skip(i as int), surplus as int).0,
                    absorb_surplus_front(s0, surplus0 as int).1 == absorb_surplus_front(
                        s0.skip(i as int),
                        surplus as int,
                    ).1,
                    self.diff_size == old(self).diff_size,
                    self.last_ts == old(self).last_ts,
                    self.marked_for_deletion_at == old(self).marked_for_deletion_at,
                decreases self.expected_trades@.len() - i,
            {
                let ghost pre_trades = self.expected_trades@;
                let ghost rest = s0.skip(i as int);
                let t = self.expected_trades[i];
                proof {
                    assert(rest[0] == s0[i as int]);
                    assert(pre_trades[i as int] == rest[0]);
                    assert(s0[i as int].wf());
                    lemma_trade_sz_le_sum(s0, i as int);
                }
                let possible_add = t.trade_sz.units - t.implied_add.units;
                let absorbed: i128 = if possible_add < surplus {
                    possible_add
                } else {
                    surplus
                };
                self.expected_trades[i] = TimestampedOffset {
                    time: t.time,
                    trade_sz: t.trade_sz,
                    implied_add: Size { units: t.implied_add.units + absorbed },
                };
                proof {
                    let t2 = TimestampedOffset {
                        time: t.time,
                        trade_sz: t.trade_sz,
                        implied_add: size_from(
                            t.implied_add.units + vstd::math::min(possible_add as int, surplus as int),
                        ),
                    };
                    assert(absorbed as int == vstd::math::min(
                        possible_add as int,
                        surplus as int,
                    ));
                    assert(0 <= t.implied_add.units + absorbed <= t.trade_sz.units);
                    assert(self.expected_trades@[i as int] == t2);
                    assert forall|k: int| 0 <= k < self.expected_trades@.skip(i + 1 as int).len()
                        implies #[trigger] self.expected_trades@.skip(i + 1 as int)[k] == s0.skip(
                        i + 1 as int,
                    )[k] by {
                        assert(self.expected_trades@.skip(i + 1 as int)[k]
                            == self.expected_trades@[k + i + 1]);
                        assert(self.expected_trades@[k + i + 1] == pre_trades[k + i + 1]);
                        assert(pre_trades.skip(i as int)[k + 1] == pre_trades[k + i + 1]);
                        assert(s0.skip(i as int)[k + 1] == s0[k + i + 1]);
                        assert(pre_trades.skip(i as int) =~= s0.skip(i as int));
                    }
                    assert(self.expected_trades@.skip(i + 1 as int) =~= s0.skip(i + 1 as int));
                    assert(rest.skip(1) =~= s0.skip(i + 1 as int));
                    let rec_next = absorb_surplus_front(
                        s0.skip(i + 1 as int),
                        surplus - possible_add as int,
                    );
                    assert(absorb_surplus_front(rest, surplus as int) == (
                        seq![t2] + rec_next.0,
                        rec_next.1,
                    ));
                    assert(self.expected_trades@.take(i + 1 as int) =~= self.expected_trades@.take(
                        i as int,
                    ) + seq![t2]);
                    assert(self.expected_trades@.take(i as int) =~= pre_trades.take(i as int));
                    assert((self.expected_trades@.take(i as int) + seq![t2]) + rec_next.0
                        =~= self.expected_trades@.take(i as int) + (seq![t2] + rec_next.0));
                }
                surplus = surplus - possible_add;
                i = i + 1;
            }
            proof {
                if surplus <= 0 {
                    assert(absorb_surplus_front(s0.skip(i as int), surplus as int)
                        == (s0.skip(i as int), surplus as int));
                } else {
                    assert(i == self.expected_trades@.len());
                    assert(s0.skip(i as int) =~= Seq::<TimestampedOffset>::empty());
                    assert(absorb_surplus_front(s0.skip(i as int), surplus as int)
                        == (Seq::<TimestampedOffset>::empty(), surplus as int));
                }
                assert(self.expected_trades@.take(i as int) + self.expected_trades@.skip(i as int)
                    =~= self.expected_trades@);
                // a surplus within the buffered unexplained volume is always
                // fully absorbed
                assert(absorb_surplus_front(s0, surplus0 as int).1 <= 0);
                assert(self.expected_trades@ =~= absorb_surplus_front(s0, surplus0 as int).0);
            }
        } else {
            proof {
                assert(events@ =~= old(events)@ + reconcile_events(
                    surplus0 as int,
                    size_to_cancel_first.units as int,
                ));
            }
        }
    }

    /// Remove the buffered trades with time at or before `diff_time` and
    /// report their total unexplained removal.
    fn drain_stale(&mut self, diff_time: u64) -> (drained_removal: Size)
        requires
            old(self).offsets_wf(),
            times_sorted(old(self).expected_trades@),
            trade_sz_sum(old(self).expected_trades@) <= MAX_SIZE_UNITS,
        ensures
            ({
                let k = split_point(old(self).expected_trades@, diff_time);
                &&& final(self).expected_trades@ == old(self).expected_trades@.skip(k)
                &&& drained_removal.units == removal_sum(
                    old(self).expected_trades@.take(k),
                    Option::None,
                )
                &&& 0 <= drained_removal.units <= MAX_SIZE_UNITS
            }),
            final(self).diff_size == old(self).diff_size,
            final(self).last_ts == old(self).last_ts,
            final(self).marked_for_deletion_at == old(self).marked_for_deletion_at,
    {
        let ghost s0 = self.expected_trades@;
        proof {
            lemma_split_point(s0, diff_time);
        }
        let n = self.expected_trades.len();
        let mut sum: i128 = 0;
        let mut k: usize = 0;
        while k < n && self.expected_trades[k].time <= diff_time
            invariant
                0 <= k <= n,
                n == self.expected_trades@.len(),
                self.expected_trades@ == s0,
                offsets_ok(s0),
                trade_sz_sum(s0) <= MAX_SIZE_UNITS,
                forall|j: int| 0 <= j < k ==> #[trigger] s0[j].time <= diff_time,
                sum == removal_sum(s0.take(k as int), Option::None),
            decreases n - k,
        {
            proof {
                lemma_sums_take_step(s0, k as int, Option::None);
                assert(offsets_ok(s0.take(k + 1 as int))) by {
                    assert(forall|j: int|
                        0 <= j < s0.take(k + 1 as int).len() ==> s0.take(k + 1 as int)[j]
                            == #[trigger] s0[j]);
                }
                lemma_removal_sum_bounds(s0.take(k + 1 as int), Option::None);
                lemma_sums_split(s0, k + 1 as int, Option::None);
                assert(offsets_ok(s0.skip(k + 1 as int))) by {
                    assert(forall|j: int|
                        0 <= j < s0.skip(k + 1 as int).len() ==> s0.skip(k + 1 as int)[j]
                            == #[trigger] s0[j + k + 1]);
                }
                lemma_removal_sum_bounds(s0.skip(k + 1 as int), Option::None);
            }
            let t = self.expected_trades[k];
            sum = sum + (t.trade_sz.units - t.implied_add.units);
            k = k + 1;
        }
        proof {
            // both the loop exit and `split_point` characterize the same
            // boundary of a sorted buffer
            let sp = split_point(s0, diff_time);
            if (k as int) < sp {
                assert(s0[k as int].time <= diff_time);
                assert(false);
            }
            if (k as int) > sp {
                assert(s0[sp].time <= diff_time);
                assert(false);
            }
            assert(offsets_ok(s0.take(k as int))) by {
                assert(forall|j: int|
                    0 <= j < s0.take(k as int).len() ==> s0.take(k as int)[j] == #[trigger] s0[j]);
            }
            lemma_removal_sum_bounds(s0.take(k as int), Option::None);
            lemma_sums_split(s0, k as int, Option::None);
            assert(offsets_ok(s0.skip(k as int))) by {
                assert(forall|j: int|
                    0 <= j < s0.skip(k as int).len() ==> s0.skip(k as int)[j] == #[trigger] s0[j + k]);
            }
            lemma_removal_sum_bounds(s0.skip(k as int), Option::None);
        }
        let mut kept: Vec<TimestampedOffset> = Vec::new();
        let mut j: usize = k;
        while j < n
            invariant
                k <= j <= n,
                n == self.expected_trades@.len(),
                self.expected_trades@ == s0,
                kept@ =~= s0.subrange(k as int, j as int),
            decreases n - j,
        {
            kept.push(self.expected_trades[j]);
            proof {
                assert(kept@ =~= s0.subrange(k as int, j + 1 as int));
            }
            j = j + 1;
        }
        proof {
            assert(kept@ =~= s0.skip(k as int));
        }
        self.expected_trades = kept;
        Size { units: sum }
    }

    /// Absorb a depth-feed size increase into the buffered trades, most
    /// recent first, skipping entries strictly after a set deletion mark.
    /// Returns the surplus that remains.
    fn absorb_new_size_surplus(&mut self, surplus: i128) -> (remaining: i128)
        requires
            old(self).offsets_wf(),
            trade_sz_sum(old(self).expected_trades@) <= MAX_SIZE_UNITS,
            -(2 * MAX_SIZE_UNITS) <= surplus <= 2 * MAX_SIZE_UNITS,
        ensures
            final(self).expected_trades@ == absorb_surplus_back(
                old(self).expected_trades@,
                surplus as int,
                old(self).marked_for_deletion_at,
            ).0,
            remaining as int == absorb_surplus_back(
                old(self).expected_trades@,
                surplus as int,
                old(self).marked_for_deletion_at,
            ).1,
            final(self).diff_size == old(self).diff_size,
            final(self).last_ts == old(self).last_ts,
            final(self).marked_for_deletion_at == old(self).marked_for_deletion_at,
    {
        let ghost s0 = self.expected_trades@;
        let ghost mark = self.marked_for_deletion_at;
        let mut surplus_left: i128 = surplus;
        let mut j: usize = self.expected_trades.len();
        proof {
            assert(s0.take(j as int) =~= s0);
            assert(s0.skip(j as int) =~= Seq::<TimestampedOffset>::empty());
            assert(absorb_surplus_back(s0, surplus as int, mark).0 =~= absorb_surplus_back(
                s0.take(j as int),
                surplus as int,
                mark,
            ).0 + self.expected_trades@.skip(j as int));
        }
        while j > 0 && surplus_left > 0
            invariant
                0 <= j <= s0.len(),
                self.expected_trades@.len() == s0.len(),
                offsets_ok(s0),
                offsets_ok(self.expected_trades@),
                trade_sz_sum(s0) <= MAX_SIZE_UNITS,
                -(3 * MAX_SIZE_UNITS) <= surplus_left <= 2 * MAX_SIZE_UNITS,
                self.expected_trades@.take(j as int) =~= s0.take(j as int),
                absorb_surplus_back(s0, surplus as int, mark).0 =~= absorb_surplus_back(
                    s0.take(j as int),
                    surplus_left as int,
                    mark,
                ).0 + self.expected_trades@.skip(j as int),
                absorb_surplus_back(s0, surplus as int, mark).1 == absorb_surplus_back(
                    s0.take(j as int),
                    surplus_left as int,
                    mark,
                ).1,
                self.diff_size == old(self).diff_size,
                self.last_ts == old(self).last_ts,
                self.marked_for_deletion_at == mark,
                mark == old(self).marked_for_deletion_at,
            decreases j,
        {
            let ghost pre_trades = self.expected_trades@;
            j = j - 1;
            let t = self.expected_trades[j];
            proof {
                assert(pre_trades[j as int] == s0[j as int]);
                assert(s0[j as int].wf());
                lemma_trade_sz_le_sum(s0, j as int);
                assert(s0.take(j + 1 as int).last() == s0[j as int]);
                assert(s0.take(j + 1 as int).drop_last() =~= s0.take(j as int));
            }
            let skip_entry = match self.marked_for_deletion_at {
                Option::Some(m) => m < t.time,
                Option::None => false,
            };
            if !skip_entry {
                let reduced = t.implied_add.units - surplus_left;
                let new_implied: i128 = if reduced > 0 {
                    reduced
                } else {
                    0
                };
                let t2 = TimestampedOffset {
                    time: t.time,
                    trade_sz: t.trade_sz,
                    implied_add: Size { units: new_implied },
                };
                self.expected_trades[j] = t2;
                proof {
                    assert(new_implied as int == vstd::math::max(
                        t.implied_add.units - surplus_left as int,
                        0,
                    ));
                    let rec = absorb_surplus_back(
                        s0.take(j as int),
                        surplus_left - t.implied_add.units as int,
                        mark,
                    );
                    assert(absorb_surplus_back(s0.take(j + 1 as int), surplus_left as int, mark).0
                        == rec.0.push(t2));
                    assert(self.expected_trades@.take(j as int) =~= s0.take(j as int));
                    assert(self.expected_trades@.skip(j as int) =~= seq![t2]
                        + pre_trades.skip(j + 1 as int));
                    assert(rec.0.push(t2) + pre_trades.skip(j + 1 as int) =~= rec.0 + (seq![t2]
                        + pre_trades.skip(j + 1 as int)));
                }
                surplus_left = surplus_left - t.implied_add.units;
            } else {
                proof {
                    let rec = absorb_surplus_back(s0.take(j as int), surplus_left as int, mark);
                    assert(absorb_surplus_back(s0.take(j + 1 as int), surplus_left as int, mark).0
                        == rec.0.push(t));
                    assert(self.expected_trades@.skip(j as int) =~= seq![t] + self.expected_trades@.skip(
                        j + 1 as int,
                    ));
                    assert(rec.0.push(t) + self.expected_trades@.skip(j + 1 as int) =~= rec.0 + (
                    seq![t] + self.expected_trades@.skip(j + 1 as int)));
                }
            }
        }
        proof {
            if surplus_left <= 0 {
                assert(absorb_surplus_back(s0.take(j as int), surplus_left as int, mark) == (
                    s0.take(j as int),
                    surplus_left as int,
                ));
            } else {
                assert(j == 0);
                assert(s0.take(0) =~= Seq::<TimestampedOffset>::empty());
                assert(absorb_surplus_back(
                    Seq::<TimestampedOffset>::empty(),
                    surplus_left as int,
                    mark,
                ) == (Seq::<TimestampedOffset>::empty(), surplus_left as int));
            }
            assert(self.expected_trades@.take(j as int) + self.expected_trades@.skip(j as int)
                =~= self.expected_trades@);
            assert(self.expected_trades@ =~= absorb_surplus_back(s0, surplus as int, mark).0);
        }
        surplus_left
    }

    /// Whether a deletion mark at `delete_time` is fresh information.
    pub open spec fn mark_accepted(self, delete_time: u64) -> bool {
        delete_time > self.spec_last_size_time()
    }

    /// Every buffered trade strictly after `delete_time` is already fully
    /// explained by synthesized liquidity. A mark that arrives while a later
    /// trade still awaits reconciliation would leave the tracker in a state
    /// from which a later depth diff must abort; such calls are excluded.
    pub open spec fn mark_compatible(self, delete_time: u64) -> bool {
        forall|i: int|
            0 <= i < self.expected_trades@.len() && #[trigger] self.expected_trades@[i].time
                > delete_time ==> self.expected_trades@[i].removal() == 0
    }

    /// Mark the level as presumed gone as of `delete_time`.
    ///
    /// A time not after `last_size_time()` is stale: nothing changes and
    /// nothing is emitted. An accepted mark records the time, reconciles any
    /// surplus trade volume, and emits one trailing `Cancel` of whatever was
    /// still resting, driving the inferred size to zero.
    pub fn mark_for_deletion(&mut self, delete_time: u64, events: &mut Vec<LevelEvent>)
        requires
            old(self).wf(),
            old(self).marked_for_deletion_at is None && old(self).mark_accepted(delete_time)
                ==> old(self).mark_compatible(delete_time),
        ensures
            final(self).wf(),
            !old(self).mark_accepted(delete_time) ==> final(self).expected_trades@ == old(
                self,
            ).expected_trades@ && final(self).marked_for_deletion_at == old(
                self,
            ).marked_for_deletion_at && final(events)@ == old(events)@,
            old(self).mark_accepted(delete_time) ==> final(self).expected_trades@ == old(
                self,
            ).expected_trades@ && final(self).marked_for_deletion_at == Option::Some(delete_time),
            old(self).mark_accepted(delete_time) ==> final(events)@ == old(events)@
                + net_change_events(-old(self).spec_inferred_size()),
            final(self).diff_size == old(self).diff_size,
            final(self).last_ts == old(self).last_ts,
            old(self).mark_accepted(delete_time) ==> crate::events::prefix_nonneg(
                old(self).spec_inferred_size(),
                net_change_events(-old(self).spec_inferred_size()),
            ),
            old(self).mark_accepted(delete_time) ==> crate::events::seq_delta(
                net_change_events(-old(self).spec_inferred_size()),
            ) == final(self).spec_inferred_size() - old(self).spec_inferred_size(),
            old(self).mark_accepted(delete_time) ==> crate::events::tracker_events_ok(
                net_change_events(-old(self).spec_inferred_size()),
            ),
    {
        if delete_time <= self.last_size_time() {
            return ;
        }
        let ghost pre = *self;
        let current_inferred_size = self.inferred_size();
        proof {
            lemma_removal_sum_bounds(pre.expected_trades@, pre.marked_for_deletion_at);
        }
        self.marked_for_deletion_at = Option::Some(delete_time);
        let size_to_cancel_first = current_inferred_size;
        let total_size_remove = self.total_size_removal();
        proof {
            match pre.marked_for_deletion_at {
                Option::Some(m0) => {
                    // every trade relevant under the new, later mark was
                    // relevant under the old one, and those are all settled
                    lemma_removal_sum_mark_mono(
                        pre.expected_trades@,
                        Option::Some(m0),
                        Option::Some(delete_time),
                    );
                    lemma_removal_sum_bounds(pre.expected_trades@, Option::Some(delete_time));
                },
                Option::None => {
                    // mark compatibility says the relevant removals are zero
                    lemma_removal_sum_zero(pre.expected_trades@, Option::Some(delete_time));
                },
            }
            assert(total_size_remove.units == 0);
        }
        // If the level is now too small for the buffered trades, regenerate
        // synthetic adds and cancels; with a settled mark the surplus is
        // never positive, so this is a no-op kept for its accounting shape.
        let surplus_traded = total_size_remove.units - self.diff_size.units;
        self.account_for_surplus_trades_at(
            Size { units: surplus_traded },
            size_to_cancel_first,
            events,
        );
        let new_inferred_size = self.inferred_size();
        let delta = new_inferred_size.units - current_inferred_size.units;
        if delta > 0 {
            events.push(LevelEvent::Add { size: Size { units: delta } });
        } else if delta < 0 {
            events.push(LevelEvent::Cancel { size: Size { units: -delta } });
        }
        proof {
            assert(events@ =~= old(events)@ + net_change_events(-pre.spec_inferred_size()));
            lemma_net_change_events(-pre.spec_inferred_size(), pre.spec_inferred_size());
        }
    }

    /// The deletion mark after a diff at `diff_time`: a mark at or before the
    /// diff is superseded and cleared.
    pub open spec fn diff_mark(self, diff_time: u64) -> Option<u64> {
        match self.marked_for_deletion_at {
            Option::Some(m) => if m <= diff_time {
                Option::None
            } else {
                Option::Some(m)
            },
            Option::None => Option::None,
        }
    }

    /// The buffered trades a diff at `diff_time` keeps: those strictly newer
    /// than the diff.
    pub open spec fn diff_kept(self, diff_time: u64) -> Seq<TimestampedOffset> {
        self.expected_trades@.skip(split_point(self.expected_trades@, diff_time))
    }

    /// Unexplained removal drained with the stale trades; it counts as
    /// surplus only while a deletion mark is still in force.
    pub open spec fn diff_drained_surplus(self, diff_time: u64) -> int {
        if self.diff_mark(diff_time) is Some {
            removal_sum(
                self.expected_trades@.take(split_point(self.expected_trades@, diff_time)),
                Option::None,
            )
        } else {
            0
        }
    }

    /// The size increase left to explain after comparing the new absolute
    /// size against the previous one.
    pub open spec fn diff_surplus_new_size(self, new_size: Size, diff_time: u64) -> int {
        self.diff_drained_surplus(diff_time) + new_size.units - self.diff_size.units
    }

    /// The buffer and leftover surplus after absorbing the size increase,
    /// most recent trade first.
    pub open spec fn diff_absorbed(self, new_size: Size, diff_time: u64) -> (
        Seq<TimestampedOffset>,
        int,
    ) {
        absorb_surplus_back(
            self.diff_kept(diff_time),
            self.diff_surplus_new_size(new_size, diff_time),
            self.diff_mark(diff_time),
        )
    }

    /// Leftover increase while marked for deletion documents liquidity that
    /// must have existed and been withdrawn: an `Add` immediately re-taken by
    /// a `Cancel`.
    pub open spec fn diff_pair_events(self, new_size: Size, diff_time: u64) -> Seq<LevelEvent> {
        let sns = self.diff_absorbed(new_size, diff_time).1;
        if sns > 0 && self.diff_mark(diff_time) is Some {
            seq![
                LevelEvent::Add { size: size_from(sns) },
                LevelEvent::Cancel { size: size_from(sns) },
            ]
        } else {
            Seq::empty()
        }
    }

    /// The part of a net decrease known to be a real cancellation, reserved
    /// to be emitted before any compensating add.
    pub open spec fn diff_cancel_first(self, new_size: Size) -> int {
        vstd::math::min(
            vstd::math::max(self.diff_size.units - new_size.units, 0),
            self.spec_inferred_size(),
        )
    }

    /// Trade volume now exceeding the new absolute size, to be reconciled by
    /// `account_for_surplus_trades_at`.
    pub open spec fn diff_surplus_traded(self, new_size: Size, diff_time: u64) -> int {
        removal_sum(self.diff_absorbed(new_size, diff_time).0, self.diff_mark(diff_time))
            - new_size.units
    }

    /// The buffer a diff leaves behind.
    pub open spec fn diff_final_trades(self, new_size: Size, diff_time: u64) -> Seq<
        TimestampedOffset,
    > {
        absorb_surplus_front(
            self.diff_absorbed(new_size, diff_time).0,
            self.diff_surplus_traded(new_size, diff_time),
        ).0
    }

    /// The inferred size after a diff.
    pub open spec fn diff_new_inferred(self, new_size: Size, diff_time: u64) -> int {
        if self.diff_mark(diff_time) is Some {
            0
        } else {
            new_size.units - removal_sum(
                self.diff_final_trades(new_size, diff_time),
                self.diff_mark(diff_time),
            )
        }
    }

    /// Everything a diff emits: the add/re-cancel pair for surplus increase
    /// under a mark, the surplus-trade reconciliation, and one trailing event
    /// for the net inferred-size change.
    pub open spec fn diff_events(self, new_size: Size, diff_time: u64) -> Seq<LevelEvent> {
        self.diff_pair_events(new_size, diff_time) + reconcile_events(
            self.diff_surplus_traded(new_size, diff_time),
            self.diff_cancel_first(new_size),
        ) + net_change_events(
            self.diff_new_inferred(new_size, diff_time) - self.spec_inferred_size(),
        )
    }

    /// Apply one authoritative resize from the depth feed.
    ///
    /// A deletion mark at or before `diff_time` is superseded and cleared.
    /// Trades at or before the diff are dropped — under a still-standing mark
    /// their unexplained removal is drained as surplus. A size increase is
    /// first absorbed into the synthetic liquidity of the remaining buffered
    /// trades; under a mark, any leftover increase is emitted as an `Add`
    /// immediately re-taken by a `Cancel`. Trade volume now exceeding the new
    /// size is reconciled, and one trailing event reports the net change of
    /// the inferred size. Replaying the emitted events never drives the
    /// level negative, and their net effect equals the inferred-size change.
    #[verifier::rlimit(100)]
    pub fn new_diff_size(&mut self, new_size: Size, diff_time: u64, events: &mut Vec<LevelEvent>)
        requires
            old(self).wf(),
            0 <= new_size.units <= MAX_SIZE_UNITS,
        ensures
            final(self).wf(),
            final(self).expected_trades@ == old(self).diff_final_trades(new_size, diff_time),
            final(self).diff_size == new_size,
            final(self).last_ts == if diff_time > old(self).last_ts {
                diff_time
            } else {
                old(self).last_ts
            },
            final(self).marked_for_deletion_at == old(self).diff_mark(diff_time),
            final(events)@ == old(events)@ + old(self).diff_events(new_size, diff_time),
            crate::events::prefix_nonneg(
                old(self).spec_inferred_size(),
                old(self).diff_events(new_size, diff_time),
            ),
            crate::events::seq_delta(old(self).diff_events(new_size, diff_time))
                == final(self).spec_inferred_size() - old(self).spec_inferred_size(),
            crate::events::tracker_events_ok(old(self).diff_events(new_size, diff_time)),
    {
        let ghost pre = *self;
        let current_inferred_size = self.inferred_size();
        proof {
            lemma_removal_sum_bounds(pre.expected_trades@, pre.marked_for_deletion_at);
            lemma_split_point(pre.expected_trades@, diff_time);
        }
        // a mark at or before this diff is superseded by it
        let clear_mark = match self.marked_for_deletion_at {
            Option::Some(m) => m <= diff_time,
            Option::None => false,
        };
        if clear_mark {
            self.marked_for_deletion_at = Option::None;
        }
        proof {
            assert(self.marked_for_deletion_at == pre.diff_mark(diff_time));
        }
        let ghost mark1 = pre.diff_mark(diff_time);
        let ghost k = split_point(pre.expected_trades@, diff_time);
        let ghost kept = pre.diff_kept(diff_time);
        // trades at or before the diff are settled by it; while marked, what
        // they left unexplained becomes surplus to re-emit
        let drained = self.drain_stale(diff_time);
        let surplus_size_from_trades: i128 = if self.marked_for_deletion_at.is_some() {
            drained.units
        } else {
            0
        };
        proof {
            assert(surplus_size_from_trades as int == pre.diff_drained_surplus(diff_time));
            lemma_sums_split(pre.expected_trades@, k, Option::None);
            assert(offsets_ok(kept)) by {
                assert(forall|i: int|
                    0 <= i < kept.len() ==> kept[i] == #[trigger] pre.expected_trades@[i + k]);
            }
            assert(offsets_ok(pre.expected_trades@.take(k))) by {
                assert(forall|i: int|
                    0 <= i < pre.expected_trades@.take(k).len() ==> pre.expected_trades@.take(k)[i]
                        == #[trigger] pre.expected_trades@[i]);
            }
            lemma_removal_sum_bounds(pre.expected_trades@.take(k), Option::None);
            lemma_removal_sum_bounds(kept, Option::None);
        }
        // discount the size increase against liquidity we already synthesized
        let surplus_new_size = surplus_size_from_trades + new_size.units - self.diff_size.units;
        let surplus_left = self.absorb_new_size_surplus(surplus_new_size);
        let ghost trades2 = pre.diff_absorbed(new_size, diff_time).0;
        proof {
            assert(self.expected_trades@ == trades2);
            assert(surplus_left as int == pre.diff_absorbed(new_size, diff_time).1);
            lemma_absorb_back(kept, surplus_new_size as int, mark1);
        }
        if surplus_left > 0 && self.marked_for_deletion_at.is_some() {
            events.push(LevelEvent::Add { size: Size { units: surplus_left } });
            events.push(LevelEvent::Cancel { size: Size { units: surplus_left } });
        }
        proof {
            assert(events@ =~= old(events)@ + pre.diff_pair_events(new_size, diff_time));
        }
        let diff_decrease = self.diff_size.units - new_size.units;
        let size_to_cancel_first: i128 = if diff_decrease < 0 {
            0
        } else if diff_decrease > current_inferred_size.units {
            current_inferred_size.units
        } else {
            diff_decrease
        };
        proof {
            assert(size_to_cancel_first as int == pre.diff_cancel_first(new_size));
        }
        self.diff_size = new_size;
        let total_size_remove = self.total_size_removal();
        proof {
            lemma_removal_sum_bounds(trades2, mark1);
        }
        let surplus_traded = total_size_remove.units - self.diff_size.units;
        proof {
            assert(surplus_traded as int == pre.diff_surplus_traded(new_size, diff_time));
            if mark1 is Some {
                // with the mark still standing, the kept relevant trades were
                // already settled and the absorption left them untouched, so
                // there is never a positive surplus here
                let m = mark1->Some_0;
                lemma_removal_sum_zero(pre.expected_trades@, Option::Some(m));
                assert(removal_sum(pre.expected_trades@, Option::Some(m)) == 0);
                assert(forall|i: int|
                    0 <= i < kept.len() && relevant_at(#[trigger] kept[i], mark1) ==> kept[i].removal()
                        == 0) by {
                    assert(forall|i: int|
                        0 <= i < kept.len() ==> kept[i] == #[trigger] pre.expected_trades@[i + k]);
                }
                lemma_removal_sum_zero(kept, mark1);
                assert(removal_sum(kept, mark1) == 0);
                lemma_removal_sum_pointwise(kept, trades2, mark1);
                assert(removal_sum(trades2, mark1) == 0);
                assert(surplus_traded <= 0);
            }
        }
        self.account_for_surplus_trades_at(
            Size { units: surplus_traded },
            Size { units: size_to_cancel_first },
            events,
        );
        proof {
            assert(self.expected_trades@ == pre.diff_final_trades(new_size, diff_time));
            lemma_absorb_front(trades2, surplus_traded as int);
        }
        let new_inferred_size = self.inferred_size();
        proof {
            assert(new_inferred_size.units as int == pre.diff_new_inferred(new_size, diff_time));
        }
        let delta = new_inferred_size.units - current_inferred_size.units;
        if delta > 0 {
            events.push(LevelEvent::Add { size: Size { units: delta } });
        } else if delta < 0 {
            events.push(LevelEvent::Cancel { size: Size { units: -delta } });
        }
        if diff_time > self.last_ts {
            self.last_ts = diff_time;
        }
        proof {
            let trades3 = pre.diff_final_trades(new_size, diff_time);
            let ci = pre.spec_inferred_size();
            let new_inf = pre.diff_new_inferred(new_size, diff_time);
            let pair = pre.diff_pair_events(new_size, diff_time);
            let recon = reconcile_events(
                pre.diff_surplus_traded(new_size, diff_time),
                pre.diff_cancel_first(new_size),
            );
            let net = net_change_events(new_inf - ci);
            assert(events@ =~= old(events)@ + (pair + recon + net));
            // the tracker invariant is restored
            assert(final(self).balanced() && final(self).settled()) by {
                lemma_removal_sum_bounds(trades3, mark1);
                if mark1 is Some {
                    lemma_removal_sum_pointwise(trades2, trades3, mark1);
                } else {
                    if surplus_traded > 0 {
                        assert(removal_sum(trades3, Option::None) == removal_sum(
                            trades2,
                            Option::None,
                        ) - surplus_traded);
                    }
                }
            }
            assert(final(self).times_ok()) by {
                assert(forall|i: int|
                    0 <= i < trades3.len() ==> #[trigger] trades3[i].time == kept[i].time);
                assert(forall|i: int|
                    0 <= i < kept.len() ==> #[trigger] kept[i].time == pre.expected_trades@[i
                        + k].time);
            }
            assert(final(self).bounded());
            // the emitted events are net-neutral except for the trailing
            // inferred-size change, and never drive a replay negative
            crate::events::lemma_seq_delta_concat(pair, recon);
            crate::events::lemma_seq_delta_concat(pair + recon, net);
            lemma_reconcile_events(
                pre.diff_surplus_traded(new_size, diff_time),
                pre.diff_cancel_first(new_size),
                ci,
            );
            lemma_net_change_events(new_inf - ci, ci);
            if pair.len() > 0 {
                let sns = pre.diff_absorbed(new_size, diff_time).1;
                crate::events::lemma_seq_delta_two(
                    LevelEvent::Add { size: size_from(sns) },
                    LevelEvent::Cancel { size: size_from(sns) },
                );
                crate::events::lemma_prefix_nonneg_two(
                    ci,
                    LevelEvent::Add { size: size_from(sns) },
                    LevelEvent::Cancel { size: size_from(sns) },
                );
                assert(pair[0] == LevelEvent::Add { size: size_from(sns) });
                assert(pair[1] == LevelEvent::Cancel { size: size_from(sns) });
                assert(crate::events::tracker_events_ok(pair));
            } else {
                crate::events::lemma_prefix_nonneg_empty(ci);
                assert(crate::events::tracker_events_ok(pair));
            }
            crate::events::lemma_prefix_nonneg_concat(ci, pair, recon);
            crate::events::lemma_prefix_nonneg_concat(ci, pair + recon, net);
            crate::events::lemma_tracker_events_ok_concat(pair, recon);
            crate::events::lemma_tracker_events_ok_concat(pair + recon, net);
        }
    }

    /// Whether a trade print at `trade_time` is fresh information.
    pub open spec fn trade_accepted(self, trade_time: u64) -> bool {
        trade_time > self.last_ts
    }

    /// The liquidity that must be synthesized so an accepted trade of
    /// `trade_size` does not drive the level negative.
    pub open spec fn trade_add_amount(self, trade_size: Size) -> int {
        vstd::math::max(trade_size.units - self.spec_inferred_size(), 0)
    }

    /// The ledger entry an accepted trade buffers.
    pub open spec fn trade_offset(self, trade_size: Size, trade_time: u64) -> TimestampedOffset {
        TimestampedOffset {
            time: trade_time,
            trade_sz: trade_size,
            implied_add: size_from(self.trade_add_amount(trade_size)),
        }
    }

    /// The events an accepted trade emits: a synthetic `Add` when the trade
    /// exceeds the visible size, then always the `Take` itself.
    pub open spec fn on_trade_events(self, trade_size: Size, trade_idx: usize) -> Seq<LevelEvent> {
        let take = LevelEvent::Take {
            size: trade_size,
            visible_size_on_book: size_from(self.spec_inferred_size()),
            trade_idx,
        };
        if self.trade_add_amount(trade_size) > 0 {
            seq![LevelEvent::Add { size: size_from(self.trade_add_amount(trade_size)) }, take]
        } else {
            seq![take]
        }
    }

    /// Apply one trade print.
    ///
    /// A print not strictly after `last_ts` is stale: it is rejected with no
    /// state change and no events. An accepted print buffers the trade
    /// (merging same-time prints), emits a synthetic `Add` for any volume
    /// beyond the visible size, and emits the `Take`. Replaying the emitted
    /// events never drives the level negative, and their net effect equals
    /// the change in inferred size.
    pub fn on_trade(
        &mut self,
        trade_size: Size,
        trade_idx: usize,
        trade_time: u64,
        events: &mut Vec<LevelEvent>,
    ) -> (accepted: bool)
        requires
            old(self).wf(),
            old(self).trade_accepted(trade_time) ==> trade_size.units >= 0,
            old(self).trade_accepted(trade_time) ==> trade_sz_sum(old(self).expected_trades@)
                + trade_size.units <= MAX_SIZE_UNITS,
            old(self).trade_accepted(trade_time) && old(self).expected_trades@.len() > 0 ==> old(
                self,
            ).expected_trades@.last().time <= trade_time,
        ensures
            final(self).wf(),
            accepted == old(self).trade_accepted(trade_time),
            !accepted ==> final(self).expected_trades@ == old(self).expected_trades@
                && final(events)@ == old(events)@,
            accepted ==> final(self).expected_trades@ == merge_last(
                old(self).expected_trades@,
                old(self).trade_offset(trade_size, trade_time),
            ),
            final(self).diff_size == old(self).diff_size,
            final(self).last_ts == old(self).last_ts,
            final(self).marked_for_deletion_at == old(self).marked_for_deletion_at,
            accepted ==> final(events)@ == old(events)@ + old(self).on_trade_events(
                trade_size,
                trade_idx,
            ),
            accepted ==> crate::events::prefix_nonneg(
                old(self).spec_inferred_size(),
                old(self).on_trade_events(trade_size, trade_idx),
            ),
            accepted ==> crate::events::seq_delta(old(self).on_trade_events(trade_size, trade_idx))
                == final(self).spec_inferred_size() - old(self).spec_inferred_size(),
            accepted && trade_size.units > 0 ==> crate::events::tracker_events_ok(
                old(self).on_trade_events(trade_size, trade_idx),
            ),
    {
        if trade_time <= self.last_ts {
            return false;
        }
        let ghost pre = *self;
        let current_inferred_size = self.inferred_size();
        proof {
            lemma_removal_sum_bounds(pre.expected_trades@, pre.marked_for_deletion_at);
        }
        let trade = LevelEvent::Take {
            size: trade_size,
            visible_size_on_book: current_inferred_size,
            trade_idx,
        };
        if trade_size.units > current_inferred_size.units {
            let add_size = trade_size.units - current_inferred_size.units;
            let offset = TimestampedOffset::new(trade_time, trade_size, Size { units: add_size });
            proof {
                assert(offset == pre.trade_offset(trade_size, trade_time));
            }
            self.append_new_trade(offset);
            events.push(LevelEvent::Add { size: Size { units: add_size } });
            events.push(trade);
            proof {
                pre.lemma_on_trade_wf(trade_size, trade_time);
                let emitted = pre.on_trade_events(trade_size, trade_idx);
                assert(events@ =~= old(events)@ + emitted);
                crate::events::lemma_seq_delta_two(
                    LevelEvent::Add { size: Size { units: add_size } },
                    trade,
                );
                crate::events::lemma_prefix_nonneg_two(
                    pre.spec_inferred_size(),
                    LevelEvent::Add { size: Size { units: add_size } },
                    trade,
                );
                assert(emitted[0] == LevelEvent::Add { size: Size { units: add_size } });
                assert(emitted[1] == trade);
            }
        } else {
            let offset = TimestampedOffset::new(trade_time, trade_size, Size { units: 0 });
            proof {
                assert(offset == pre.trade_offset(trade_size, trade_time));
            }
            self.append_new_trade(offset);
            events.push(trade);
            proof {
                pre.lemma_on_trade_wf(trade_size, trade_time);
                let emitted = pre.on_trade_events(trade_size, trade_idx);
                assert(events@ =~= old(events)@ + emitted);
                crate::events::lemma_seq_delta_one(trade);
                crate::events::lemma_prefix_nonneg_one(pre.spec_inferred_size(), trade);
                assert(emitted[0] == trade);
            }
        }
        true
    }

    /// An accepted trade preserves the tracker invariant and moves the
    /// removal sum by the relevant part of the buffered entry.
    proof fn lemma_on_trade_wf(self, trade_size: Size, trade_time: u64)
        requires
            self.wf(),
            self.trade_accepted(trade_time),
            trade_size.units >= 0,
            trade_sz_sum(self.expected_trades@) + trade_size.units <= MAX_SIZE_UNITS,
            self.expected_trades@.len() > 0 ==> self.expected_trades@.last().time <= trade_time,
        ensures
            ({
                let t = self.trade_offset(trade_size, trade_time);
                let s2 = merge_last(self.expected_trades@, t);
                &&& offsets_ok(s2)
                &&& trade_sz_sum(s2) <= MAX_SIZE_UNITS
                &&& removal_sum(s2, self.marked_for_deletion_at) == removal_sum(
                    self.expected_trades@,
                    self.marked_for_deletion_at,
                ) + vstd::math::min(trade_size.units as int, self.spec_inferred_size())
                &&& 0 <= removal_sum(s2, self.marked_for_deletion_at) <= self.diff_size.units
                &&& (self.marked_for_deletion_at is Some ==> removal_sum(
                    s2,
                    self.marked_for_deletion_at,
                ) == 0)
                &&& forall|i: int, j: int|
                    0 <= i < j < s2.len() ==> #[trigger] s2[i].time < #[trigger] s2[j].time
                &&& forall|i: int| 0 <= i < s2.len() ==> #[trigger] s2[i].time > self.last_ts
            }),
    {
        let t = self.trade_offset(trade_size, trade_time);
        let s = self.expected_trades@;
        let s2 = merge_last(s, t);
        let mark = self.marked_for_deletion_at;
        lemma_removal_sum_bounds(s, mark);
        assert(t.wf());
        lemma_merge_last(s, t, mark);
        // the new entry's relevant removal is min(trade size, inferred size)
        let ci = self.spec_inferred_size();
        if relevant_at(t, mark) {
            match mark {
                Option::Some(m) => {
                    assert(ci == 0);
                    assert(t.removal() == 0);
                }
                Option::None => {
                    assert(t.removal() == trade_size.units - vstd::math::max(
                        trade_size.units - ci,
                        0,
                    ));
                }
            }
        } else {
            match mark {
                Option::Some(m) => {
                    assert(ci == 0);
                    assert(vstd::math::min(trade_size.units as int, ci)
                        == vstd::math::min(trade_size.units as int, 0));
                }
                Option::None => {}
            }
        }
        if mark is Some && !relevant_at(t, mark) {
            // an irrelevant entry leaves the relevant sum unchanged, and with
            // a mark set the inferred size is zero, so min(trade, 0) may be
            // nonzero only for a negative trade size, which is excluded
            assert(vstd::math::min(trade_size.units as int, ci) == 0);
        }
        if s.len() > 0 && s.last().time == t.time {
            // merged entry keeps the last entry's time, so ordering holds
            assert(forall|i: int| 0 <= i < s.len() ==> #[trigger] s2[i].time == s[i].time);
        } else {
            assert(forall|i: int| 0 <= i < s.len() ==> s2[i] == #[trigger] s[i]);
            assert(s2[s2.len() - 1] == t);
            assert(forall|i: int|
                0 <= i < s.len() ==> #[trigger] s[i].time < t.time) by {
                if s.len() > 0 {
                    assert(forall|i: int|
                        0 <= i < s.len() - 1 ==> #[trigger] s[i].time < s[s.len() - 1].time);
                }
            }
        }
    }
}

/// Invariant law: in every well-formed tracker state — the constructors
/// establish `wf` and every mutating call preserves it — the inferred size
/// and the relevant unexplained removal lie between zero and the depth-feed
/// size, and under a deletion mark the relevant removal is exactly zero.
pub proof fn lemma_tracker_invariant(t: LevelTracker)
    requires
        t.wf(),
    ensures
        0 <= t.spec_inferred_size() <= t.diff_size.units,
        0 <= t.spec_total_size_removal() <= t.diff_size.units,
        t.marked_for_deletion_at is Some ==> t.spec_total_size_removal() == 0,
{
}

/// Idempotence law for deletion marks: once a mark at `first` has been
/// accepted — so the tracker's `marked_for_deletion_at` is `Some(first)` — a
/// second `mark_for_deletion` at any time not after `first` is stale, and by
/// `mark_for_deletion`'s contract it changes nothing and emits nothing.
pub proof fn lemma_mark_idempotent(t: LevelTracker, first: u64, second: u64)
    requires
        t.marked_for_deletion_at == Option::<u64>::Some(first),
        second <= first,
    ensures
        !t.mark_accepted(second),
{
}

/// Idempotence law for trade prints: a trade at any time not after the
/// tracker's depth clock `last_ts` is stale, and by `on_trade`'s contract it
/// is rejected with no state change and no events. Neither `on_trade` nor a
/// rejected call ever advances that clock, and an accepted `new_diff_size`
/// at `diff_time` raises it to at least `diff_time`, so a second print not
/// after the clock stays rejected.
pub proof fn lemma_trade_idempotent(t: LevelTracker, trade_time: u64)
    requires
        trade_time <= t.last_ts,
    ensures
        !t.trade_accepted(trade_time),
{
}

impl Default for LevelTracker {
    /// A fresh tracker: zero size, no buffered trades, unmarked, clock at
    /// zero.
    fn default() -> (r: Self)
        ensures
            r.expected_trades@.len() == 0,
            r.diff_size.units == 0,
            r.last_ts == 0,
            r.marked_for_deletion_at is None,
            r.wf(),
    {
        Self::default_with_ts(0)
    }
}

} // verus!
