//! A book built from tracker events: replays per-side event batches into
//! sorted bid/ask levels, invoking a caller-supplied aggregator on level
//! lifecycle transitions.

use vstd::prelude::*;

use crate::events::LevelEvent;
use crate::size::{Size, MAX_SIZE_UNITS};

verus! {

/// The side of the book a level belongs to.
#[derive(Debug, Clone, Copy, PartialEq, Eq)]
pub enum Side {
    Buy,
    Sell,
}

/// A materialized price level.
#[derive(Debug, Clone, Copy, PartialEq, Eq)]
pub struct Level {
    pub price: Size,
    pub size: Size,
}

impl Level {
    pub fn new(price: Size, size: Size) -> (r: Level)
        ensures
            r.price == price,
            r.size == size,
    {
        Level { price, size }
    }
}

/// A materialized level together with its caller-chosen metadata.
#[derive(Debug, PartialEq, Eq)]
pub struct BookLevel<M> {
    pub price: Size,
    pub size: Size,
    pub metadata: M,
}

/// The best bid and offer.
#[derive(Debug, Clone, Copy, PartialEq, Eq)]
pub struct BBO {
    pub bid: Level,
    pub ask: Level,
    pub exchange_timestamp: Option<u64>,
}

/// One tracker event bound to its price level.
#[derive(Debug, Clone, Copy, PartialEq, Eq)]
pub struct BookEvent {
    pub price: Size,
    pub event: LevelEvent,
}

/// One update cycle's events: ordered bid events and ordered ask events.
#[derive(Debug, PartialEq, Eq)]
pub struct BookEvents {
    pub bid_events: Vec<BookEvent>,
    pub ask_events: Vec<BookEvent>,
}

impl Default for BookEvents {
    /// An empty batch.
    fn default() -> (r: Self)
        ensures
            r.bid_events@.len() == 0,
            r.ask_events@.len() == 0,
    {
        BookEvents { bid_events: Vec::new(), ask_events: Vec::new() }
    }
}

/// A pluggable capability that attaches caller-chosen per-level metadata,
/// driven purely by the event stream: `new_level` produces metadata when a
/// level is created, `update_level` sees every size change, and
/// `remove_level` receives the finalized level when it leaves the book.
pub trait EventLevelAggregator<M> {
    fn new_level(&mut self, level: Level, event: LevelEvent, side: Side) -> M;

    fn update_level(
        &mut self,
        metadata: &mut M,
        current_level: Level,
        new_size: Size,
        event: LevelEvent,
        side: Side,
    );

    fn remove_level(&mut self, old_level: BookLevel<M>, event: LevelEvent, side: Side);
}

/// The zero-cost default aggregator: unit metadata, no work.
impl EventLevelAggregator<()> for () {
    fn new_level(&mut self, _level: Level, _event: LevelEvent, _side: Side) {
    }

    fn update_level(
        &mut self,
        _metadata: &mut (),
        _current_level: Level,
        _new_size: Size,
        _event: LevelEvent,
        _side: Side,
    ) {
    }

    fn remove_level(&mut self, _old_level: BookLevel<()>, _event: LevelEvent, _side: Side) {
    }
}

/// One resting level inside the book.
struct BookEntry<M> {
    price: Size,
    size: Size,
    metadata: M,
}

/// The price-to-size map a side holds; a later duplicate would win, but a
/// well-formed side has unique prices.
spec fn entries_map<M>(s: Seq<BookEntry<M>>) -> Map<int, int>
    decreases s.len(),
{
    if s.len() == 0 {
        Map::empty()
    } else {
        entries_map(s.drop_last()).insert(
            s.last().price.units as int,
            s.last().size.units as int,
        )
    }
}

/// A well-formed side: prices strictly ordered (descending for bids,
/// ascending for asks), every size positive and within bounds.
spec fn side_wf<M>(s: Seq<BookEntry<M>>, descending: bool) -> bool {
    &&& forall|i: int, j: int|
        0 <= i < j < s.len() ==> (if descending {
            #[trigger] s[i].price.units > #[trigger] s[j].price.units
        } else {
            s[i].price.units < s[j].price.units
        })
    &&& forall|i: int| 0 <= i < s.len() ==> 0 < (#[trigger] s[i]).size.units <= MAX_SIZE_UNITS
}

/// All prices in the side differ (a consequence of either sorted order).
spec fn prices_unique<M>(s: Seq<BookEntry<M>>) -> bool {
    forall|i: int, j: int|
        0 <= i < j < s.len() ==> #[trigger] s[i].price.units != #[trigger] s[j].price.units
}

/// With unique prices, the side map contains exactly the entries' prices,
/// each bound to its entry's size.
proof fn lemma_entries_map_index<M>(s: Seq<BookEntry<M>>)
    requires
        prices_unique(s),
    ensures
        forall|p: int|
            #[trigger] entries_map(s).dom().contains(p) <==> exists|i: int|
                0 <= i < s.len() && (#[trigger] s[i]).price.units as int == p,
        forall|i: int|
            0 <= i < s.len() ==> entries_map(s)[(#[trigger] s[i]).price.units as int]
                == s[i].size.units as int,
    decreases s.len(),
{
    if s.len() > 0 {
        assert(forall|i: int| 0 <= i < s.drop_last().len() ==> s.drop_last()[i] == #[trigger] s[i]);
        assert(s.last() == s[s.len() - 1]);
        lemma_entries_map_index(s.drop_last());
        assert forall|i: int| 0 <= i < s.len() implies entries_map(s)[(#[trigger] s[i]).price.units
            as int] == s[i].size.units as int by {
            if i < s.len() - 1 {
                assert(s[i].price.units != s[s.len() - 1].price.units);
            }
        }
        assert forall|p: int| #[trigger] entries_map(s).dom().contains(p) implies exists|i: int|
            0 <= i < s.len() && (#[trigger] s[i]).price.units as int == p by {
            if p == s.last().price.units as int {
                assert(s[s.len() - 1].price.units as int == p);
            } else {
                assert(entries_map(s.drop_last()).dom().contains(p));
            }
        }
        assert forall|p: int|
            (exists|i: int| 0 <= i < s.len() && (#[trigger] s[i]).price.units as int == p) implies
            #[trigger] entries_map(s).dom().contains(p) by {
            let i = choose|i: int| 0 <= i < s.len() && (#[trigger] s[i]).price.units as int == p;
            if i < s.len() - 1 {
                assert(s.drop_last()[i] == s[i]);
                assert(entries_map(s.drop_last()).dom().contains(p));
            }
        }
    }
}

/// Inserting an entry with a fresh price inserts its binding into the map.
proof fn lemma_entries_map_insert<M>(s: Seq<BookEntry<M>>, i: int, e: BookEntry<M>)
    requires
        0 <= i <= s.len(),
        forall|j: int| 0 <= j < s.len() ==> (#[trigger] s[j]).price.units != e.price.units,
    ensures
        entries_map(s.insert(i, e)) =~= entries_map(s).insert(
            e.price.units as int,
            e.size.units as int,
        ),
    decreases s.len(),
{
    let r = s.insert(i, e);
    if i == s.len() {
        assert(r =~= s.push(e));
        assert(r.drop_last() =~= s);
        assert(r.last() == e);
    } else {
        assert(r.len() == s.len() + 1);
        assert(r.last() == s.last());
        assert(r.drop_last() =~= s.drop_last().insert(i, e)) by {
            assert(forall|j: int|
                0 <= j < i ==> #[trigger] r.drop_last()[j] == s.drop_last().insert(i, e)[j]);
            assert(r.drop_last()[i] == e);
            assert(forall|j: int|
                i < j < r.len() - 1 ==> #[trigger] r.drop_last()[j] == s[j - 1]);
        }
        assert(forall|j: int|
            0 <= j < s.drop_last().len() ==> s.drop_last()[j] == #[trigger] s[j]);
        lemma_entries_map_insert(s.drop_last(), i, e);
        assert(s.last() == s[s.len() - 1]);
        // the two inserted keys differ, so the insertions commute
        assert(entries_map(s.drop_last()).insert(e.price.units as int, e.size.units as int).insert(
            s.last().price.units as int,
            s.last().size.units as int,
        ) =~= entries_map(s.drop_last()).insert(
            s.last().price.units as int,
            s.last().size.units as int,
        ).insert(e.price.units as int, e.size.units as int));
    }
}

/// Removing an entry removes its binding from the map.
proof fn lemma_entries_map_remove<M>(s: Seq<BookEntry<M>>, i: int)
    requires
        prices_unique(s),
        0 <= i < s.len(),
    ensures
        entries_map(s.remove(i)) =~= entries_map(s).remove(s[i].price.units as int),
    decreases s.len(),
{
    let p = s[i].price.units as int;
    let r = s.remove(i);
    lemma_entries_map_index(s);
    if i == s.len() - 1 {
        assert(r =~= s.drop_last());
        assert(forall|j: int| 0 <= j < s.drop_last().len() ==> s.drop_last()[j] == #[trigger] s[j]);
        lemma_entries_map_index(s.drop_last());
        // the removed price was only bound by the last entry
        assert(!entries_map(s.drop_last()).dom().contains(p));
        assert(entries_map(s) =~= entries_map(s.drop_last()).insert(p, s[i].size.units as int));
        assert(entries_map(s.drop_last()).insert(p, s[i].size.units as int).remove(p)
            =~= entries_map(s.drop_last()));
    } else {
        assert(r.len() == s.len() - 1);
        assert(r.last() == s.last());
        assert(r.drop_last() =~= s.drop_last().remove(i)) by {
            assert(forall|j: int| 0 <= j < i ==> #[trigger] r.drop_last()[j] == s[j]);
            assert(forall|j: int| i <= j < r.len() - 1 ==> #[trigger] r.drop_last()[j] == s[j + 1]);
        }
        assert(forall|j: int|
            0 <= j < s.drop_last().len() ==> s.drop_last()[j] == #[trigger] s[j]);
        assert(prices_unique(s.drop_last()));
        lemma_entries_map_remove(s.drop_last(), i);
        assert(s.last() == s[s.len() - 1]);
        assert(p != s.last().price.units as int);
        assert(entries_map(s.drop_last()).remove(p).insert(
            s.last().price.units as int,
            s.last().size.units as int,
        ) =~= entries_map(s.drop_last()).insert(
            s.last().price.units as int,
            s.last().size.units as int,
        ).remove(p));
    }
}

/// Replacing an entry by one at the same price rebinds that price.
proof fn lemma_entries_map_update<M>(s: Seq<BookEntry<M>>, i: int, e: BookEntry<M>)
    requires
        prices_unique(s),
        0 <= i < s.len(),
        e.price.units == s[i].price.units,
    ensures
        entries_map(s.update(i, e)) =~= entries_map(s).insert(
            e.price.units as int,
            e.size.units as int,
        ),
    decreases s.len(),
{
    let p = e.price.units as int;
    let r = s.update(i, e);
    if i == s.len() - 1 {
        assert(r.drop_last() =~= s.drop_last());
        assert(r.last() == e);
        assert(entries_map(s.drop_last()).insert(p, s[i].size.units as int).insert(
            p,
            e.size.units as int,
        ) =~= entries_map(s.drop_last()).insert(p, e.size.units as int));
        assert(s.last() == s[s.len() - 1]);
    } else {
        assert(r.last() == s.last());
        assert(r.drop_last() =~= s.drop_last().update(i, e)) by {
            assert(forall|j: int|
                0 <= j < r.len() - 1 && j != i ==> #[trigger] r.drop_last()[j] == s[j]);
            assert(r.drop_last()[i] == e);
        }
        assert(forall|j: int|
            0 <= j < s.drop_last().len() ==> s.drop_last()[j] == #[trigger] s[j]);
        assert(prices_unique(s.drop_last()));
        lemma_entries_map_update(s.drop_last(), i, e);
        assert(s.last() == s[s.len() - 1]);
        assert(p != s.last().price.units as int);
        assert(entries_map(s.drop_last()).insert(p, e.size.units as int).insert(
            s.last().price.units as int,
            s.last().size.units as int,
        ) =~= entries_map(s.drop_last()).insert(
            s.last().price.units as int,
            s.last().size.units as int,
        ).insert(p, e.size.units as int));
    }
}

/// Whether replaying `e` against the side map `m` at `price` is legal: an
/// absent level may only be created by an `Add` or `Refresh` of positive
/// size, a present level must never be driven negative, and the resulting
/// size stays within bounds.
pub open spec fn book_event_ok(m: Map<int, int>, price: int, e: LevelEvent) -> bool {
    if m.dom().contains(price) {
        let cur = m[price];
        match e {
            LevelEvent::Add { size } => 0 <= size.units && cur + size.units <= MAX_SIZE_UNITS,
            LevelEvent::Cancel { size } => 0 <= size.units && cur - size.units >= 0,
            LevelEvent::Take { size, .. } => 0 <= size.units && cur - size.units >= 0,
            LevelEvent::Refresh { size } => match size {
                Option::Some(sz) => 0 <= sz.units <= MAX_SIZE_UNITS,
                Option::None => true,
            },
        }
    } else {
        match e {
            LevelEvent::Add { size } => 0 < size.units <= MAX_SIZE_UNITS,
            LevelEvent::Refresh { size } => match size {
                Option::Some(sz) => 0 < sz.units <= MAX_SIZE_UNITS,
                Option::None => false,
            },
            _ => false,
        }
    }
}

/// The side map after replaying one legal event: the level's size moves by
/// the event's relative change or to the refreshed absolute value, and a
/// level whose size reaches zero leaves the map.
pub open spec fn apply_book_event(m: Map<int, int>, price: int, e: LevelEvent) -> Map<int, int> {
    if m.dom().contains(price) {
        let cur = m[price];
        let new = match e {
            LevelEvent::Add { size } => cur + size.units,
            LevelEvent::Cancel { size } => cur - size.units,
            LevelEvent::Take { size, .. } => cur - size.units,
            LevelEvent::Refresh { size } => match size {
                Option::Some(sz) => sz.units as int,
                Option::None => 0,
            },
        };
        if new > 0 {
            m.insert(price, new)
        } else {
            m.remove(price)
        }
    } else {
        let sz = match e {
            LevelEvent::Add { size } => size.units as int,
            LevelEvent::Refresh { size } => match size {
                Option::Some(s) => s.units as int,
                Option::None => 0,
            },
            _ => 0,
        };
        m.insert(price, sz)
    }
}

/// Whether a whole batch replays legally, event by event.
pub open spec fn replay_events_ok(m: Map<int, int>, evs: Seq<BookEvent>) -> bool
    decreases evs.len(),
{
    if evs.len() == 0 {
        true
    } else {
        book_event_ok(m, evs[0].price.units as int, evs[0].event) && replay_events_ok(
            apply_book_event(m, evs[0].price.units as int, evs[0].event),
            evs.skip(1),
        )
    }
}

/// The side map after replaying a whole batch.
pub open spec fn replay_events(m: Map<int, int>, evs: Seq<BookEvent>) -> Map<int, int>
    decreases evs.len(),
{
    if evs.len() == 0 {
        m
    } else {
        replay_events(apply_book_event(m, evs[0].price.units as int, evs[0].event), evs.skip(1))
    }
}

/// Replay one event against one side, keeping the side sorted and invoking
/// the aggregator on the level transition it causes. Creating a level from
/// any event but a positive `Add` or `Refresh`, or driving one negative,
/// signals an upstream violation and is excluded by contract.
#[verifier::rlimit(100)]
fn update_side_level<M, A: EventLevelAggregator<M>>(
    entries: &mut Vec<BookEntry<M>>,
    descending: bool,
    price: Size,
    event: LevelEvent,
    side: Side,
    agg: &mut A,
)
    requires
        side_wf(old(entries)@, descending),
        book_event_ok(entries_map(old(entries)@), price.units as int, event),
    ensures
        side_wf(final(entries)@, descending),
        entries_map(final(entries)@) == apply_book_event(
            entries_map(old(entries)@),
            price.units as int,
            event,
        ),
{
    let ghost s0 = entries@;
    let ghost m0 = entries_map(s0);
    proof {
        assert(prices_unique(s0));
        lemma_entries_map_index(s0);
    }
    let n = entries.len();
    let mut i: usize = 0;
    while i < n
        invariant_except_break
            0 <= i <= n,
            n == entries@.len(),
            entries@ == s0,
            forall|j: int|
                0 <= j < i ==> (if descending {
                    (#[trigger] s0[j]).price.units > price.units
                } else {
                    s0[j].price.units < price.units
                }),
        ensures
            0 <= i <= n,
            n == entries@.len(),
            entries@ == s0,
            forall|j: int|
                0 <= j < i ==> (if descending {
                    (#[trigger] s0[j]).price.units > price.units
                } else {
                    s0[j].price.units < price.units
                }),
            i < n ==> !(if descending {
                s0[i as int].price.units > price.units
            } else {
                s0[i as int].price.units < price.units
            }),
        decreases n - i,
    {
        let entry_before = if descending {
            entries[i].price.units > price.units
        } else {
            entries[i].price.units < price.units
        };
        if !entry_before {
            break ;
        }
        i = i + 1;
    }
    let ghost p = price.units as int;
    if i < n && entries[i].price.units == price.units {
        // the level exists: move its size by the event
        let cur = entries[i].size.units;
        let new_size: i128 = match event {
            LevelEvent::Add { size } => cur + size.units,
            LevelEvent::Cancel { size } => cur - size.units,
            LevelEvent::Take { size, .. } => cur - size.units,
            LevelEvent::Refresh { size } => match size {
                Option::Some(sz) => sz.units,
                Option::None => 0,
            },
        };
        let e = entries.remove(i);
        proof {
            lemma_entries_map_remove(s0, i as int);
        }
        if new_size > 0 {
            let current_level = Level { price, size: e.size };
            let mut metadata = e.metadata;
            agg.update_level(&mut metadata, current_level, Size { units: new_size }, event, side);
            let updated = BookEntry { price, size: Size { units: new_size }, metadata };
            entries.insert(i, updated);
            proof {
                assert(entries@ =~= s0.update(i as int, BookEntry {
                    price,
                    size: Size { units: new_size },
                    metadata: entries@[i as int].metadata,
                }));
                lemma_entries_map_update(s0, i as int, entries@[i as int]);
                assert(forall|j: int|
                    0 <= j < entries@.len() ==> (#[trigger] entries@[j]).price
                        == s0[j].price && entries@[j].size.units == (if j == i as int {
                        new_size
                    } else {
                        s0[j].size.units
                    }));
            }
        } else {
            // the level is gone: hand the aggregator the finalized level
            let old_level = BookLevel { price, size: Size { units: new_size }, metadata: e.metadata };
            agg.remove_level(old_level, event, side);
            proof {
                assert(entries@ =~= s0.remove(i as int));
                assert(forall|j: int|
                    0 <= j < entries@.len() ==> entries@[j] == (if j < i as int {
                        #[trigger] s0[j]
                    } else {
                        s0[j + 1]
                    }));
            }
        }
    } else {
        // the level is absent: only a positive Add or Refresh may create it
        proof {
            if i < n {
                assert(s0[i as int].price.units != price.units || !(if descending {
                    s0[i as int].price.units > price.units
                } else {
                    s0[i as int].price.units < price.units
                }));
            }
            // the price is bound by no entry: entries before `i` are strictly
            // on one side, entries from `i` on are strictly on the other
            assert forall|j: int| 0 <= j < s0.len() implies (#[trigger] s0[j]).price.units
                != price.units by {
                if j >= i as int && j > i as int {
                    if descending {
                        assert(s0[i as int].price.units > s0[j].price.units);
                    } else {
                        assert(s0[i as int].price.units < s0[j].price.units);
                    }
                }
            }
            assert(!m0.dom().contains(p));
        }
        let size: Size = match event {
            LevelEvent::Add { size } => size,
            LevelEvent::Refresh { size } => match size {
                Option::Some(sz) => sz,
                Option::None => Size { units: 0 },
            },
            _ => Size { units: 0 },
        };
        let new_level = Level { price, size };
        let metadata = agg.new_level(new_level, event, side);
        let entry = BookEntry { price, size, metadata };
        entries.insert(i, entry);
        proof {
            lemma_entries_map_insert(s0, i as int, entries@[i as int]);
            assert(forall|j: int| 0 <= j < i ==> #[trigger] entries@[j] == s0[j]);
            assert(forall|j: int|
                (i as int) < j < entries@.len() ==> #[trigger] entries@[j] == s0[j - 1]);
            assert(entries@[i as int].price == price);
            assert(side_wf(entries@, descending)) by {
                if i < n {
                    if descending {
                        assert(price.units > s0[i as int].price.units);
                    } else {
                        assert(price.units < s0[i as int].price.units);
                    }
                }
            }
        }
    }
}

/// A tracker's emitted events, bound to the one price level it tracks.
pub open spec fn at_price(price: Size, evs: Seq<LevelEvent>) -> Seq<BookEvent> {
    evs.map(|i: int, e: LevelEvent| BookEvent { price, event: e })
}

/// Conservation law: replaying a tracker's emitted events against the level
/// it tracks is legal whenever the running total starts at the tracked
/// level's size, never goes negative at any prefix, and stays within bounds
/// — and it moves that level's size by exactly the events' net delta, the
/// tracker's inferred-size change. A level whose size reaches zero is
/// absent from the map, exactly as `definitely_gone` empties the tracker.
pub proof fn lemma_conservation_replay(
    m: Map<int, int>,
    price: Size,
    start: int,
    evs: Seq<LevelEvent>,
)
    requires
        crate::events::tracker_events_ok(evs),
        start >= 0,
        start > 0 ==> m.dom().contains(price.units as int) && m[price.units as int] == start,
        start == 0 ==> !m.dom().contains(price.units as int),
        crate::events::prefix_nonneg(start, evs),
        forall|k: int|
            0 <= k <= evs.len() ==> start + crate::events::seq_delta(#[trigger] evs.take(k))
                <= MAX_SIZE_UNITS,
    ensures
        replay_events_ok(m, at_price(price, evs)),
        start + crate::events::seq_delta(evs) > 0 ==> replay_events(m, at_price(price, evs))
            =~= m.insert(price.units as int, start + crate::events::seq_delta(evs)),
        start + crate::events::seq_delta(evs) <= 0 ==> replay_events(m, at_price(price, evs))
            =~= m.remove(price.units as int),
    decreases evs.len(),
{
    let p = price.units as int;
    let bevs = at_price(price, evs);
    if evs.len() == 0 {
        assert(bevs =~= Seq::<BookEvent>::empty());
        assert(crate::events::seq_delta(evs) == 0);
        if start > 0 {
            assert(m.insert(p, start) =~= m);
        } else {
            assert(m.remove(p) =~= m);
        }
    } else {
        let e = evs[0];
        assert(bevs[0] == BookEvent { price, event: e });
        assert(evs.take(1) =~= seq![e]);
        crate::events::lemma_seq_delta_one(e);
        let d1 = crate::events::event_delta(e);
        assert(start + d1 >= 0) by {
            assert(crate::events::prefix_nonneg(start, evs));
            assert(start + crate::events::seq_delta(evs.take(1)) >= 0);
        }
        assert(start + d1 <= MAX_SIZE_UNITS) by {
            assert(start + crate::events::seq_delta(evs.take(1)) <= MAX_SIZE_UNITS);
        }
        // a trade-sized event on an empty level can only be the synthetic add
        if start == 0 {
            assert(e is Add) by {
                if !(e is Add) {
                    assert(d1 < 0);
                }
            }
        }
        assert(book_event_ok(m, p, e));
        let m2 = apply_book_event(m, p, e);
        let start2 = start + d1;
        assert(start2 > 0 ==> m2.dom().contains(p) && m2[p] == start2);
        assert(start2 == 0 ==> !m2.dom().contains(p));
        let rest = evs.skip(1);
        assert forall|k: int| 0 <= k <= rest.len() implies start2 + crate::events::seq_delta(
            #[trigger] rest.take(k),
        ) >= 0 && start2 + crate::events::seq_delta(rest.take(k)) <= MAX_SIZE_UNITS by {
            assert(evs.take(k + 1) =~= evs.take(1) + rest.take(k));
            crate::events::lemma_seq_delta_concat(evs.take(1), rest.take(k));
            assert(start + crate::events::seq_delta(evs.take(k + 1)) >= 0);
            assert(start + crate::events::seq_delta(evs.take(k + 1)) <= MAX_SIZE_UNITS);
        }
        assert(crate::events::tracker_events_ok(rest)) by {
            assert(forall|i: int| 0 <= i < rest.len() ==> #[trigger] rest[i] == evs[i + 1]);
        }
        assert(crate::events::prefix_nonneg(start2, rest));
        lemma_conservation_replay(m2, price, start2, rest);
        assert(bevs.skip(1) =~= at_price(price, rest));
        assert(evs =~= evs.take(1) + rest);
        crate::events::lemma_seq_delta_concat(evs.take(1), rest);
        assert(start + crate::events::seq_delta(evs) == start2 + crate::events::seq_delta(rest));
        let total = start + crate::events::seq_delta(evs);
        if total > 0 {
            assert(replay_events(m2, at_price(price, rest)) =~= m2.insert(p, total));
            assert(m2.insert(p, total) =~= m.insert(p, total));
        } else {
            assert(replay_events(m2, at_price(price, rest)) =~= m2.remove(p));
            assert(m2.remove(p) =~= m.remove(p));
        }
    }
}

/// Replays bids (keyed by price, iterated highest-first) and asks (iterated
/// lowest-first); each level carries a size and caller-chosen metadata. The
/// metadata is owned by the book and mutated only through the
/// `EventLevelAggregator` capability as events are replayed.
pub struct EventOrderBook<M = ()> {
    bids: Vec<BookEntry<M>>,
    asks: Vec<BookEntry<M>>,
}

impl<M> EventOrderBook<M> {
    /// The bid side as a price-to-size map (sizes in quanta).
    pub closed spec fn bids_map(self) -> Map<int, int> {
        entries_map(self.bids@)
    }

    /// The ask side as a price-to-size map (sizes in quanta).
    pub closed spec fn asks_map(self) -> Map<int, int> {
        entries_map(self.asks@)
    }

    /// The bid prices, highest first.
    pub closed spec fn bid_price_seq(self) -> Seq<int> {
        self.bids@.map(|i: int, e: BookEntry<M>| e.price.units as int)
    }

    /// The ask prices, lowest first.
    pub closed spec fn ask_price_seq(self) -> Seq<int> {
        self.asks@.map(|i: int, e: BookEntry<M>| e.price.units as int)
    }

    /// The book invariant: each side sorted in its side-correct order, all
    /// sizes positive and bounded. A level is in the map iff its size is
    /// positive.
    pub closed spec fn wf(self) -> bool {
        &&& side_wf(self.bids@, true)
        &&& side_wf(self.asks@, false)
    }

    /// An empty book.
    pub fn new() -> (r: EventOrderBook<M>)
        ensures
            r.wf(),
            r.bids_map() == Map::<int, int>::empty(),
            r.asks_map() == Map::<int, int>::empty(),
    {
        EventOrderBook { bids: Vec::new(), asks: Vec::new() }
    }

    /// Replay one update cycle's batch: each bid event in order against the
    /// bid side, then each ask event in order against the ask side, invoking
    /// the aggregator on every level transition. The batch must replay
    /// legally (see `book_event_ok`): an event targeting an absent level
    /// other than a positive `Add` or `Refresh`, or one driving a level
    /// negative, signals an upstream violation.
    pub fn update_book_events<A: EventLevelAggregator<M>>(
        &mut self,
        update: &BookEvents,
        agg: &mut A,
    )
        requires
            old(self).wf(),
            replay_events_ok(old(self).bids_map(), update.bid_events@),
            replay_events_ok(old(self).asks_map(), update.ask_events@),
        ensures
            final(self).wf(),
            final(self).bids_map() == replay_events(old(self).bids_map(), update.bid_events@),
            final(self).asks_map() == replay_events(old(self).asks_map(), update.ask_events@),
    {
        let ghost bids_map0 = self.bids_map();
        proof {
            assert(update.bid_events@.skip(0) =~= update.bid_events@);
        }
        let n_bids = update.bid_events.len();
        let mut i: usize = 0;
        while i < n_bids
            invariant
                0 <= i <= n_bids,
                n_bids == update.bid_events@.len(),
                side_wf(self.bids@, true),
                replay_events_ok(entries_map(self.bids@), update.bid_events@.skip(i as int)),
                replay_events(bids_map0, update.bid_events@) == replay_events(
                    entries_map(self.bids@),
                    update.bid_events@.skip(i as int),
                ),
                self.asks@ == old(self).asks@,
            decreases n_bids - i,
        {
            let ghost evs = update.bid_events@.skip(i as int);
            proof {
                assert(evs[0] == update.bid_events@[i as int]);
                assert(evs.skip(1) =~= update.bid_events@.skip(i + 1 as int));
            }
            let ev = &update.bid_events[i];
            update_side_level(&mut self.bids, true, ev.price, ev.event, Side::Buy, agg);
            i = i + 1;
        }
        proof {
            assert(update.bid_events@.skip(n_bids as int)
                =~= Seq::<BookEvent>::empty());
        }
        let ghost asks_map0 = self.asks_map();
        let ghost bids_done = entries_map(self.bids@);
        proof {
            assert(update.ask_events@.skip(0) =~= update.ask_events@);
        }
        let n_asks = update.ask_events.len();
        let mut j: usize = 0;
        while j < n_asks
            invariant
                0 <= j <= n_asks,
                n_asks == update.ask_events@.len(),
                side_wf(self.asks@, false),
                replay_events_ok(entries_map(self.asks@), update.ask_events@.skip(j as int)),
                replay_events(asks_map0, update.ask_events@) == replay_events(
                    entries_map(self.asks@),
                    update.ask_events@.skip(j as int),
                ),
                entries_map(self.bids@) == replay_events(bids_map0, update.bid_events@),
                side_wf(self.bids@, true),
            decreases n_asks - j,
        {
            let ghost evs = update.ask_events@.skip(j as int);
            proof {
                assert(evs[0] == update.ask_events@[j as int]);
                assert(evs.skip(1) =~= update.ask_events@.skip(j + 1 as int));
            }
            let ev = &update.ask_events[j];
            update_side_level(&mut self.asks, false, ev.price, ev.event, Side::Sell, agg);
            j = j + 1;
        }
        proof {
            assert(update.ask_events@.skip(n_asks as int)
                =~= Seq::<BookEvent>::empty());
        }
    }

    /// The bid levels, highest price first.
    pub fn bid_levels(&self) -> (r: Vec<Level>)
        requires
            self.wf(),
        ensures
            r@.len() == self.bid_price_seq().len(),
            forall|i: int|
                0 <= i < r@.len() ==> (#[trigger] r@[i]).price.units as int
                    == self.bid_price_seq()[i] && r@[i].size.units as int == self.bids_map().index(
                    r@[i].price.units as int,
                ),
            forall|i: int, j: int|
                0 <= i < j < r@.len() ==> #[trigger] r@[i].price.units > #[trigger] r@[j].price.units,
    {
        proof {
            lemma_entries_map_index(self.bids@);
        }
        let mut out: Vec<Level> = Vec::new();
        let n = self.bids.len();
        let mut i: usize = 0;
        while i < n
            invariant
                0 <= i <= n,
                n == self.bids@.len(),
                out@.len() == i,
                forall|k: int|
                    0 <= k < i ==> (#[trigger] out@[k]).price == self.bids@[k].price
                        && out@[k].size == self.bids@[k].size,
            decreases n - i,
        {
            out.push(Level { price: self.bids[i].price, size: self.bids[i].size });
            i = i + 1;
        }
        out
    }

    /// The ask levels, lowest price first.
    pub fn ask_levels(&self) -> (r: Vec<Level>)
        requires
            self.wf(),
        ensures
            r@.len() == self.ask_price_seq().len(),
            forall|i: int|
                0 <= i < r@.len() ==> (#[trigger] r@[i]).price.units as int
                    == self.ask_price_seq()[i] && r@[i].size.units as int == self.asks_map().index(
                    r@[i].price.units as int,
                ),
            forall|i: int, j: int|
                0 <= i < j < r@.len() ==> #[trigger] r@[i].price.units < #[trigger] r@[j].price.units,
    {
        proof {
            lemma_entries_map_index(self.asks@);
        }
        let mut out: Vec<Level> = Vec::new();
        let n = self.asks.len();
        let mut i: usize = 0;
        while i < n
            invariant
                0 <= i <= n,
                n == self.asks@.len(),
                out@.len() == i,
                forall|k: int|
                    0 <= k < i ==> (#[trigger] out@[k]).price == self.asks@[k].price
                        && out@[k].size == self.asks@[k].size,
            decreases n - i,
        {
            out.push(Level { price: self.asks[i].price, size: self.asks[i].size });
            i = i + 1;
        }
        out
    }

    /// The bid levels, highest price first.
    pub fn bids(&self) -> (r: Vec<Level>)
        requires
            self.wf(),
        ensures
            r@.len() == self.bid_price_seq().len(),
            forall|i: int|
                0 <= i < r@.len() ==> (#[trigger] r@[i]).price.units as int
                    == self.bid_price_seq()[i] && r@[i].size.units as int == self.bids_map().index(
                    r@[i].price.units as int,
                ),
            forall|i: int, j: int|
                0 <= i < j < r@.len() ==> #[trigger] r@[i].price.units > #[trigger] r@[j].price.units,
    {
        self.bid_levels()
    }

    /// The ask levels, lowest price first.
    pub fn asks(&self) -> (r: Vec<Level>)
        requires
            self.wf(),
        ensures
            r@.len() == self.ask_price_seq().len(),
            forall|i: int|
                0 <= i < r@.len() ==> (#[trigger] r@[i]).price.units as int
                    == self.ask_price_seq()[i] && r@[i].size.units as int == self.asks_map().index(
                    r@[i].price.units as int,
                ),
            forall|i: int, j: int|
                0 <= i < j < r@.len() ==> #[trigger] r@[i].price.units < #[trigger] r@[j].price.units,
    {
        self.ask_levels()
    }

    /// The best bid and ask, iff both sides are non-empty, stamped with the
    /// given exchange timestamp. The best bid is the highest bid price, the
    /// best ask the lowest ask price.
    pub fn bbo_with_exchange_timestamp(&self, exchange_timestamp: Option<u64>) -> (r: Option<BBO>)
        requires
            self.wf(),
        ensures
            r is Some <==> (self.bid_price_seq().len() > 0 && self.ask_price_seq().len() > 0),
            r is Some ==> ({
                let bbo = r->Some_0;
                &&& bbo.exchange_timestamp == exchange_timestamp
                &&& self.bids_map().dom().contains(bbo.bid.price.units as int)
                &&& bbo.bid.size.units as int == self.bids_map()[bbo.bid.price.units as int]
                &&& forall|p: int|
                    self.bids_map().dom().contains(p) ==> p <= bbo.bid.price.units as int
                &&& self.asks_map().dom().contains(bbo.ask.price.units as int)
                &&& bbo.ask.size.units as int == self.asks_map()[bbo.ask.price.units as int]
                &&& forall|p: int|
                    self.asks_map().dom().contains(p) ==> p >= bbo.ask.price.units as int
            }),
    {
        proof {
            lemma_entries_map_index(self.bids@);
            lemma_entries_map_index(self.asks@);
        }
        if self.bids.len() > 0 && self.asks.len() > 0 {
            let best_bid = Level { price: self.bids[0].price, size: self.bids[0].size };
            let best_ask = Level { price: self.asks[0].price, size: self.asks[0].size };
            proof {
                assert forall|p: int|
                    self.bids_map().dom().contains(p) implies p <= best_bid.price.units as int by {
                    let i = choose|i: int|
                        0 <= i < self.bids@.len() && (#[trigger] self.bids@[i]).price.units as int
                            == p;
                    if i > 0 {
                        assert(self.bids@[0].price.units > self.bids@[i].price.units);
                    }
                }
                assert forall|p: int|
                    self.asks_map().dom().contains(p) implies p >= best_ask.price.units as int by {
                    let i = choose|i: int|
                        0 <= i < self.asks@.len() && (#[trigger] self.asks@[i]).price.units as int
                            == p;
                    if i > 0 {
                        assert(self.asks@[0].price.units < self.asks@[i].price.units);
                    }
                }
            }
            Option::Some(BBO { bid: best_bid, ask: best_ask, exchange_timestamp })
        } else {
            Option::None
        }
    }

    /// The best bid and ask, iff both sides are non-empty.
    pub fn bbo(&self) -> (r: Option<BBO>)
        requires
            self.wf(),
        ensures
            r is Some <==> (self.bid_price_seq().len() > 0 && self.ask_price_seq().len() > 0),
            r is Some ==> ({
                let bbo = r->Some_0;
                &&& bbo.exchange_timestamp is None
                &&& self.bids_map().dom().contains(bbo.bid.price.units as int)
                &&& bbo.bid.size.units as int == self.bids_map()[bbo.bid.price.units as int]
                &&& forall|p: int|
                    self.bids_map().dom().contains(p) ==> p <= bbo.bid.price.units as int
                &&& self.asks_map().dom().contains(bbo.ask.price.units as int)
                &&& bbo.ask.size.units as int == self.asks_map()[bbo.ask.price.units as int]
                &&& forall|p: int|
                    self.asks_map().dom().contains(p) ==> p >= bbo.ask.price.units as int
            }),
    {
        self.bbo_with_exchange_timestamp(Option::None)
    }

    /// Look one bid level up by exact price.
    pub fn get_bid(&self, price: Size) -> (r: Option<Level>)
        requires
            self.wf(),
        ensures
            r is Some <==> self.bids_map().dom().contains(price.units as int),
            r is Some ==> r->Some_0.price == price && r->Some_0.size.units as int
                == self.bids_map()[price.units as int],
    {
        proof {
            lemma_entries_map_index(self.bids@);
        }
        let n = self.bids.len();
        let mut i: usize = 0;
        while i < n
            invariant
                0 <= i <= n,
                n == self.bids@.len(),
                self.wf(),
                forall|k: int| 0 <= k < i ==> (#[trigger] self.bids@[k]).price.units != price.units,
            decreases n - i,
        {
            if self.bids[i].price.units == price.units {
                proof {
                    lemma_entries_map_index(self.bids@);
                }
                return Option::Some(Level { price, size: self.bids[i].size });
            }
            i = i + 1;
        }
        Option::None
    }

    /// Look one ask level up by exact price.
    pub fn get_ask(&self, price: Size) -> (r: Option<Level>)
        requires
            self.wf(),
        ensures
            r is Some <==> self.asks_map().dom().contains(price.units as int),
            r is Some ==> r->Some_0.price == price && r->Some_0.size.units as int
                == self.asks_map()[price.units as int],
    {
        proof {
            lemma_entries_map_index(self.asks@);
        }
        let n = self.asks.len();
        let mut i: usize = 0;
        while i < n
            invariant
                0 <= i <= n,
                n == self.asks@.len(),
                self.wf(),
                forall|k: int| 0 <= k < i ==> (#[trigger] self.asks@[k]).price.units != price.units,
            decreases n - i,
        {
            if self.asks[i].price.units == price.units {
                proof {
                    lemma_entries_map_index(self.asks@);
                }
                return Option::Some(Level { price, size: self.asks[i].size });
            }
            i = i + 1;
        }
        Option::None
    }
}

impl<M> Default for EventOrderBook<M> {
    /// An empty book.
    fn default() -> (r: Self)
        ensures
            r.wf(),
            r.bids_map() == Map::<int, int>::empty(),
            r.asks_map() == Map::<int, int>::empty(),
    {
        EventOrderBook::new()
    }
}

} // verus!
