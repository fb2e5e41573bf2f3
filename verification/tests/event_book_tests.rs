use multi_stream_book::event_book::{
    BookEvent, BookEvents, BookLevel, EventLevelAggregator, EventOrderBook, Level, Side,
};
use multi_stream_book::events::LevelEvent;
use multi_stream_book::level_tracker::LevelTracker;
use multi_stream_book::size::Size;

fn fixed(v: i128) -> Size {
    Size::from_int(v)
}

fn bid_batch(events: Vec<BookEvent>) -> BookEvents {
    BookEvents { bid_events: events, ask_events: Vec::new() }
}

/// Records every aggregator callback so tests can observe level lifecycles.
#[derive(Default)]
struct RecordingAggregator {
    new_calls: Vec<(i128, i128)>,
    update_calls: Vec<(i128, i128, i128)>,
    remove_calls: Vec<(i128, i128)>,
}

impl EventLevelAggregator<u32> for RecordingAggregator {
    fn new_level(&mut self, level: Level, _event: LevelEvent, _side: Side) -> u32 {
        self.new_calls.push((level.price.units, level.size.units));
        self.new_calls.len() as u32
    }

    fn update_level(
        &mut self,
        _metadata: &mut u32,
        current_level: Level,
        new_size: Size,
        _event: LevelEvent,
        _side: Side,
    ) {
        self.update_calls.push((current_level.price.units, current_level.size.units, new_size.units));
    }

    fn remove_level(&mut self, old_level: BookLevel<u32>, _event: LevelEvent, _side: Side) {
        self.remove_calls.push((old_level.price.units, old_level.size.units));
    }
}

// Scenario: a bid Add followed by a Cancel of the same size leaves the book
// empty and hands the aggregator the level finalized at size zero.
#[test]
fn test_book_replay_add_cancel() {
    let mut book: EventOrderBook<u32> = EventOrderBook::new();
    let mut agg = RecordingAggregator::default();
    let price = fixed(10);
    let size = fixed(5);

    let batch = bid_batch(vec![
        BookEvent { price, event: LevelEvent::Add { size } },
        BookEvent { price, event: LevelEvent::Cancel { size } },
    ]);
    book.update_book_events(&batch, &mut agg);

    assert!(book.bid_levels().is_empty());
    assert!(book.ask_levels().is_empty());
    assert_eq!(agg.new_calls, vec![(fixed(10).units, fixed(5).units)]);
    assert_eq!(agg.remove_calls, vec![(fixed(10).units, 0)]);
    assert!(agg.update_calls.is_empty());
    assert!(book.bbo().is_none());
}

#[test]
fn test_book_levels_sorted_and_bbo() {
    let mut book: EventOrderBook<()> = EventOrderBook::new();
    let batch = BookEvents {
        bid_events: vec![
            BookEvent { price: fixed(10), event: LevelEvent::Add { size: fixed(5) } },
            BookEvent { price: fixed(12), event: LevelEvent::Add { size: fixed(3) } },
            BookEvent { price: fixed(11), event: LevelEvent::Add { size: fixed(4) } },
        ],
        ask_events: vec![
            BookEvent { price: fixed(14), event: LevelEvent::Add { size: fixed(2) } },
            BookEvent { price: fixed(13), event: LevelEvent::Add { size: fixed(6) } },
        ],
    };
    book.update_book_events(&batch, &mut ());

    let bids = book.bids();
    assert_eq!(
        bids,
        vec![
            Level::new(fixed(12), fixed(3)),
            Level::new(fixed(11), fixed(4)),
            Level::new(fixed(10), fixed(5)),
        ]
    );
    let asks = book.asks();
    assert_eq!(asks, vec![Level::new(fixed(13), fixed(6)), Level::new(fixed(14), fixed(2))]);

    let bbo = book.bbo().unwrap();
    assert_eq!(bbo.bid, Level::new(fixed(12), fixed(3)));
    assert_eq!(bbo.ask, Level::new(fixed(13), fixed(6)));
    assert_eq!(bbo.exchange_timestamp, None);

    let stamped = book.bbo_with_exchange_timestamp(Some(77)).unwrap();
    assert_eq!(stamped.exchange_timestamp, Some(77));
    assert_eq!(stamped.bid, bbo.bid);
    assert_eq!(stamped.ask, bbo.ask);

    assert_eq!(book.get_bid(fixed(11)), Some(Level::new(fixed(11), fixed(4))));
    assert_eq!(book.get_bid(fixed(9)), None);
    assert_eq!(book.get_ask(fixed(14)), Some(Level::new(fixed(14), fixed(2))));
    assert_eq!(book.get_ask(fixed(12)), None);
}

#[test]
fn test_book_take_and_refresh() {
    let mut book: EventOrderBook<()> = EventOrderBook::new();
    let price = fixed(10);
    let batch = bid_batch(vec![
        BookEvent { price, event: LevelEvent::Add { size: fixed(5) } },
        BookEvent {
            price,
            event: LevelEvent::Take {
                size: fixed(2),
                visible_size_on_book: fixed(5),
                trade_idx: 0,
            },
        },
    ]);
    book.update_book_events(&batch, &mut ());
    assert_eq!(book.get_bid(price), Some(Level::new(price, fixed(3))));

    let refresh = bid_batch(vec![BookEvent {
        price,
        event: LevelEvent::Refresh { size: Some(fixed(9)) },
    }]);
    book.update_book_events(&refresh, &mut ());
    assert_eq!(book.get_bid(price), Some(Level::new(price, fixed(9))));

    let force_remove = bid_batch(vec![BookEvent { price, event: LevelEvent::Refresh { size: None } }]);
    book.update_book_events(&force_remove, &mut ());
    assert_eq!(book.get_bid(price), None);
    assert!(book.bid_levels().is_empty());

    // Refresh with a positive size may also create a level outright.
    let create = bid_batch(vec![BookEvent {
        price,
        event: LevelEvent::Refresh { size: Some(fixed(1)) },
    }]);
    book.update_book_events(&create, &mut ());
    assert_eq!(book.get_bid(price), Some(Level::new(price, fixed(1))));
}

#[test]
fn test_book_add_to_existing_level_updates_aggregator() {
    let mut book: EventOrderBook<u32> = EventOrderBook::new();
    let mut agg = RecordingAggregator::default();
    let price = fixed(7);
    book.update_book_events(
        &bid_batch(vec![BookEvent { price, event: LevelEvent::Add { size: fixed(2) } }]),
        &mut agg,
    );
    book.update_book_events(
        &bid_batch(vec![BookEvent { price, event: LevelEvent::Add { size: fixed(3) } }]),
        &mut agg,
    );
    assert_eq!(book.get_bid(price), Some(Level::new(price, fixed(5))));
    // update_level saw the level at its old size together with the new size
    assert_eq!(agg.update_calls, vec![(fixed(7).units, fixed(2).units, fixed(5).units)]);
    assert_eq!(agg.new_calls.len(), 1);
    assert!(agg.remove_calls.is_empty());
}

#[test]
fn test_book_events_default_is_empty() {
    let batch = BookEvents::default();
    assert!(batch.bid_events.is_empty());
    assert!(batch.ask_events.is_empty());
    let mut book: EventOrderBook<()> = EventOrderBook::default();
    book.update_book_events(&batch, &mut ());
    assert!(book.bbo().is_none());
}

// Conservation, on concrete values: replaying one tracker's full emitted
// history through the book from empty reproduces the tracker's inferred size
// at every checkpoint.
#[test]
fn test_conservation_through_book() {
    let mut tracker = LevelTracker::default();
    let mut book: EventOrderBook<()> = EventOrderBook::new();
    let price = fixed(10);

    let mut checkpoint = |tracker: &LevelTracker, book: &mut EventOrderBook<()>, events: &mut Vec<LevelEvent>| {
        let batch = bid_batch(
            events.drain(..).map(|event| BookEvent { price, event }).collect(),
        );
        book.update_book_events(&batch, &mut ());
        let booked = book.get_bid(price).map(|l| l.size).unwrap_or(Size::zero());
        assert_eq!(booked, tracker.inferred_size());
    };

    let mut events = Vec::new();
    tracker.new_diff_size(fixed(4), 1, &mut events);
    checkpoint(&tracker, &mut book, &mut events);

    tracker.on_trade(fixed(1), 0, 2, &mut events);
    checkpoint(&tracker, &mut book, &mut events);

    tracker.on_trade(fixed(5), 1, 3, &mut events);
    checkpoint(&tracker, &mut book, &mut events);

    tracker.new_diff_size(fixed(2), 4, &mut events);
    checkpoint(&tracker, &mut book, &mut events);

    tracker.mark_for_deletion(5, &mut events);
    checkpoint(&tracker, &mut book, &mut events);

    tracker.new_diff_size(Size::zero(), 6, &mut events);
    checkpoint(&tracker, &mut book, &mut events);
    assert!(tracker.definitely_gone());
    assert!(book.get_bid(price).is_none());
}
