use multi_stream_book::events::LevelEvent;
use multi_stream_book::level_tracker::LevelTracker;
use multi_stream_book::size::Size;

fn fixed(v: i128) -> Size {
    Size::from_int(v)
}

// True series of events:
// 1. Level is added at size X, price Y
// 1. Level is resized to X/2

// Events we see are:
// 1. We see the add for X at Y
//  * We generate an add for X
// 2. We see the resize to X/2
//  * We generate a cancel for X/2
#[test]
fn test_cancel() {
    let mut tracker = LevelTracker::default();
    let mut events = Vec::new();

    let level_size = fixed(2);
    let add_time = 3;

    tracker.new_diff_size(level_size, add_time, &mut events);
    assert_eq!(events, vec![LevelEvent::Add { size: level_size }]);

    assert_eq!(tracker.total_size_removal(), Size::zero());
    assert_eq!(tracker.inferred_size(), level_size);

    events.clear();
    tracker.new_diff_size(level_size.div_int(2), add_time, &mut events);

    assert_eq!(events, vec![LevelEvent::Cancel { size: level_size.div_int(2) }]);

    assert_eq!(tracker.inferred_size(), level_size.div_int(2));
}

// True series of events:
// 1. Level is added at size X, price Y
// 2. Someone trades through the entire level

// Events we see are:
// 1. We see the add for X at Y
//  * We generate an add for X
// 2. A trade happens at price Y for size X
//  * We generate a take of X at Y
// 3. We see the diff for 0, and this exises the buffered trade
//  * We see the level is gone, and has no buffered trades left
#[test]
fn test_trade_before_remove() {
    let mut tracker = LevelTracker::default();
    let mut events = Vec::new();

    let trade_size = fixed(2);
    let add_time = 3;
    let trade_time = 5;

    tracker.new_diff_size(trade_size, add_time, &mut events);
    assert_eq!(events, vec![LevelEvent::Add { size: trade_size }]);

    assert_eq!(tracker.total_size_removal(), Size::zero());
    assert_eq!(tracker.inferred_size(), trade_size);

    events.clear();
    tracker.on_trade(trade_size, 0, trade_time, &mut events);

    assert_eq!(
        events,
        vec![LevelEvent::Take {
            size: trade_size,
            visible_size_on_book: trade_size,
            trade_idx: 0,
        }]
    );

    assert_eq!(tracker.inferred_size(), Size::zero());
    assert_eq!(tracker.total_size_removal(), trade_size);

    events.clear();

    tracker.new_diff_size(Size::zero(), trade_time, &mut events);
    assert_eq!(events, vec![]);
    assert_eq!(tracker, LevelTracker::default_with_ts(trade_time));
}

// True series of events:
// 1. Level is added, size X price Y
// 2. Take clears level

// Events we see are:
// 1. A trade happens at price Y for size X
//  * We generate a synthetic add for X and a trade for X,
// 2. We see the add for X at Y
//  * We remove our synthetic add but otherwise don't act, since we already saw the add
// 3. We see the diff for 0, and this exises the buffered trade
//  * We see the level is gone, and has no buffered trades left
#[test]
fn test_early_trade() {
    let mut tracker = LevelTracker::default();
    let mut events = Vec::new();

    let trade_size = fixed(2);
    let add_time = 3;
    let trade_time = 5;

    tracker.on_trade(trade_size, 0, trade_time, &mut events);

    assert_eq!(
        events,
        vec![
            LevelEvent::Add { size: trade_size },
            LevelEvent::Take {
                size: trade_size,
                visible_size_on_book: fixed(0),
                trade_idx: 0,
            },
        ]
    );

    assert_eq!(tracker.inferred_size(), Size::zero());
    assert_eq!(tracker.total_size_removal(), Size::zero());

    events.clear();
    tracker.new_diff_size(trade_size, add_time, &mut events);
    assert_eq!(events, vec![]);

    assert_eq!(tracker.total_size_removal(), trade_size);
    assert_eq!(tracker.inferred_size(), Size::zero());

    tracker.new_diff_size(Size::zero(), trade_time, &mut events);
    assert_eq!(events, vec![]);
    assert_eq!(tracker, LevelTracker::default_with_ts(trade_time));
}

// almost same as above but we split into two trades
// to check merging logic
#[test]
fn test_early_trade_merge() {
    let mut tracker = LevelTracker::default();
    let mut events = Vec::new();

    let trade_size = fixed(2);
    let add_time = 3;
    let trade_time = 5;

    tracker.on_trade(trade_size.div_int(2), 0, trade_time, &mut events);

    assert_eq!(
        events,
        vec![
            LevelEvent::Add { size: trade_size.div_int(2) },
            LevelEvent::Take {
                size: trade_size.div_int(2),
                visible_size_on_book: fixed(0),
                trade_idx: 0,
            },
        ]
    );

    assert_eq!(tracker.inferred_size(), Size::zero());
    assert_eq!(tracker.total_size_removal(), Size::zero());

    events.clear();
    tracker.on_trade(trade_size.div_int(2), 0, trade_time, &mut events);

    assert_eq!(
        events,
        vec![
            LevelEvent::Add { size: trade_size.div_int(2) },
            LevelEvent::Take {
                size: trade_size.div_int(2),
                visible_size_on_book: fixed(0),
                trade_idx: 0,
            },
        ]
    );

    assert_eq!(tracker.inferred_size(), Size::zero());
    assert_eq!(tracker.total_size_removal(), Size::zero());

    events.clear();
    tracker.new_diff_size(trade_size, add_time, &mut events);
    assert_eq!(events, vec![]);

    assert_eq!(tracker.total_size_removal(), trade_size);
    assert_eq!(tracker.inferred_size(), Size::zero());

    tracker.new_diff_size(Size::zero(), trade_time, &mut events);
    assert_eq!(events, vec![]);
    assert_eq!(tracker, LevelTracker::default_with_ts(trade_time));
}

// True series of events:
// 1. Level is added, size X price Y
// 2. Level is canceled
// 3. Level is added, size X price Y
// 4. Take clears level

// Events we see are:
// 1. A trade happens at price Y for size X
//  * We generate a synthetic add for X and a trade for X,
// 2. We see the add for X at Y
//  * We remove our synthetic add but otherwise don't act, since we already saw the add
// 3. We see the diff for 0, however this *does not* excise the added trade
//  * We must generate a synthetic add and a cancel, since we realize liquidity must have been added and deleted
//  * The cancel comes second so we don't generate a bad intermediate state
// 4. We see the add for X at Y.
//  * This clears our next synthetic add from the buffer, but otherwise has no impact
// 5. We see the final diff for zero, which excises the trades
//  * This should result in a cleared state
#[test]
fn test_early_trade_reinsert() {
    let mut tracker = LevelTracker::default();
    let mut events = Vec::new();

    let trade_size = fixed(2);
    let add_time = 1;
    let remove_time = 2;
    let re_add_time = 3;
    let trade_time = 4;

    tracker.on_trade(trade_size, 0, trade_time, &mut events);

    assert_eq!(
        events,
        vec![
            LevelEvent::Add { size: trade_size },
            LevelEvent::Take {
                size: trade_size,
                visible_size_on_book: fixed(0),
                trade_idx: 0,
            },
        ]
    );

    assert_eq!(tracker.inferred_size(), Size::zero());
    assert_eq!(tracker.total_size_removal(), Size::zero());

    events.clear();
    tracker.new_diff_size(trade_size, add_time, &mut events);

    assert_eq!(events, vec![]);
    assert_eq!(tracker.total_size_removal(), trade_size);
    assert_eq!(tracker.inferred_size(), Size::zero());

    tracker.new_diff_size(Size::zero(), remove_time, &mut events);

    assert_eq!(
        events,
        vec![
            LevelEvent::Add { size: trade_size },
            LevelEvent::Cancel { size: trade_size },
        ]
    );

    assert_eq!(tracker.total_size_removal(), Size::zero());
    assert_eq!(tracker.inferred_size(), Size::zero());

    events.clear();

    tracker.new_diff_size(trade_size, re_add_time, &mut events);
    assert_eq!(events, vec![]);

    assert_eq!(tracker.total_size_removal(), trade_size);
    assert_eq!(tracker.inferred_size(), Size::zero());

    tracker.new_diff_size(Size::zero(), trade_time, &mut events);
    assert_eq!(events, vec![]);
    assert_eq!(tracker, LevelTracker::default_with_ts(trade_time));
}

// True series of events:
// 1. A level is added for X at price Y
// 2. A trade takes out X/2
// 3. The level is resized to X

// Delivered series of events
// 1. We see the trade for X/2
//  * Add X/2
//  * Take X/2
// 2. We see the diff for X, with the later timestamp of 3
// * Remove the synthetic add for X/2 and cached trade
// * Generate an add for X
#[test]
fn test_interleaved_add_trade() {
    let mut tracker = LevelTracker::default();
    let mut events = Vec::new();

    let trade_size = fixed(1);
    let level_size = trade_size.times_int(2);
    let first_trade_time = 1;
    let re_add_time = 3;

    tracker.on_trade(trade_size, 0, first_trade_time, &mut events);

    assert_eq!(
        events,
        vec![
            LevelEvent::Add { size: trade_size },
            LevelEvent::Take {
                size: trade_size,
                visible_size_on_book: fixed(0),
                trade_idx: 0,
            },
        ]
    );

    assert_eq!(tracker.inferred_size(), Size::zero());
    assert_eq!(tracker.total_size_removal(), Size::zero());

    events.clear();
    tracker.new_diff_size(level_size, re_add_time, &mut events);

    assert_eq!(events, vec![LevelEvent::Add { size: level_size }]);
    assert_eq!(tracker.total_size_removal(), Size::zero());
    assert_eq!(tracker.inferred_size(), level_size);
}

// True series of events:
// 1. A level is added for X at price Y
// 2. A trade takes out X/2
// 3. The level is resized to X/4

// Delivered series of events
// 1. We see the trade for X/2
//  * Add X/2
//  * Take X/2
// 2. We see the diff for X/4, with the later timestamp of 3
// * Remove the synthetic add for X/2 and cached trade
// * Generate an add for X/4

// Notably, the true order stream is add X, trade x/2, cancel x/4.
// This is invisible to us since we never see information that there were more adds
// However the result sums up properly
#[test]
fn test_interleaved_add_trade_cancel() {
    let mut tracker = LevelTracker::default();
    let mut events = Vec::new();

    let true_level_size = fixed(2);
    let trade_size = true_level_size.div_int(2);
    let level_size = true_level_size.div_int(4);
    let first_trade_time = 1;
    let re_add_time = 3;

    tracker.on_trade(trade_size, 0, first_trade_time, &mut events);

    assert_eq!(
        events,
        vec![
            LevelEvent::Add { size: trade_size },
            LevelEvent::Take {
                size: trade_size,
                visible_size_on_book: fixed(0),
                trade_idx: 0,
            },
        ]
    );

    assert_eq!(tracker.inferred_size(), Size::zero());
    assert_eq!(tracker.total_size_removal(), Size::zero());

    events.clear();
    tracker.new_diff_size(level_size, re_add_time, &mut events);

    assert_eq!(events, vec![LevelEvent::Add { size: true_level_size.div_int(4) }]);
    assert_eq!(tracker.total_size_removal(), Size::zero());
    assert_eq!(tracker.inferred_size(), level_size);
}

// True series of events:
// 1. A level is added for X at price Y
// 2. The size is decreased to X/2
// 3. The size is increased to 2X
// 4. A trade takes out 3x/2

// Delivered series of events
// 1. We see the diff for X
//  * We generate an add for X
// 2. We see the trade for 3x/2
//  * We generate a synthetic add of X/2
//  * We generate a take of 3x/2
// 3. We see the diff for X/2 (before the trade)
//  * We have to generate another add of X/2
//  * We generate a cancel of X/2
//  * The add comes before the cancel, otherwise we have a negative intermediate state
#[test]
fn test_interleaved_add_large_trade_early_cancel() {
    let mut tracker = LevelTracker::default();
    let mut events = Vec::new();

    let level_size = fixed(2);
    let trade_size = level_size.times_int(3).div_int(2);
    let small_level_size = level_size.div_int(2);
    let first_diff_time = 0;
    let second_diff_time = 1;
    let trade_time = 3;

    tracker.new_diff_size(level_size, first_diff_time, &mut events);

    assert_eq!(events, vec![LevelEvent::Add { size: level_size }]);

    assert_eq!(tracker.inferred_size(), level_size);
    assert_eq!(tracker.total_size_removal(), Size::zero());

    events.clear();

    tracker.on_trade(trade_size, 0, trade_time, &mut events);

    assert_eq!(
        events,
        vec![
            LevelEvent::Add { size: trade_size.minus(level_size) },
            LevelEvent::Take {
                size: trade_size,
                visible_size_on_book: level_size,
                trade_idx: 0,
            },
        ]
    );

    assert_eq!(tracker.inferred_size(), Size::zero());
    assert_eq!(tracker.total_size_removal(), level_size);

    events.clear();
    tracker.new_diff_size(small_level_size, second_diff_time, &mut events);

    assert_eq!(
        events,
        vec![
            LevelEvent::Add { size: level_size.minus(small_level_size) },
            LevelEvent::Cancel { size: level_size.minus(small_level_size) },
        ]
    );

    assert_eq!(tracker.inferred_size(), Size::zero());
    assert_eq!(tracker.total_size_removal(), small_level_size);
}

// True series of events:
// 1. A level is added for X at price Y
// 2. The size is decreased to X/4
// 3. The size is increased to X
// 4. A trade takes out X/2

// Delivered series of events
// 1. We see the diff for X
//  * We generate an add for X
// 2. We see the trade for X/2
//  * We generate a take of X/2
// 3. We see the diff for X/4 (before the trade)
//  * We generate a cancel of X/4. This can come first since it doesn't send us negative
//  * We have to generate another add of X/4
//  * We also generate the remaining cancel of X/2
#[test]
fn test_interleaved_add_small_trade_early_cancel() {
    let mut tracker = LevelTracker::default();
    let mut events = Vec::new();

    let level_size = fixed(2);
    let trade_size = level_size.div_int(2);
    let small_level_size = level_size.div_int(4);
    let first_diff_time = 0;
    let second_diff_time = 1;
    let trade_time = 3;

    tracker.new_diff_size(level_size, first_diff_time, &mut events);

    assert_eq!(events, vec![LevelEvent::Add { size: level_size }]);

    assert_eq!(tracker.inferred_size(), level_size);
    assert_eq!(tracker.total_size_removal(), Size::zero());

    events.clear();

    tracker.on_trade(trade_size, 0, trade_time, &mut events);

    assert_eq!(
        events,
        vec![LevelEvent::Take {
            size: trade_size,
            visible_size_on_book: level_size,
            trade_idx: 0,
        }]
    );

    assert_eq!(tracker.inferred_size(), level_size.minus(trade_size));
    assert_eq!(tracker.total_size_removal(), trade_size);

    events.clear();
    tracker.new_diff_size(small_level_size, second_diff_time, &mut events);

    assert_eq!(tracker.inferred_size(), Size::zero());
    assert_eq!(tracker.total_size_removal(), small_level_size);

    assert_eq!(
        events,
        vec![
            LevelEvent::Cancel { size: small_level_size },
            LevelEvent::Add { size: small_level_size },
            LevelEvent::Cancel { size: level_size.div_int(2) },
        ]
    );
}

// True series of events:
// 1. A level is added for X at price Y
// 2. The size is decreased to 0
// 2. A level is added for X at price Y again
// 4. A trade takes out X/2

// Delivered series of events
// 1. We see the trade for X/2
//  * We generate a synthetic add of X/2
//  * We generate a take of X/2
// 2. We see the diff for X (before the trade)
//  * We generate an add of X / 2, remove the synthetic add
// 2. We see the diff for 0 (before the trade)
//  * We generate a cancel of X/2 (only partially, since we don't have surplus)
//  * We generate another synthetic add of X/2
//  * We commplete the cancellation by adding the final cancel for X/2
#[test]
fn test_multiple_reconcilliation_cancels() {
    let mut tracker = LevelTracker::default();
    let mut events = Vec::new();

    let level_size = fixed(2);
    let trade_size = level_size.div_int(2);
    let second_diff_time = 1;
    let trade_time = 3;

    tracker.on_trade(trade_size, 0, trade_time, &mut events);

    assert_eq!(
        events,
        vec![
            LevelEvent::Add { size: trade_size },
            LevelEvent::Take {
                size: trade_size,
                visible_size_on_book: fixed(0),
                trade_idx: 0,
            },
        ]
    );

    assert_eq!(tracker.inferred_size(), Size::zero());
    assert_eq!(tracker.total_size_removal(), Size::zero());

    events.clear();
    tracker.new_diff_size(level_size, second_diff_time, &mut events);
    assert_eq!(events, vec![LevelEvent::Add { size: level_size.minus(trade_size) }]);

    assert_eq!(tracker.inferred_size(), level_size.minus(trade_size));
    assert_eq!(tracker.total_size_removal(), trade_size);

    events.clear();
    tracker.new_diff_size(Size::zero(), second_diff_time, &mut events);

    assert_eq!(tracker.inferred_size(), Size::zero());
    assert_eq!(tracker.total_size_removal(), Size::zero());

    assert_eq!(
        events,
        vec![
            LevelEvent::Cancel { size: trade_size },
            LevelEvent::Add { size: trade_size },
            LevelEvent::Cancel { size: level_size.minus(trade_size) },
        ]
    );
}

// True series of events:
// 1. A level is added for X at price Y
// 2. We mark the level for future deletion
// 3. We see a diff for 0

// Delivered series of events
// 1. We see the diff for X
//  * Add X
// 2. We mark X for deletion
// * Generate a cancel for X
// 3. We mark X for deletion
// * No events
#[test]
fn test_basic_deletion_mark() {
    let mut tracker = LevelTracker::default();
    let mut events = Vec::new();

    let level_size = fixed(2);
    let diff_time = 1;
    let mark_time = 3;

    events.clear();
    tracker.new_diff_size(level_size, diff_time, &mut events);

    assert_eq!(events, vec![LevelEvent::Add { size: level_size }]);
    assert_eq!(tracker.inferred_size(), level_size);

    events.clear();
    tracker.mark_for_deletion(mark_time, &mut events);

    assert_eq!(events, vec![LevelEvent::Cancel { size: level_size }]);
    assert_eq!(tracker.inferred_size(), Size::zero());

    events.clear();
    tracker.new_diff_size(Size::zero(), mark_time, &mut events);

    assert_eq!(events, vec![]);
    assert_eq!(tracker.inferred_size(), Size::zero());
}

// True series of events:
// 1. A level is added for X at price Y
// 2. We see a trade for X/2
// 3. We mark the level for future deletion
// 4. We see a diff for 0

// Delivered series of events
// 1. We see the diff for X
//  * Add X
// 2. We see a trade for X/2
// * Generate a take for X/2
// 3. We mark X for deletion
// * Generate a cancel for remaining X / 2
// 4. See a diff for zero
// * No events
#[test]
fn test_mixed_trade_mark() {
    let mut tracker = LevelTracker::default();
    let mut events = Vec::new();

    let level_size = fixed(2);
    let diff_time = 1;
    let trade_time = 2;
    let mark_time = 3;

    events.clear();
    tracker.new_diff_size(level_size, diff_time, &mut events);

    assert_eq!(events, vec![LevelEvent::Add { size: level_size }]);
    assert_eq!(tracker.inferred_size(), level_size);

    events.clear();
    tracker.on_trade(level_size.div_int(2), 0, trade_time, &mut events);

    assert_eq!(
        events,
        vec![LevelEvent::Take {
            size: level_size.div_int(2),
            visible_size_on_book: level_size,
            trade_idx: 0,
        }]
    );
    assert_eq!(tracker.inferred_size(), level_size.div_int(2));

    events.clear();
    tracker.mark_for_deletion(mark_time, &mut events);

    assert_eq!(events, vec![LevelEvent::Cancel { size: level_size.div_int(2) }]);
    assert_eq!(tracker.inferred_size(), Size::zero());

    events.clear();
    tracker.new_diff_size(Size::zero(), mark_time, &mut events);

    assert_eq!(events, vec![]);
    assert_eq!(tracker.inferred_size(), Size::zero());
}

// True series of events:
// 1. A level is added for X at price Y
// 2. We see a trade for X/2
// 3. We mark the level for future deletion
// 4. We see a diff for 0

// Delivered series of events
// 1. We see a trade for X/2
// * Generate an add for X/2
// * Generate an take for X/2
// 3. We mark X for deletion
// * No new events generated
// 4. See a diff for zero
// * No events
#[test]
fn test_mark_early_trade() {
    let mut tracker = LevelTracker::default();
    let mut events = Vec::new();

    let level_size = fixed(2);
    let trade_time = 2;
    let mark_time = 3;

    tracker.on_trade(level_size.div_int(2), 0, trade_time, &mut events);

    assert_eq!(
        events,
        vec![
            LevelEvent::Add { size: level_size.div_int(2) },
            LevelEvent::Take {
                size: level_size.div_int(2),
                visible_size_on_book: fixed(0),
                trade_idx: 0,
            },
        ]
    );
    assert_eq!(tracker.inferred_size(), Size::zero());

    events.clear();
    tracker.mark_for_deletion(mark_time, &mut events);

    assert_eq!(events, vec![]);
    assert_eq!(tracker.inferred_size(), Size::zero());

    events.clear();
    tracker.new_diff_size(Size::zero(), mark_time, &mut events);

    assert_eq!(events, vec![]);
    assert_eq!(tracker.inferred_size(), Size::zero());
}

// True series of events:
// 1. A level is added for X at price Y
// 2. X is canceled
// 3. We mark the level for future deletion (implies the prior cancel)
// 4. Somebody adds X/2
// 3. We see a trade for X/2
// 4. We see a diff for 0

// Delivered series of events
// 1. We see the diff for X
//  * Add X
// 3. We mark X for deletion
// * Generate a cancel for X
// 2. We see a trade for X/2
// * Generate a take for X/2
// 4. See a diff for zero
// * No events
#[test]
fn test_trade_after_mark() {
    let mut tracker = LevelTracker::default();
    let mut events = Vec::new();

    let level_size = fixed(2);
    let diff_time = 1;
    let mark_time = 2;
    let trade_time = 3;

    events.clear();
    tracker.new_diff_size(level_size, diff_time, &mut events);

    assert_eq!(events, vec![LevelEvent::Add { size: level_size }]);
    assert_eq!(tracker.inferred_size(), level_size);

    events.clear();
    tracker.mark_for_deletion(mark_time, &mut events);

    assert_eq!(events, vec![LevelEvent::Cancel { size: level_size }]);
    assert_eq!(tracker.inferred_size(), Size::zero());

    events.clear();
    tracker.on_trade(level_size.div_int(2), 3, trade_time, &mut events);

    assert_eq!(
        events,
        vec![
            LevelEvent::Add { size: level_size.div_int(2) },
            LevelEvent::Take {
                size: level_size.div_int(2),
                visible_size_on_book: fixed(0),
                trade_idx: 3,
            },
        ]
    );
    assert_eq!(tracker.inferred_size(), Size::zero());

    events.clear();
    tracker.new_diff_size(Size::zero(), mark_time, &mut events);

    assert_eq!(events, vec![]);
    assert_eq!(tracker.inferred_size(), Size::zero());
}

// True series of events:
// 1. A level is added for X at price Y
// 2. Size is increased to 2X
// 3. 2X is canceled
// 4. We mark the level for future deletion (implies the prior cancel)
// 7. We see a diff for 0

// Delivered series of events
// 1. We see the diff for X
//  * Add X
// 2. We mark X for deletion
// * Generate a cancel for X
// 3. We see an add for 2x
// * Generate another add for X
// * Generate another cancel for X
// 4. See a diff for zero
// * No events
#[test]
fn test_add_after_mark() {
    let mut tracker = LevelTracker::default();
    let mut events = Vec::new();

    let level_size = fixed(2);
    let diff_time = 1;
    let mark_time = 2;

    events.clear();
    tracker.new_diff_size(level_size, diff_time, &mut events);

    assert_eq!(events, vec![LevelEvent::Add { size: level_size }]);
    assert_eq!(tracker.inferred_size(), level_size);

    events.clear();
    tracker.mark_for_deletion(mark_time, &mut events);

    assert_eq!(events, vec![LevelEvent::Cancel { size: level_size }]);
    assert_eq!(tracker.inferred_size(), Size::zero());

    events.clear();
    tracker.new_diff_size(level_size.plus(level_size), diff_time, &mut events);

    assert_eq!(
        events,
        vec![
            LevelEvent::Add { size: level_size },
            LevelEvent::Cancel { size: level_size },
        ]
    );

    events.clear();
    tracker.new_diff_size(Size::zero(), mark_time, &mut events);

    assert_eq!(events, vec![]);
    assert_eq!(tracker.inferred_size(), Size::zero());
}

// True series of events:
// 1. A level is added for X at price Y
// 2. X is canceled
// 3. We mark the level for future deletion (implies the prior cancel)
// 4. A level is added for X at price Y again
// 5. A trade clears X

// Delivered series of events
// 1. We see the take of X
//  * Add X
//  * Take X
// 2. Level is marked for deletion (with a timestamp earlier than the trade)
//  * No events
// 3. We see an add for X
//   * Add size X
//   * Remove size X
//   * We regenerate events since we know that somebody had to add/delete in order to make it work
// 3. We see a diff of 0
//   * No events

// Equivalently to the above, a level can be marked before existing
// If we see a buy at 11, that implicitly marks 10 for deletion
// So when we see a take at 10 later, we have an implicit early 'mark for deletion'
#[test]
fn test_mark_trade_reordering() {
    let mut tracker = LevelTracker::default();
    let mut events = Vec::new();

    let level_size = fixed(2);
    let diff_time = 1;
    let mark_time = 2;
    let delete_time = 4;

    events.clear();
    tracker.on_trade(level_size, 0, delete_time, &mut events);

    assert_eq!(
        events,
        vec![
            LevelEvent::Add { size: level_size },
            LevelEvent::Take {
                size: level_size,
                visible_size_on_book: fixed(0),
                trade_idx: 0,
            },
        ]
    );
    assert_eq!(tracker.inferred_size(), Size::zero());

    events.clear();
    tracker.mark_for_deletion(mark_time, &mut events);

    assert_eq!(events, vec![]);
    assert_eq!(tracker.inferred_size(), Size::zero());

    events.clear();
    tracker.new_diff_size(level_size, diff_time, &mut events);

    assert_eq!(
        events,
        vec![
            LevelEvent::Add { size: level_size },
            LevelEvent::Cancel { size: level_size },
        ]
    );
    assert_eq!(tracker.inferred_size(), Size::zero());

    events.clear();
    tracker.new_diff_size(Size::zero(), delete_time, &mut events);

    assert_eq!(events, vec![]);
    assert_eq!(tracker.inferred_size(), Size::zero());
}

// True series of events:
// 1. A level is added for X at price Y
// 2. X is traded through
// 3. A level is added for X at price Y again
// 4. X is canceled
// 5. We mark the level for future deletion (implies the prior cancel)

// Delivered series of events
// 1. We see the take of X
//  * Add X
//  * Take X
// 2. Level is marked for deletion (with a timestamp later than the trade)
//  * No events
// 3. We see an add for X with a timestamp before the trade
//   * No events
// 4. We see an add for X with a timestamp after the trade and before the mark
//   * We generate an add for X
//   * We generate a cancel for X
// 5. We see a diff of 0
//   * No events

// Equivalently to the above, a level can be marked before existing
// If we see a buy at 11, that implicitly marks 10 for deletion
// So when we see a take at 10 later, we have an implicit early 'mark for deletion'
#[test]
fn test_mark_trade_reordering_2() {
    let mut tracker = LevelTracker::default();
    let mut events = Vec::new();

    let level_size = fixed(2);
    let diff_time = 1;
    let trade_time = 2;
    let second_diff_time = 3;
    let mark_time = 4;

    events.clear();
    tracker.on_trade(level_size, 1, trade_time, &mut events);

    assert_eq!(
        events,
        vec![
            LevelEvent::Add { size: level_size },
            LevelEvent::Take {
                size: level_size,
                visible_size_on_book: fixed(0),
                trade_idx: 1,
            },
        ]
    );
    assert_eq!(tracker.inferred_size(), Size::zero());

    events.clear();
    tracker.mark_for_deletion(mark_time, &mut events);

    assert_eq!(events, vec![]);
    assert_eq!(tracker.inferred_size(), Size::zero());

    events.clear();
    tracker.new_diff_size(level_size, diff_time, &mut events);

    assert_eq!(events, vec![]);
    assert_eq!(tracker.inferred_size(), Size::zero());

    events.clear();
    tracker.new_diff_size(level_size, second_diff_time, &mut events);

    assert_eq!(
        events,
        vec![
            LevelEvent::Add { size: level_size },
            LevelEvent::Cancel { size: level_size },
        ]
    );
    assert_eq!(tracker.inferred_size(), Size::zero());

    events.clear();
    tracker.new_diff_size(Size::zero(), mark_time, &mut events);

    assert_eq!(events, vec![]);
    assert_eq!(tracker.inferred_size(), Size::zero());
}
