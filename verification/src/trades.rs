//! Trade prints as the book-building core consumes them.

use vstd::prelude::*;

use crate::event_book::Side;
use crate::size::Size;

verus! {

/// One trade print with its exchange time and its index in the source tape.
#[derive(Debug, Clone, Copy, PartialEq, Eq)]
pub struct TimedTrade {
    pub price: Size,
    pub size: Size,
    pub side: Side,
    pub time: u64,
    pub trade_idx: usize,
}

/// Bind a raw trade print to its position in the tape. Only streams with
/// complete exchange timestamps are supported: a print without one is
/// excluded by contract.
pub fn trade_to_timed(
    price: Size,
    size: Size,
    side: Side,
    exchange_timestamp: Option<u64>,
    trade_idx: usize,
) -> (r: TimedTrade)
    requires
        exchange_timestamp is Some,
    ensures
        r.price == price,
        r.size == size,
        r.side == side,
        r.time == exchange_timestamp->Some_0,
        r.trade_idx == trade_idx,
{
    let time = match exchange_timestamp {
        Option::Some(t) => t,
        Option::None => 0,
    };
    TimedTrade { price, size, side, time, trade_idx }
}

} // verus!
