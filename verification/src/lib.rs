//! Reconstruction of a causally consistent order-book event log from two
//! racing exchange feeds: a depth feed reporting absolute resting size per
//! price level, and a trade tape reporting executions.
//!
//! `LevelTracker` reconciles the two feeds for a single (side, price) pair
//! and emits a minimal ordered sequence of atomic `LevelEvent`s whose replay
//! never implies a negative resting size. `EventOrderBook` replays those
//! event batches into sorted bid/ask levels, invoking a caller-supplied
//! `EventLevelAggregator` on level lifecycle transitions.

pub mod event_book;
pub mod events;
pub mod level_tracker;
pub mod size;
pub mod trades;
