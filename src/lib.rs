//! A single-instrument order matching core: price/time priority matching
//! over two side books, feeding a running open/high/low/close tracker.

pub mod ohlc;
pub mod order_book;
pub mod side_book;
pub mod types;
