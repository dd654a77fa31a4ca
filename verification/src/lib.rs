//! Measuring web map tile services: the tile arithmetic, the per-request
//! bookkeeping and the text that the report and the terminal view show.
pub mod coordinates;
pub mod request_handler;
pub mod statistics;
pub mod strategies;
pub mod tally;
pub mod text;
pub mod tui;
