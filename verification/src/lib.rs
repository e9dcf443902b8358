//! Lottery history analysis: draw records, reading the draw sheet,
//! prediction algorithms, candidate filters, and the back-testing that
//! picks the best history depth.

pub mod algos;
pub mod calculator;
pub mod combine;
pub mod filters;
pub mod optimize;
pub mod predict;
pub mod read;
pub mod ticket;

pub use algos::{friends, multiply, quiet, spine_sort};
pub use filters::{bell, even_odd};
pub use ticket::{Date, LotteryTicket};
