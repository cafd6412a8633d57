//! Departure, canteen and calendar board: the verified core.
//!
//! The modules hold the logic of the board; fetching pages over the network
//! and rendering them is left to the application around this library.

pub mod calendar;
pub mod clock;
mod ical;
pub mod mensa;
pub mod text;
pub mod trains;
