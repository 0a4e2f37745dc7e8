//! Week calendar core: Gregorian date arithmetic, classification of agenda
//! events, lane assignment for overlapping events and the geometry of the
//! rectangles that display them.

pub mod clash;
pub mod classify;
pub mod date;
pub mod event;
pub mod gregorian;
pub mod obtain;
pub mod order;
pub mod render;
pub mod rgba;
pub mod text;
pub mod time;
pub mod ui;

pub use date::{Date, DateStream, DateString, ParseDateError};
pub use event::{Color, Error, Event, EventData, EventRange, Lane};
pub use time::{InvalidInput, Minutes, ParseTimeError, Time};
pub use ui::TextCreate;
