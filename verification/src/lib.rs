//! Blurb summarizing for daily puzzle games.
//!
//! Raw "share your result" text pasted by the user is classified against a
//! fixed registry of per-game processors; the recognized game's summary line
//! is collected into a day-scoped aggregate, kept sorted by game name, and
//! rendered as one date-headed, separator-delimited forum block.

pub mod dates;
pub mod games;
pub mod reducer;
pub mod text;

pub use games::{
    bracket_city, classify, clues_by_sam, daily_akari, duotrigordle, games, BracketCity,
    ClassifyError, CluesBySam, DailyAkari, Duotrigordle, Game, GameKind, Processor,
};
pub use reducer::DailyReducer;
