//! Best-time records for obstacle courses: a deduplicated record store, bounded ranked
//! lists for the main course, and conversion to and from the table-literal text format.
//!
//! Times are counted in thousandths of a second. A `Session` holds a `Leaderboard`
//! and the projection last published of it; `Leaderboard::to_text` writes the
//! leaderboard as a table literal and `Leaderboard::import_text` takes one in. The
//! module `laws` states what holds of any run of submissions and of writing a
//! leaderboard and reading it back.

pub mod board;
pub mod export;
pub mod import;
pub mod laws;
pub mod parse;
pub mod ranked;
pub mod reading;
pub mod render;
pub mod restoring;
pub mod session;
pub mod store;
pub mod text;
pub mod time;
pub mod value;
