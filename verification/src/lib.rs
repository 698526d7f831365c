//! Line counts of a repository by author and by file type: every line is attributed to the
//! author of its last change, the counts are kept with their totals in agreement, and ranked
//! for a report.
//!
//! - [`blame`] finds the author's email in the lines of a blame record.
//! - [`filter`] decides which tracked files are left out.
//! - [`stats`] keeps the counts and ranks authors and file types.
//! - [`tally`] is the mathematical model of the counts, with the laws that hold of it.
//! - [`ranking`] is the order of a ranking, and puts entries into it.
//! - [`table`] lays the counts out as a report.

pub mod assoc;
pub mod blame;
pub mod filter;
pub mod ranking;
pub mod stats;
pub mod table;
pub mod tally;
pub mod text;
