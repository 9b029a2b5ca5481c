//! A plain-text workout log.
//!
//! The log is a UTF-8 text file partitioned by date headers (`YYYY-MM-DD`
//! lines). The library holds the verified core: calendar arithmetic and
//! date-range derivation, the header-ensure logic that keeps at most one
//! header per day, entry-line formatting, and the scanner that attributes
//! each line to the nearest preceding header and filters by range and
//! pattern. File and terminal I/O stay outside the library.

pub mod bounds;
pub mod date;
pub mod entry;
pub mod scan;
pub mod text;
pub mod writer;
