//! A table of case counts by region and day, held in memory: its rows and
//! header, paging through them, sorting by one or several columns, selecting
//! rows by index expressions, editing and deleting single rows, and the text
//! under which the table is stored.
//!
//! The library does no input or output. A caller reads lines and files,
//! hands the text over, and shows what comes back.

pub mod datastore;
pub mod edit;
pub mod logic;
pub mod number;
pub mod order;
pub mod persistence;
pub mod session;
pub mod text;
