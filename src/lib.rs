//! A single-table row store: fixed-width binary rows packed into pages, a
//! page cache over the image of the backing file, and a table that appends
//! and scans rows, with the statements that drive it.

pub mod layout;
pub mod bytes;
pub mod text;
pub mod row;
pub mod page;
pub mod pager;
pub mod table;
pub mod statement;
