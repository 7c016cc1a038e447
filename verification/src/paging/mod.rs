//! Sv39 paging: entry flags, addresses, page table entries and tables.
pub mod entry;
pub mod flags;
pub mod table;
