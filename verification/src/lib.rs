//! A model of a page-mapping memory allocator: `malloc`, `calloc`,
//! `realloc` and `free` implemented over an explicit map of OS-backed
//! regions, with the in-band size header and the error-code contract
//! stated and proved.

pub mod allocator;
pub mod header;
pub mod lock;
pub mod os;
pub mod trace;

