//! Introspection of a process's virtual memory.
//!
//! The library models the kernel's per-process textual region table, the
//! per-virtual-page binary page-table snapshot, and the two global
//! per-physical-frame binary tables (flags and reference counts).  It offers
//! a region-table parser and printer with a proved round-trip law, decoders
//! for the two 8-byte binary record formats, region lookup by address, and
//! the per-region page iterator's decision logic.  File access itself is left
//! to the caller, who hands the library the bytes and lines it read.

pub mod error;
pub mod fmt;
pub mod io;
pub mod kpageflags;
pub mod maps;
pub mod pagemaps;
pub mod paths;
pub mod text;
