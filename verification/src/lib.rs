//! A sampling profiler's address lookups, its reading of perf events, its process
//! bookkeeping and its preload library.

pub mod lib_mappings;
pub mod linux;
pub mod mac;
pub mod preload;
pub mod text;
pub mod v8_fields;
pub mod v8_inline;
