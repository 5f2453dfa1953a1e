//! File redirection for archive-based game data: a model of the host's
//! directory tables, the override description format, the read-side
//! decisions that pick a replacement file, and the raw-chunk container the
//! host's decompressor accepts.
pub mod compress;
pub mod dir;
pub mod dirjson;
pub mod name;
pub mod overrides;
pub mod redirect;
pub mod sigscan;
