//! A `locate`-style filename index.
//!
//! An offline builder turns a sorted list of paths into a compact
//! front-compressed database; an online searcher streams that database and
//! returns the paths matching a conjunction of case-insensitive substring
//! queries.

pub mod builder;
pub mod codec;
pub mod compress;
pub mod matcher;
pub mod search;
pub mod stat;
pub mod util;
