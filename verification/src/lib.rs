//! Verified core of the memvid time index track and memory helpers.
pub mod checksum;
pub mod codec;
pub mod entry;
pub mod memvid;
pub mod range;
pub mod search_text;
pub mod time_index;
pub mod track;
