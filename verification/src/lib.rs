//! Verified core of an NTFS driver: the on-disk record, attribute, run-list,
//! index and bitmap formats, and the rules by which they are changed.

pub mod attr_io;
pub mod attr_off;
pub mod attr_resize;
pub mod bitmap;
pub mod block_io;
pub mod bytes;
pub mod chunks;
pub mod cli;
pub mod compression;
pub mod compression_laws;
pub mod data_runs;
pub mod data_source;
pub mod dir;
pub mod disk_laws;
pub mod ea_io;
pub mod edit_laws;
pub mod facade;
pub mod format_args;
pub mod fsck;
pub mod idx_block;
pub mod index_edit;
pub mod index_io;
pub mod index_laws;
pub mod last_error;
pub mod layout_laws;
pub mod listing;
pub mod mft_io;
pub mod names;
pub mod node_laws;
pub mod paths;
pub mod reach_laws;
pub mod record_laws;
pub mod reparse;
pub mod replies;
pub mod resize_laws;
pub mod root_laws;
pub mod run_laws;
pub mod stat;
pub mod text;
pub mod text_laws;
pub mod time;
pub mod tool_laws;
pub mod upcase;
pub mod utf16;
pub mod value_laws;
