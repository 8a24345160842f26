//! A small bookmark stash: an ordered list of links kept in a JSON file,
//! addressed by 1-based indices counted from the most recently added entry.

mod cli;
mod json;
mod link;
mod store;

pub use cli::CLI;
pub use cli::Commands;
pub use cli::IndexArg;
pub use cli::LinkArg;
pub use cli::OpenArgs;
pub use json::lemma_store_round_trip;
pub use json::parse_store;
pub use json::save_store;
pub use json::ser_store;
pub use json::sp_doc;
pub use link::Link;
pub use link::LinkV;
pub use link::store_view;
pub use store::StashError;
pub use store::delete_link;
pub use store::display_position;
pub use store::lemma_add_save_load;
pub use store::lemma_delete_ends;
pub use store::lemma_list_is_reverse;
pub use store::lemma_load_empty_text;
pub use store::lemma_load_fallback;
pub use store::lemma_save_load_stable;
pub use store::list_all;
pub use store::load_store;
pub use store::open_link;
pub use store::spec_load;
pub use store::stash_link;
