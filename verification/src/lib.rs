//! Selection-state engine of a terminal tag browser: a cursor-addressed
//! listing, a persistent multi-path selection with recursive toggling, and a
//! merged summary of the selected files' metadata fields.

pub mod app;
pub mod display;
pub mod events;
pub mod list;
pub mod listing;
pub mod path;
pub mod selection;
pub mod subtree;
pub mod summary;
pub mod tags;
pub mod toggle;
