//! Notes on disk and their Google Drive copies: the rules that decide what is
//! listed, found, moved, kept and synchronised.

pub mod text;
pub mod text_laws;
pub mod paths;
pub mod pathmap;
pub mod clock;
pub mod index;
pub mod remote;
pub mod plan;
pub mod sync_model;
pub mod sync;
pub mod sync_laws;
pub mod sync_twice;
pub mod step_laws;
pub mod sort;
pub mod bytes;
pub mod listing;
pub mod tree;
pub mod tree_laws;
pub mod notes;
pub mod write;
pub mod steps;
pub mod conflict;
pub mod trash;
pub mod trash_laws;
pub mod disk_laws;
pub mod file_laws;
pub mod search;
pub mod search_laws;
pub mod url;
pub mod login;
pub mod turns;
pub mod drive;
pub mod session;
pub mod reset;
pub mod google_laws;
pub mod recent;
pub mod local;
pub mod list_laws;
