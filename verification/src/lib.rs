//! A block-oriented editor for very large files.

pub mod block;
pub mod cache;
pub mod cache_laws;
pub mod command;
pub mod command_laws;
pub mod config;
pub mod content;
pub mod cursor;
pub mod delta_table;
pub mod edit_laws;
pub mod edit_success;
pub mod editor;
pub mod encoding;
pub mod error;
pub mod history;
pub mod io_worker;
pub mod key_laws;
pub mod layout;
pub mod limits;
pub mod line_index;
pub mod message;
pub mod move_laws;
pub mod recovery;
pub mod search;
pub mod search_laws;
pub mod session;
pub mod text;
pub mod tui;
pub mod wal;

pub use config::{EditorConfig, OpenMode};
pub use error::{CacheError, EditError, IoError};
pub use message::{Direction, SaveReport, SearchResult};
