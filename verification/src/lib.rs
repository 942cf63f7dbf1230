//! manview: man pages parsed into a renderer-agnostic document, a pager
//! model with cross-page links and in-page search, and a flag index
//! searchable across every installed page.
pub mod text;
pub mod html;
pub mod document;
pub mod links;
pub mod parse;
pub mod indexer;
pub mod search;
pub mod paths;
pub mod finder;
pub mod loader;
pub mod lines;
pub mod wrap;
pub mod pager;
pub mod numbers;
pub mod screen;
pub mod cli;

pub use document::{Block, DefItem, Document, Section, Span};
pub use finder::{discover_pages, PageRef};
pub use indexer::FlagEntry;
pub use loader::{find_man_page, load, load_from_path, read_raw, troff_to_html, ManError};
pub use parse::parse_document;
pub use search::search;
