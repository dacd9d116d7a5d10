//! A personal note-management library: a relational record store for notes,
//! tags and note-tag relations, together with the rules that keep an
//! on-disk text-file mirror of each note coherent with the records.
//!
//! Everything here is verified. The pieces that touch the outside world
//! (the database file, the note files, the editor, the terminal) live in
//! the application around this library and hand plain values in and out.

pub mod config;
pub mod error;
pub mod lifecycle;
pub mod markdown;
pub mod model;
pub mod store;
pub mod tags;
pub mod text;
pub mod time;

pub use config::{AppConfig, EditorConfig, PathsConfig};
pub use error::ZettariumError;
pub use lifecycle::{apply_edit, confirms_removal, parse_find_selection, prepare_new_note};
pub use markdown::{
    backlink_syntax, is_backlink, markdown_file_name, parse_markdown_content, render_markdown,
    update_markdown_content,
};
pub use model::{Body, FrontMatter, Markdown, NoteType, Tag, Zettel, ZettelTag};
pub use store::Store;
pub use tags::{dedup_and_warn, dedup_with_discards, merge_tags};
pub use time::{generate_zettel_id, now_timestamp, Timestamp};
