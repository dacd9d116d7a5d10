use vstd::prelude::*;

verus! {

/// Where the application keeps its data: the database file, the directory
/// of active note files and the directory of archived ones.
#[derive(Debug, Clone)]
pub struct PathsConfig {
    pub db_path: String,
    pub zettel_dir: String,
    pub archive_dir: String,
}

/// The command the application launches to edit a note file.
#[derive(Debug, Clone)]
pub struct EditorConfig {
    pub editor: String,
}

/// Everything the application reads from its configuration file, handed to
/// the library as plain strings.
#[derive(Debug, Clone)]
pub struct AppConfig {
    pub paths: PathsConfig,
    pub editor: EditorConfig,
}

} // verus!
