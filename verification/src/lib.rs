pub mod abstract_lookup;
pub mod sort;
pub mod text;
pub mod frontmatter;
pub mod clock;
pub mod content;
pub mod transaction;
pub mod pending_sync;
pub mod summarize;
pub mod gemini;
pub mod zotero;
pub mod keychain;
pub mod state;
pub mod paths;
pub mod organizer;
pub mod pdf_import;

pub use state::AppState;
