//! Bulk-rename and bulk-delete planning for a single directory, done by
//! editing a plain-text listing of its filenames: a frozen snapshot is
//! serialized one name per line, the edited text is parsed back and compared
//! position by position, and the derived renames and deletions are applied
//! with collision handling that resolves rename cycles and chains through
//! temporary auxiliary paths without ever losing a file.

pub mod codec;
pub mod executor;
pub mod extract;
pub mod model;
pub mod namegen;
pub mod snapshot;
