//! Project tree and filesystem synchronization engine for a
//! long-form writing tool.
//!
//! A project is a directory on disk: a `Chapters/` directory with
//! one subdirectory per chapter, each chapter owning a `Notes/` and
//! an `Extras/` area, beside `Backups/`, `Exports/` and the hidden
//! index file `.papersmith.json`.  The engine keeps an in-memory
//! model of that directory tree ([`vfs::Vfs`]), validates candidate
//! paths against it, performs the structural mutations (create,
//! rename with a cross-filesystem copy fallback, delete) on it, and
//! patches the in-memory [`Project`] (reorder, delete, rename,
//! append) so the two representations stay consistent.  Chapter
//! order and the active chapter persist only in the index: loading
//! reads the index snapshot first and falls back to a directory
//! scan when it is missing or corrupt, saving writes the snapshot
//! back, and loading what was saved gives the same project again.
//! The interactive surface mirrors the model from and to the real
//! disk.

pub mod checking;
pub mod digits;
pub mod index;
pub mod loader;
pub mod paths;
pub mod project;
pub mod saving;
pub mod sidebar;
pub mod statistics;
pub mod vfs;

pub use project::PaperSmithError;
pub use project::Project;
pub use project::Settings;
