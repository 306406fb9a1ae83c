//! Discovery, indexing and ranking of structured recipe documents
//! (`.cook` / `.menu` files).
//!
//! The crate models filesystem paths as plain UTF-8 strings and keeps all
//! decision logic — frontmatter extraction, name resolution, image-convention
//! matching, relevance scoring, tree building — as verified functions over
//! such plain values.  The thin layer that actually touches the disk hands
//! directory listings and file texts in as values.

pub mod entry;
pub mod fetch;
pub mod ffi;
pub mod metadata;
pub mod paths;
pub mod related;
pub mod search;
pub mod step_images;
pub mod text;
pub mod tree;

pub use entry::{RecipeEntry, RecipeEntryError, RecipeSource};
pub use metadata::Metadata;
pub use tree::RecipeTree;
