//! Core of an EPUB reader: opening a container archive, deriving a
//! flattened, ordered table of contents from its navigation document,
//! and resolving client-supplied logical paths to archive entries.

pub mod bytes;
pub mod container;
pub mod errors;
pub mod nav;
pub mod ncx;
pub mod path;
pub mod text;
pub mod xml;
pub mod zipio;
