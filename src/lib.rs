//! Extraction of translatable text from game data documents, and the
//! write-back of translations into those documents.

pub mod document;
pub mod text;
pub mod events;
pub mod path;
pub mod analyzer;
pub mod keys;
pub mod walk;
pub mod mutate;
pub mod rpgm;
pub mod renpy;
pub mod unity;
