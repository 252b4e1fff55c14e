//! Minecraft's Named Binary Tag data model and its textual form (SNBT):
//! an encoder from tags to text and the start of a decoder from text.
pub mod snbt;
pub mod text;
pub mod types;

pub use types::{Compound, NamedTag, Tag, TagType};
