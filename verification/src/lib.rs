//! Extracts questions and reference answers from exported `questionData.js` pages.

pub mod answers;
pub mod archive;
pub mod args;
pub mod classify;
pub mod entry;
pub mod fonts;
pub mod groups;
pub mod json;
pub mod layout;
pub mod page;
pub mod paths;
pub mod patterns;
pub mod render;
pub mod retelling;
pub mod sections;
pub mod sorting;
pub mod text;

pub use args::Args;
