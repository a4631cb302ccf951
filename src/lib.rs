//! Adjective frequency analysis over the pages of a document.

pub mod report;
pub mod tagging;
pub mod walker;
pub mod word_map;
