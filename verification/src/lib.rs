//! A flashcard template engine: a parser for a small placeholder
//! mini-language, a recursive renderer over the parsed tree, a pipeline of
//! named text filters, and a cloze-deletion engine that masks or reveals
//! marked spans of a field's text by card ordinal.
pub mod cloze;
pub mod filters;
pub mod template;
pub mod text;
