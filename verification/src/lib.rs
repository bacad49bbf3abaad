//! A localization and rich-text engine: it compiles printf/Java-style format
//! strings embedded in translation templates into compact, argument-reindexed
//! substitution templates, and it encodes/decodes runs of styled text
//! (bold, italic, underline, strikethrough, obfuscated, 16-color palette)
//! through a legacy "marker + code character" text encoding.

pub mod chars;
pub mod color;
pub mod directory;
pub mod formatter;
pub mod language;
pub mod plain;
pub mod style;
