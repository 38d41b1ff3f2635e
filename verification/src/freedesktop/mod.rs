//! Applications described by freedesktop.org desktop entry files.

pub mod desktop_entry;
pub mod ini_doc;
