//! Decisions behind the hover preview of text and PDF files: which files are
//! shown as text, how their bytes are decoded, how a text page is laid out,
//! and which PDF preview handler is used.

pub mod pdf_handler;
pub mod chars;
pub mod text_decode;
pub mod file_kind;
pub mod text_layout;
pub mod preview;
