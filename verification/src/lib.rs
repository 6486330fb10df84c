//! Text processing for an audiobook-style reader: chapter extraction from
//! PDF and EPUB content, HTML stripping and footnote filtering, chunking of
//! text for speech, the speech session state machine and the book library.

pub mod text;
pub mod chunking;
pub mod html_strip;
pub mod words;
pub mod html_tree;
pub mod epub_text;
pub mod chapters;
pub mod tts;
pub mod paths;
pub mod library;
pub mod pdf_text;
