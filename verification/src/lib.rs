//! The pure half of a desktop editor host: text editing operations, character
//! encodings, git history, document search and replace, the automation bus and the
//! terminal sessions. Reading, writing and drawing happen around it.

// Text, bytes and order.
pub mod text;
pub mod text_laws;
pub mod utf8;
pub mod utf16;
pub mod pattern;
pub mod paths;
pub mod sort;
pub mod picks;
pub mod civil;
pub mod project;

// Edits of a buffer.
pub mod edit_ops;
pub mod edit_laws;
pub mod edit_line_laws;

// Character encodings.
pub mod encoding_ops;
pub mod encoding_laws;
pub mod encoding_byte_laws;

// History of a repository.
pub mod git_more;
pub mod git_laws;
pub mod git_text_laws;

// Documents.
pub mod doc_search;
pub mod doc_collect;
pub mod doc_replace;
pub mod doc_laws;
pub mod doc_find_laws;
pub mod doc_replace_laws;
pub mod doc_collect_laws;

// The window.
pub mod bus;
pub mod terminal;
