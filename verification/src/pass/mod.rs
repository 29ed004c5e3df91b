//! The formatting passes, applied in sequence by the formatter.
pub mod blank_line;
pub mod section_header;
pub mod line_length;
pub mod whitespace;
pub mod edit;
pub mod derive;
pub mod chain;
pub mod import;
pub mod doc_comment;
