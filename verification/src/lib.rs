//! Page-range expressions for assembling PDF documents.
//!
//! A range expression such as `"1 3-5r90 end"` selects pages of a source
//! document, one space-separated unit at a time: a single page, an interval,
//! or the literal `end` for the last page, each bound optionally carrying a
//! rotation suffix. The parser turns such an expression, together with the
//! source document's page count, into validated zero-based page ranges; the
//! assembler turns ranges into the ordered copy instructions that a PDF
//! engine executes to build the destination document.

pub mod assembler;
pub mod laws;
pub mod parser;
pub mod types;
