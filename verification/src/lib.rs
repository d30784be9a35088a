//! Typst documents with embedded R code chunks.
//!
//! A document is read by `document::parse_chunks`, which takes its chunks out of
//! it. Each chunk is run by the R script that `execution` writes for it, and
//! `render::render_outputs` puts what came of it where the document asks for it
//! with `#codekey(..)`. `session` holds the order in which this happens.
//!
//! What holds of all this, whatever the documents, is stated in `laws`, `forms` and
//! `shift`, and part by part in `spelling` (characters, strings, places), `nesting`
//! (brackets), `reading` (options), `pieces` (chunks), `calls` (calls) and
//! `outcomes` (what comes of a chunk).
//!
//! A text is modelled as its characters, and a place in it as a byte offset. A
//! reader takes a place at which the text can be cut, or one behind its end.
pub mod bracket;
pub mod calls;
pub mod chunk;
pub mod directive;
pub mod document;
pub mod escape;
pub mod execution;
pub mod foreign;
pub mod forms;
pub mod frontmatter;
pub mod laws;
pub mod literal;
pub mod nesting;
pub mod outcomes;
pub mod pieces;
pub mod position;
pub mod reading;
pub mod render;
pub mod scan;
pub mod session;
pub mod shift;
pub mod spelling;
pub mod text;
pub mod whitespace;
