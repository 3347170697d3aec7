//! Slide decks written as one Markdown document: a frontmatter block and
//! pages separated by lines of hyphens.
//!
//! The library splits a document into its pages and writes it out again
//! (`contents`), numbers citation links across the document and regenerates
//! each page's footnote bibliography (`cite`, `bib`, `footnote`), and numbers
//! repeated slide titles while building a table of contents (`headings`).
pub mod bib;
pub mod cite;
pub mod config;
pub mod contents;
pub mod footnote;
pub mod headings;
pub mod project;
pub mod round_trip;
pub mod scan;
pub mod template;
pub mod text;
