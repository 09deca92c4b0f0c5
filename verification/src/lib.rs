//! Booklet imposition for PDF documents: the page arithmetic of booklets, the
//! order in which their pages are printed, and the edits to a `lopdf`
//! document that produce the booklet: blank pages, turned backs, a new page
//! tree.
pub mod document;
pub mod error;
pub mod layout;
pub mod pdf;
pub mod sides;
pub mod text;
