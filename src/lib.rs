//! A queryable document-object model for XML-like markup: markup text is
//! parsed into a forest of linked nodes held in an arena, and a CSS-like
//! selector language picks nodes out of that forest.

pub mod markup;
pub mod xml;
pub mod construct;
pub mod store;
pub mod selector;
