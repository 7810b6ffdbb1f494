//! Navigation indexes and tables of contents for trees of markdown documents.

pub mod text;
pub mod nav;
pub mod toc;
