//! Reading and navigating EPUB publications.
//!
//! The crate is organised in three layers: [`xmlutils`] turns XML bytes into a
//! tree of nodes and rewrites attribute values of a document, [`archive`] reads
//! entries of the zip container, and [`doc`] builds the package model (manifest,
//! spine, metadata, table of contents) and the reading cursor on top of them.
pub mod archive;
pub mod doc;
pub mod xmlutils;
