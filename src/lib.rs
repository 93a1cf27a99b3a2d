//! An e-book package reader: a small markup parser, a document model, and the
//! construction of a book's resource manifest from the members of its archive.

pub mod text;
pub mod scanner;
pub mod xml;
pub mod book;
pub mod constr;
