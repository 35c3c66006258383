//! Structural engine for Portable Executable images: the data directory
//! table, section headers, the layout writer that re-emits an image after
//! sections are inserted, and the attribute-certificate records of a signed
//! image.

pub mod bytes;
pub mod certificates;
pub mod data_directories;
pub mod error;
pub mod section_table;
pub mod writer;
