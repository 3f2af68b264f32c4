//! Parser for the fixed-layout ASCII header of a European Data Format (EDF)
//! biosignal recording.
//!
//! The header is a sequence of fixed-width text fields at fixed byte offsets.
//! [`reader::Reader::read_header`] decodes and validates them all and returns
//! a [`reader::Header`]; every field decoder is also available on its own.

pub mod error;
pub mod reader;
