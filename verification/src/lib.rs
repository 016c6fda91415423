//! A small parser for a JSON-like textual format.
//!
//! The input grammar knows five kinds of value: quoted text, unsigned
//! 32-bit numbers, case-insensitive booleans, lists and keyed objects.
//! `model` holds the mathematical description of the format: the value
//! tree as a ghost datatype and a specification-level parser that maps
//! an input character sequence to either a tree or a parse error.
//! `parser` holds the executable cursor, the value types and the
//! recursive-descent parser, each function proved to return exactly
//! what the specification parser says.  `laws` proves the format-wide
//! guarantees, chief among them that every well-formed tree, written
//! out in the grammar, parses back to itself.

pub mod laws;
pub mod model;
pub mod parser;
