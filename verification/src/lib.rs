//! Parsing and materialization planning for plain-text file bundles.
//!
//! A bundle encodes zero or more files as blocks of the form
//! `SEPARATOR '\n' "File: " <path> '\n' SEPARATOR '\n' <content>`,
//! where the separator is a fixed run of 48 `=` characters.  The parser
//! scans the whole text once, collects every structural defect it can
//! attribute to a line, and returns either the ordered list of entries or
//! the non-empty list of errors.  The collision checker decides, from a
//! description of what already exists under an output root, which entries
//! could not be written there.

pub mod bundler;
pub mod model;
pub mod parser;
pub mod paths;
pub mod props;
pub mod text;
