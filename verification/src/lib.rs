//! A small library for INI documents: reading, building, changing and writing
//! them, with sections and keys kept in the order in which they were added.
//!
//! The two parts that carry the design are an insertion-ordered map
//! ([`ordered_hashmap`]) and a line parser ([`parser`]). The executable
//! functions are verified against contracts stated over sequences of
//! characters and sequences of key/value pairs ([`pairs`], [`document`]);
//! the few facts about the standard library that are taken on trust say so.
//! The library works on text; files and streams are for its users.

pub mod document;
pub mod error;
pub mod ini;
pub mod ordered_hashmap;
pub mod pairs;
pub mod parser;
pub mod roundtrip;
pub mod text;

pub use error::{Error, ParseError};
pub use ini::{Ini, IniIter, IniIterMut, SectionIter, SectionIterMut};
