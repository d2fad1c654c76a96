//! Context-free grammars: parsing a textual grammar, normalization to
//! Chomsky Normal Form, CYK membership testing, and random sampling of
//! strings from the language; plus a small character-pattern matcher.

pub mod cfg;
pub mod production;
pub mod regex;
pub mod text;
