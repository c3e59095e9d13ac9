//! A table-driven stemmer for inflectionally rich languages.
//!
//! A word's stem is found by looking up a string of edit commands in a stack
//! of character-indexed tries and applying those commands to the word.
//!
//! - `edit`: the edit-command language and its interpreter.
//! - `trie`: one trie of rows and command strings, and its walks.
//! - `multitrie`: stacks of tries and the rules that compose their answers.
//! - `stemmer`: the stemmer over a loaded table.
//! - `data`, `format`, `reload`: the binary table format, its readers and
//!   writers, and the proofs that written tables read back unchanged and
//!   that tables read back write out to the same bytes.
//! - `packed`, `generate`: the packed runtime table and the conversion to it.
//! - `text`: conversions between strings and character vectors.

pub mod data;
pub mod edit;
pub mod format;
pub mod generate;
pub mod multitrie;
pub mod packed;
pub mod reload;
pub mod stemmer;
pub mod text;
pub mod trie;
