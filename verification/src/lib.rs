//! Lookup of `--name=value` flags in a list of command-line arguments.
//!
//! The argument list is always passed in by the caller; nothing here reads
//! the process's own arguments.
//!
//! * [`parse_argument`] resolves a single flag: it takes the first token that
//!   holds `--{flag}=`, and hands what follows the `=` to a parser that the
//!   caller supplies.
//! * [`args_to_hashmap`] gathers every token of the shape `--key=value` into
//!   a map, keeping the first value of each key.
//!
//! A token names a flag when `--{flag}=` stands anywhere in it, not only at
//! its start. A value cannot hold a further `=`: the single lookup answers
//! such a token with [`ParseArgumentError::BadLen`], while the bulk
//! collection passes it over without a word.

pub mod collect;
pub mod lookup;
pub mod text;

pub use collect::args_to_hashmap;
pub use lookup::{parse_argument, ParseArgumentError};
