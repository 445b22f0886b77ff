//! A reader for Valve's textual key-value format: a tokenizer over a byte
//! buffer, an event layer that pairs tokens, and the assembly of the events
//! into a tree with dotted-path lookup.

use vstd::prelude::*;

pub mod assemble;
pub mod bare;
pub mod coerce;
pub mod entry;
mod error;
pub mod grammar;
pub mod pairs;
pub mod parser;
pub mod path;
pub mod quoting;
pub mod reader;
pub mod text;

pub use entry::{Entry, Table};
pub use error::Error;
pub use reader::Reader;

verus! {

/// Reads a whole document into its tree.
pub fn parse(buffer: &[u8]) -> (result: Result<Entry, Error>)
    ensures
        match assemble::document(buffer@) {
            Ok(tree) => result is Ok && result->Ok_0@ == tree,
            Err(error) => result is Err && result->Err_0 == error,
        },
{
    let mut reader = Reader::from(buffer);
    Ok(Table::load(&mut reader)?.into())
}

} // verus!
