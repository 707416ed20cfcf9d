//! Builds a resolved semantic arena out of the concrete syntax tree of the
//! nested key-value notation: associations, chained and prefix references,
//! text literals and the marker literal.

use vstd::prelude::*;

pub mod laws;
pub mod order;
pub mod parser;
pub mod syntax;

use crate::parser::{Builder, Entry, denotes_all, scoped};
use crate::syntax::{Syntax, all_well_formed, list_count};

verus! {

/// A built document: the arena and the indices of its top-level expressions.
pub struct Interpreter {
    expressions: Vec<Entry>,
    top_level: Vec<usize>,
    source: String,
}

impl Interpreter {
    /// The document's arena.
    pub closed spec fn arena(&self) -> Seq<Entry> {
        self.expressions@
    }

    /// The indices of the document's top-level expressions.
    pub closed spec fn roots(&self) -> Seq<usize> {
        self.top_level@
    }

    /// The document's source text.
    pub closed spec fn source_text(&self) -> Seq<char> {
        self.source@
    }

    /// Read access to the source text.
    pub fn source(&self) -> (r: &str)
        ensures
            r@ == self.source_text(),
    {
        self.source.as_str()
    }

    /// Read access to the arena.
    pub fn entries(&self) -> (r: &Vec<Entry>)
        ensures
            r@ == self.arena(),
    {
        &self.expressions
    }

    /// Read access to the top-level indices.
    pub fn top_level(&self) -> (r: &Vec<usize>)
        ensures
            r@ == self.roots(),
    {
        &self.top_level
    }

    /// Builds the document with source text `source` and syntax tree `file`.
    pub fn new(source: &str, file: &Vec<Syntax>) -> (r: Interpreter)
        requires
            all_well_formed(file@),
        ensures
            r.source_text() == source@,
            scoped(r.arena()),
            r.arena().len() == list_count(*file, file.len() as int),
            denotes_all(r.arena(), 0, r.roots(), *file, None),
    {
        Self::from_builder(Builder::new(source, file))
    }

    fn from_builder(builder: Builder) -> (r: Interpreter)
        ensures
            r.arena() == builder.arena(),
            r.roots() == builder.roots(),
            r.source_text() == builder.source_text(),
    {
        let (expressions, top_level, source) = builder.into_parts();
        Interpreter { expressions, top_level, source }
    }
}

} // verus!
