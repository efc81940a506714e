//! The types of the semantic analyzer, as far as code generation reads them.

use vstd::prelude::*;

verus! {

#[derive(Debug, PartialEq, Eq)]
pub struct Structure {
    pub identifier: String,
    pub fields: Vec<(String, Type)>,
}

#[derive(Debug, PartialEq, Eq)]
pub struct Enumeration {
    pub identifier: String,
    /// The bit length of the smallest unsigned integer that holds every variant.
    pub bitlength: usize,
}

#[derive(Debug, PartialEq, Eq)]
pub struct Function {
    pub identifier: String,
}

#[derive(Debug, PartialEq, Eq)]
pub enum Type {
    Unit,
    Boolean,
    IntegerUnsigned { bitlength: usize },
    IntegerSigned { bitlength: usize },
    Field,
    String,
    Range { bound: Box<Type> },
    RangeInclusive { bound: Box<Type> },
    Array { element: Box<Type>, size: usize },
    Tuple { types: Vec<Type> },
    Structure(Structure),
    Enumeration(Enumeration),
    Function(Function),
}

} // verus!
