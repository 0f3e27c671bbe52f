//! What the readers of µcad source refuse.
use crate::identifier::Identifier;
use vstd::prelude::*;

verus! {

/// Source that fits the grammar but not the language.
#[derive(Debug)]
pub enum ParseError {
    /// A `use` statement whose parts fit none of its forms.
    InvalidUseStatement,
    /// A parameter list that names a parameter twice.
    DuplicateParameter(Identifier),
}

} // verus!
