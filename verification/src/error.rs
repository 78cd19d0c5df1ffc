//! The failures that the model reports.

use vstd::prelude::*;

verus! {

/// Why an operation on the model was refused.
#[derive(Debug, Clone, PartialEq, Eq)]
pub enum Error {
    /// An entity with this identifier is already in the collection.
    DuplicateId(String),
    /// No entity with this identifier is in the collection that was searched.
    UnknownId(String),
    /// An entity refers to this identifier, and no entity of the referenced
    /// collection carries it.
    IntegrityViolation(String),
    /// A filter left no vehicle journey in the model.
    EmptyResult,
}

/// The mathematical content of an [`Error`]: its kind and the characters of
/// the identifier it names.
pub enum ErrorView {
    DuplicateId(Seq<char>),
    UnknownId(Seq<char>),
    IntegrityViolation(Seq<char>),
    EmptyResult,
}

impl View for Error {
    type V = ErrorView;

    open spec fn view(&self) -> ErrorView {
        match self {
            Error::DuplicateId(id) => ErrorView::DuplicateId(id@),
            Error::UnknownId(id) => ErrorView::UnknownId(id@),
            Error::IntegrityViolation(id) => ErrorView::IntegrityViolation(id@),
            Error::EmptyResult => ErrorView::EmptyResult,
        }
    }
}

impl Error {
    /// The identifier that the error names, empty for [`Error::EmptyResult`].
    pub fn id(&self) -> (id: &str)
        ensures
            id@ == match self@ {
                ErrorView::DuplicateId(s) => s,
                ErrorView::UnknownId(s) => s,
                ErrorView::IntegrityViolation(s) => s,
                ErrorView::EmptyResult => Seq::<char>::empty(),
            },
    {
        match self {
            Error::DuplicateId(id) => id.as_str(),
            Error::UnknownId(id) => id.as_str(),
            Error::IntegrityViolation(id) => id.as_str(),
            Error::EmptyResult => {
                let none: &str = "";
                proof {
                    reveal_strlit("");
                    assert(none@ =~= Seq::<char>::empty());
                }
                none
            },
        }
    }
}

} // verus!
