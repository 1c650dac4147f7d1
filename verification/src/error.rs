use vstd::prelude::*;

verus! {

/// The ways in which an operation of the retrieval core can fail.
///
/// Every failure is handed back to the caller as a value; nothing is retried
/// and nothing is replaced by a default.
#[derive(Debug)]
pub enum Error {
    /// The named collection does not exist.
    UnknownCollection,
    /// A vector's length differs from the dimension of the collection it is
    /// meant for, or a collection is asked for again with another dimension.
    DimensionMismatch,
    /// No chunk or no embedding was produced to work with.
    EmptyEmbeddingBatch,
    /// The embedding or generation collaborator failed, or answered what it
    /// may not answer; the message says which.
    CollaboratorFailure(String),
}

/// What an [`Error`] stands for.
pub enum ErrorView {
    UnknownCollection,
    DimensionMismatch,
    EmptyEmbeddingBatch,
    CollaboratorFailure(Seq<char>),
}

impl View for Error {
    type V = ErrorView;

    open spec fn view(&self) -> ErrorView {
        match self {
            Error::UnknownCollection => ErrorView::UnknownCollection,
            Error::DimensionMismatch => ErrorView::DimensionMismatch,
            Error::EmptyEmbeddingBatch => ErrorView::EmptyEmbeddingBatch,
            Error::CollaboratorFailure(message) => ErrorView::CollaboratorFailure(message@),
        }
    }
}

impl Error {
    /// A sentence that names the failure.
    pub fn message(&self) -> (s: String)
        ensures
            self matches Error::CollaboratorFailure(m) ==> s@ == m@,
            self is UnknownCollection ==> s@ == "unknown collection"@,
            self is DimensionMismatch ==> s@ == "dimension mismatch"@,
            self is EmptyEmbeddingBatch ==> s@ == "empty embedding batch"@,
    {
        match self {
            Error::UnknownCollection => String::from_str("unknown collection"),
            Error::DimensionMismatch => String::from_str("dimension mismatch"),
            Error::EmptyEmbeddingBatch => String::from_str("empty embedding batch"),
            Error::CollaboratorFailure(message) => message.clone(),
        }
    }
}

} // verus!
