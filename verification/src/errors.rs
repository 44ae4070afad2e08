//! The errors of the pipeline.
use crate::token::{Token, TokenView};
use vstd::prelude::*;

verus! {

/// Why a stage of the pipeline gave up. Every stage stops at its first error.
#[allow(non_camel_case_types)]
#[derive(Debug)]
pub enum Error {
    /// The parser met a token of another kind than the grammar asks for.
    UNEXPECTED_TOKEN(Token),
    /// A name was used without a visible declaration.
    ID_NOT_FOUND(Token),
    /// A name was declared twice in one scope.
    DUPLICATE_ID(Token),
    /// The lexer met a character that starts no token.
    INVALID_CHARACTER(char),
}

/// The mathematical model of an [`Error`].
#[allow(non_camel_case_types)]
pub enum ErrorView {
    UNEXPECTED_TOKEN(TokenView),
    ID_NOT_FOUND(TokenView),
    DUPLICATE_ID(TokenView),
    INVALID_CHARACTER(char),
}

impl View for Error {
    type V = ErrorView;

    open spec fn view(&self) -> ErrorView {
        match self {
            Error::UNEXPECTED_TOKEN(t) => ErrorView::UNEXPECTED_TOKEN(t@),
            Error::ID_NOT_FOUND(t) => ErrorView::ID_NOT_FOUND(t@),
            Error::DUPLICATE_ID(t) => ErrorView::DUPLICATE_ID(t@),
            Error::INVALID_CHARACTER(c) => ErrorView::INVALID_CHARACTER(*c),
        }
    }
}

} // verus!
