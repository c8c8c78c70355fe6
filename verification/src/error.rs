//! The errors of both stages.
use vstd::prelude::*;
use crate::tokenizer::{Token, TokenView};

verus! {

/// A place in the text: the row and the column, both counted from zero.
pub type Position = (usize, usize);

/// What went wrong with a text.
///
/// The tokenizer reports `ParsingNumber` and `UnexpectedCharacter`, with the
/// position that it had reached; the parser reports `UnexpectedToken` and
/// `NoTokens`.
#[derive(Debug, PartialEq)]
pub enum JsonError {
    /// A run of number characters is not a number literal.
    ParsingNumber { position: Position, message: String },
    /// A character that starts no token, or that breaks off `true`, `false` or
    /// `null` (`got` is `None` where the text ends instead).
    UnexpectedCharacter { position: Position, expected_token: Option<Token>, got: Option<char> },
    /// A token that cannot stand where it was found; `None` where the tokens
    /// end and one more was needed.
    UnexpectedToken(Option<Token>),
    /// There is no token where a value has to begin.
    NoTokens,
}

/// The mathematical value of a [`JsonError`].
pub enum ErrorView {
    ParsingNumber { position: (nat, nat), message: Seq<char> },
    UnexpectedCharacter {
        position: (nat, nat),
        expected_token: Option<TokenView>,
        got: Option<char>,
    },
    UnexpectedToken(Option<TokenView>),
    NoTokens,
}

impl View for JsonError {
    type V = ErrorView;

    open spec fn view(&self) -> ErrorView {
        match self {
            JsonError::ParsingNumber { position, message } => ErrorView::ParsingNumber {
                position: (position.0 as nat, position.1 as nat),
                message: message@,
            },
            JsonError::UnexpectedCharacter {
                position,
                expected_token,
                got,
            } => ErrorView::UnexpectedCharacter {
                position: (position.0 as nat, position.1 as nat),
                expected_token: match expected_token {
                    Some(token) => Some(token@),
                    None => None,
                },
                got: *got,
            },
            JsonError::UnexpectedToken(token) => ErrorView::UnexpectedToken(
                match token {
                    Some(token) => Some(token@),
                    None => None,
                },
            ),
            JsonError::NoTokens => ErrorView::NoTokens,
        }
    }
}

} // verus!
