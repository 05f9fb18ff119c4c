//! Tokens and their mathematical view.

use vstd::prelude::*;

verus! {

/// The kind of a token: a closed set.
#[derive(Debug, Clone, Copy, PartialEq, Eq, Structural)]
pub enum Kind {
    /// The end of the input: nothing but unrecognized characters was left.
    Eof,
    /// A single `+`.
    Plus,
    /// Two `+` in a row.
    PlusPlus,
    /// A single `-`.
    Minus,
    /// Two `-` in a row.
    MinusMinus,
}

/// A token: its kind and the bytes `start..end` of the source that it occupies.
#[derive(Debug, Clone, Copy, PartialEq, Eq, Structural)]
pub struct Token {
    pub kind: Kind,
    /// Byte offset of the token's first byte.
    pub start: usize,
    /// Byte offset just past the token's last byte.
    pub end: usize,
}

/// What a [`Token`] stands for, with unbounded offsets.
pub struct TokenView {
    pub kind: Kind,
    pub start: int,
    pub end: int,
}

impl View for Token {
    type V = TokenView;

    open spec fn view(&self) -> TokenView {
        TokenView { kind: self.kind, start: self.start as int, end: self.end as int }
    }
}

impl Kind {
    /// The number of bytes that a token of this kind occupies.
    pub open spec fn width(self) -> int {
        match self {
            Kind::Eof => 0,
            Kind::Plus | Kind::Minus => 1,
            Kind::PlusPlus | Kind::MinusMinus => 2,
        }
    }
}

} // verus!
