//! The tokenizer as a mathematical function on character sequences.
//!
//! A scan is described by a sequence of characters and a cursor: the index of
//! the next character that has not been consumed.  Reading one token from a
//! cursor `i` goes in two steps.  First the characters that are no symbols are
//! passed over, up to the index [`next_symbol`].  Then the symbol found there
//! is taken, together with the character behind it if that is the same symbol
//! again ([`doubled`]).  [`token_at`] is the token that comes out and
//! [`cursor_after`] the cursor that is left; [`tokens_from`] is the whole
//! stream that reading again and again gives, up to the first end-of-input
//! token.

use crate::encoding::byte_offset;
use crate::token::{Kind, TokenView};
use vstd::prelude::*;

verus! {

/// The characters that tokens are made of.
pub open spec fn is_symbol(c: char) -> bool {
    c == '+' || c == '-'
}

/// The index of the first symbol at or after `i`, or the length of `chars`
/// where no symbol is left.
pub open spec fn next_symbol(chars: Seq<char>, i: int) -> int
    decreases chars.len() - i,
{
    if i >= chars.len() {
        chars.len() as int
    } else if is_symbol(chars[i]) {
        i
    } else {
        next_symbol(chars, i + 1)
    }
}

/// Whether the character at `j` is followed at once by the same character.
pub open spec fn doubled(chars: Seq<char>, j: int) -> bool {
    j + 1 < chars.len() && chars[j + 1] == chars[j]
}

/// The kind of the token that is read from cursor `i`.
pub open spec fn kind_at(chars: Seq<char>, i: int) -> Kind {
    let j = next_symbol(chars, i);
    if j >= chars.len() {
        Kind::Eof
    } else if chars[j] == '+' {
        if doubled(chars, j) {
            Kind::PlusPlus
        } else {
            Kind::Plus
        }
    } else {
        if doubled(chars, j) {
            Kind::MinusMinus
        } else {
            Kind::Minus
        }
    }
}

/// The cursor that is left when one token has been read from cursor `i`.
pub open spec fn cursor_after(chars: Seq<char>, i: int) -> int {
    let j = next_symbol(chars, i);
    if j >= chars.len() {
        chars.len() as int
    } else if doubled(chars, j) {
        j + 2
    } else {
        j + 1
    }
}

/// The token that is read from cursor `i`.  It starts at the byte where the
/// first symbol at or after `i` starts, and ends at the byte that the cursor
/// has reached when the token's characters are consumed.
pub open spec fn token_at(chars: Seq<char>, i: int) -> TokenView {
    TokenView {
        kind: kind_at(chars, i),
        start: byte_offset(chars, next_symbol(chars, i)),
        end: byte_offset(chars, cursor_after(chars, i)),
    }
}

/// The tokens that reading from cursor `i` gives, one after the other, up to
/// and including the first end-of-input token.
pub open spec fn tokens_from(chars: Seq<char>, i: int) -> Seq<TokenView>
    decreases chars.len() - i,
    via tokens_from_decreases
{
    if next_symbol(chars, i) >= chars.len() {
        seq![token_at(chars, i)]
    } else {
        seq![token_at(chars, i)] + tokens_from(chars, cursor_after(chars, i))
    }
}

#[via_fn]
proof fn tokens_from_decreases(chars: Seq<char>, i: int) {
    lemma_next_symbol_bounds(chars, i);
}

/// The whole token stream of `chars`.
pub open spec fn tokens(chars: Seq<char>) -> Seq<TokenView> {
    tokens_from(chars, 0)
}

/// The search for a symbol never goes backwards and never leaves the
/// sequence.
pub proof fn lemma_next_symbol_bounds(chars: Seq<char>, i: int)
    ensures
        next_symbol(chars, i) <= chars.len(),
        i <= chars.len() ==> i <= next_symbol(chars, i),
    decreases chars.len() - i,
{
    if i < chars.len() && !is_symbol(chars[i]) {
        lemma_next_symbol_bounds(chars, i + 1);
    }
}

/// What the search for a symbol finds: every character it passes over is no
/// symbol, and where it stops short of the end, it stops at a symbol.
pub proof fn lemma_next_symbol_found(chars: Seq<char>, i: int)
    requires
        0 <= i <= chars.len(),
    ensures
        forall|k: int| i <= k < next_symbol(chars, i) ==> !is_symbol(#[trigger] chars[k]),
        next_symbol(chars, i) < chars.len() ==> is_symbol(chars[next_symbol(chars, i)]),
    decreases chars.len() - i,
{
    if i < chars.len() && !is_symbol(chars[i]) {
        lemma_next_symbol_found(chars, i + 1);
    }
}

/// The search yields the same index from every cursor between its start and
/// its result.
pub proof fn lemma_next_symbol_stable(chars: Seq<char>, i: int, k: int)
    requires
        0 <= i <= k <= next_symbol(chars, i),
    ensures
        next_symbol(chars, k) == next_symbol(chars, i),
    decreases k - i,
{
    lemma_next_symbol_bounds(chars, i);
    if i < k {
        lemma_next_symbol_stable(chars, i + 1, k);
    }
}

} // verus!
