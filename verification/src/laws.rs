//! Theorems about single tokens and about the token stream as a whole.
//!
//! All of them are stated over the functions of [`crate::scan`], which are
//! the functions that the lexer's contracts speak of: what is proved here of
//! `token_at`, `cursor_after` and `tokens_from` holds of the tokens that the
//! lexer returns and of the cursor that it leaves behind.

use crate::encoding::{
    byte_offset, lemma_byte_offset_bounds, lemma_byte_offset_end, lemma_byte_offset_increasing,
    lemma_byte_offset_is_boundary, lemma_byte_offset_start, lemma_byte_offset_step,
    lemma_width_ascii,
};
use crate::scan::{
    cursor_after, doubled, is_symbol, kind_at, lemma_next_symbol_bounds, lemma_next_symbol_found,
    next_symbol, token_at, tokens_from,
};
use crate::token::TokenView;
use vstd::prelude::*;
use vstd::utf8::{encode_utf8, is_char_boundary};

verus! {

/// Reading a token never moves the cursor backwards nor out of the source,
/// and reading a token that is no end-of-input token moves it forward.
pub proof fn lemma_cursor_advances(chars: Seq<char>, i: int)
    requires
        0 <= i <= chars.len(),
    ensures
        i <= next_symbol(chars, i) <= cursor_after(chars, i) <= chars.len(),
        kind_at(chars, i) !is Eof ==> i < cursor_after(chars, i),
        kind_at(chars, i) is Eof <==> next_symbol(chars, i) == chars.len(),
{
    lemma_next_symbol_bounds(chars, i);
}

/// A `+` or `-` token is one byte wide, a `++` or `--` token two, and an
/// end-of-input token none.
pub proof fn lemma_token_width(chars: Seq<char>, i: int)
    requires
        0 <= i <= chars.len(),
    ensures
        token_at(chars, i).end - token_at(chars, i).start == kind_at(chars, i).width(),
{
    let j = next_symbol(chars, i);
    lemma_next_symbol_bounds(chars, i);
    lemma_next_symbol_found(chars, i);
    if j < chars.len() {
        lemma_byte_offset_step(chars, j);
        lemma_width_ascii(chars[j]);
        if doubled(chars, j) {
            lemma_byte_offset_step(chars, j + 1);
            lemma_width_ascii(chars[j + 1]);
        }
    }
}

/// An end-of-input token starts and ends at the length of the source in
/// bytes.
pub proof fn lemma_eof_at_end(chars: Seq<char>, i: int)
    requires
        0 <= i <= chars.len(),
        kind_at(chars, i) is Eof,
    ensures
        token_at(chars, i).start == encode_utf8(chars).len(),
        token_at(chars, i).end == encode_utf8(chars).len(),
{
    lemma_next_symbol_bounds(chars, i);
    lemma_byte_offset_end(chars);
}

/// Once an end-of-input token has been read, reading again gives the same
/// token and leaves the cursor where it is.
pub proof fn lemma_eof_is_final(chars: Seq<char>, i: int)
    requires
        0 <= i <= chars.len(),
        kind_at(chars, i) is Eof,
    ensures
        token_at(chars, cursor_after(chars, i)) == token_at(chars, i),
        cursor_after(chars, cursor_after(chars, i)) == cursor_after(chars, i),
{
    lemma_next_symbol_bounds(chars, i);
}

/// Every token lies inside the encoded source, and behind the cursor that
/// it was read from.
pub proof fn lemma_token_in_bounds(chars: Seq<char>, i: int)
    requires
        0 <= i <= chars.len(),
    ensures
        byte_offset(chars, i) <= token_at(chars, i).start <= token_at(chars, i).end
            <= encode_utf8(chars).len(),
        token_at(chars, i).end == byte_offset(chars, cursor_after(chars, i)),
{
    lemma_cursor_advances(chars, i);
    lemma_byte_offset_increasing(chars, i, next_symbol(chars, i));
    lemma_byte_offset_increasing(chars, next_symbol(chars, i), cursor_after(chars, i));
    lemma_byte_offset_bounds(chars, cursor_after(chars, i));
}

/// A token starts and ends between two characters, never inside one.
pub proof fn lemma_token_on_boundaries(chars: Seq<char>, i: int)
    requires
        0 <= i <= chars.len(),
    ensures
        is_char_boundary(encode_utf8(chars), token_at(chars, i).start),
        is_char_boundary(encode_utf8(chars), token_at(chars, i).end),
{
    lemma_cursor_advances(chars, i);
    lemma_byte_offset_is_boundary(chars, next_symbol(chars, i));
    lemma_byte_offset_is_boundary(chars, cursor_after(chars, i));
}

/// Reading until the end of input comes to an end: the stream read from
/// cursor `i` holds at most one token for each character that is left, and
/// the closing token.  That closing token is its only end-of-input token.
pub proof fn lemma_stream_terminates(chars: Seq<char>, i: int)
    requires
        0 <= i <= chars.len(),
    ensures
        1 <= tokens_from(chars, i).len() <= chars.len() - i + 1,
        tokens_from(chars, i)[0] == token_at(chars, i),
        tokens_from(chars, i).last().kind is Eof,
        forall|k: int|
            0 <= k < tokens_from(chars, i).len() - 1 ==> (#[trigger] tokens_from(
                chars,
                i,
            )[k]).kind !is Eof,
    decreases chars.len() - i,
{
    lemma_cursor_advances(chars, i);
    if next_symbol(chars, i) < chars.len() {
        lemma_stream_terminates(chars, cursor_after(chars, i));
        let rest = tokens_from(chars, cursor_after(chars, i));
        let all = tokens_from(chars, i);
        assert(all =~= seq![token_at(chars, i)] + rest);
        assert forall|k: int| 0 <= k < all.len() - 1 implies (#[trigger] all[k]).kind !is Eof by {
            if k > 0 {
                assert(all[k] == rest[k - 1]);
            }
        }
        assert(all.last() == rest.last());
    }
}

/// Every token of the stream read from cursor `i` lies between the byte
/// offset of `i` and the end of the encoded source.
pub proof fn lemma_stream_in_bounds(chars: Seq<char>, i: int, k: int)
    requires
        0 <= i <= chars.len(),
        0 <= k < tokens_from(chars, i).len(),
    ensures
        byte_offset(chars, i) <= tokens_from(chars, i)[k].start <= tokens_from(chars, i)[k].end
            <= encode_utf8(chars).len(),
    decreases k,
{
    lemma_cursor_advances(chars, i);
    lemma_token_in_bounds(chars, i);
    if k > 0 {
        let next = cursor_after(chars, i);
        lemma_stream_in_bounds(chars, next, k - 1);
        lemma_byte_offset_increasing(chars, i, next);
    }
}

/// The tokens of a stream stand in the order of their bytes and do not
/// overlap: each token before the closing one is not empty, and ends no
/// later than the next one starts.
pub proof fn lemma_spans_increasing(chars: Seq<char>, i: int, k: int)
    requires
        0 <= i <= chars.len(),
        0 <= k < tokens_from(chars, i).len() - 1,
    ensures
        tokens_from(chars, i)[k].start < tokens_from(chars, i)[k].end,
        tokens_from(chars, i)[k].end <= tokens_from(chars, i)[k + 1].start,
    decreases k,
{
    lemma_cursor_advances(chars, i);
    let next = cursor_after(chars, i);
    if k == 0 {
        lemma_token_width(chars, i);
        lemma_stream_in_bounds(chars, next, 0);
    } else {
        lemma_spans_increasing(chars, next, k - 1);
    }
}

/// Whether the byte at offset `p` belongs to one of the tokens.
pub open spec fn in_some_token(tokens: Seq<TokenView>, p: int) -> bool {
    exists|k: int| 0 <= k < tokens.len() && (#[trigger] tokens[k]).start <= p < tokens[k].end
}

/// Every byte of the encoded source belongs to exactly one character.
pub proof fn lemma_byte_in_char(chars: Seq<char>, p: int)
    requires
        0 <= p < encode_utf8(chars).len(),
    ensures
        exists|c: int|
            0 <= c < chars.len() && byte_offset(chars, c) <= p < #[trigger] byte_offset(
                chars,
                c + 1,
            ),
        forall|c: int, d: int|
            0 <= c < d < chars.len() ==> #[trigger] byte_offset(chars, c + 1)
                <= #[trigger] byte_offset(chars, d),
{
    lemma_byte_offset_end(chars);
    lemma_byte_reached(chars, p, chars.len() as int);
    assert forall|c: int, d: int| 0 <= c < d < chars.len() implies #[trigger] byte_offset(
        chars,
        c + 1,
    ) <= #[trigger] byte_offset(chars, d) by {
        lemma_byte_offset_increasing(chars, c + 1, d);
    }
}

/// A byte before the offset of character `n` belongs to a character before
/// `n`.
proof fn lemma_byte_reached(chars: Seq<char>, p: int, n: int)
    requires
        0 <= n <= chars.len(),
        0 <= p < byte_offset(chars, n),
    ensures
        exists|c: int|
            0 <= c < n && byte_offset(chars, c) <= p < #[trigger] byte_offset(chars, c + 1),
    decreases n,
{
    lemma_byte_offset_start(chars);
    if byte_offset(chars, n - 1) <= p {
        assert(byte_offset(chars, (n - 1) + 1) == byte_offset(chars, n));
    } else {
        lemma_byte_reached(chars, p, n - 1);
    }
}

/// Tokens and passed-over characters take up the source between them: a
/// byte behind the cursor belongs to a token of the stream where the
/// character that it is part of is a symbol, and to no token where that
/// character was passed over.
pub proof fn lemma_spans_cover(chars: Seq<char>, i: int, c: int, p: int)
    requires
        0 <= i <= c < chars.len(),
        byte_offset(chars, c) <= p < byte_offset(chars, c + 1),
    ensures
        in_some_token(tokens_from(chars, i), p) <==> is_symbol(chars[c]),
    decreases chars.len() - i,
{
    let all = tokens_from(chars, i);
    let j = next_symbol(chars, i);
    let next = cursor_after(chars, i);
    lemma_cursor_advances(chars, i);
    lemma_next_symbol_found(chars, i);
    lemma_token_in_bounds(chars, i);
    lemma_token_width(chars, i);
    if j >= chars.len() {
        assert(!in_some_token(all, p));
    } else {
        let rest = tokens_from(chars, next);
        assert(all =~= seq![token_at(chars, i)] + rest);
        if c < j {
            lemma_byte_offset_increasing(chars, c + 1, j);
            lemma_byte_offset_increasing(chars, j, next);
            assert forall|k: int| 0 <= k < all.len() implies !((#[trigger] all[k]).start <= p
                < all[k].end) by {
                if k > 0 {
                    assert(all[k] == rest[k - 1]);
                    lemma_stream_in_bounds(chars, next, k - 1);
                }
            }
        } else if c < next {
            lemma_byte_offset_increasing(chars, j, c);
            lemma_byte_offset_increasing(chars, c + 1, next);
            assert(all[0].start <= p < all[0].end);
        } else {
            lemma_spans_cover(chars, next, c, p);
            lemma_byte_offset_increasing(chars, next, c);
            if in_some_token(rest, p) {
                let k = choose|k: int|
                    0 <= k < rest.len() && (#[trigger] rest[k]).start <= p < rest[k].end;
                assert(all[k + 1] == rest[k]);
            }
            if in_some_token(all, p) {
                let k = choose|k: int|
                    0 <= k < all.len() && (#[trigger] all[k]).start <= p < all[k].end;
                assert(k > 0);
                assert(all[k] == rest[k - 1]);
            }
        }
    }
}

} // verus!
