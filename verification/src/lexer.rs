//! The executable lexer: a cursor over a string slice.

use crate::encoding::{
    byte_offset, char_width, lemma_byte_offset_bounds, lemma_byte_offset_end,
    lemma_byte_offset_increasing, lemma_byte_offset_is_boundary, lemma_byte_offset_start,
    lemma_byte_offset_step, lemma_encode_injective, lemma_encode_suffix,
};
use crate::laws::{
    lemma_cursor_advances, lemma_eof_at_end, lemma_stream_terminates, lemma_token_width,
};
use crate::scan::{
    cursor_after, kind_at, lemma_next_symbol_bounds, lemma_next_symbol_found,
    lemma_next_symbol_stable, next_symbol, token_at, tokens, tokens_from,
};
use crate::token::{Kind, Token, TokenView};
use vstd::prelude::*;
use vstd::utf8::encode_utf8;

verus! {

/// What a [`Lexer`] stands for: the characters of its source and the index
/// of the next character that it has not consumed.
pub struct LexerView {
    pub source: Seq<char>,
    pub index: int,
}

impl LexerView {
    /// The cursor lies inside the source or at its end.
    pub open spec fn wf(self) -> bool {
        0 <= self.index <= self.source.len()
    }
}

/// A cursor over a borrowed source.  It only ever moves forward.
pub struct Lexer<'a> {
    source: &'a str,
    /// The length of `source` in bytes.
    length: usize,
    /// The byte offset of the next character that has not been consumed.
    position: usize,
    /// The index of that character.
    index: Ghost<int>,
}

/// The character with index `i`, if there is one.
pub open spec fn char_at(chars: Seq<char>, i: int) -> Option<char> {
    if 0 <= i < chars.len() {
        Some(chars[i])
    } else {
        None
    }
}

impl<'a> View for Lexer<'a> {
    type V = LexerView;

    closed spec fn view(&self) -> LexerView {
        LexerView { source: self.source@, index: self.index@ }
    }
}

impl<'a> Lexer<'a> {
    #[verifier::type_invariant]
    spec fn inv(self) -> bool {
        &&& 0 <= self.index@ <= self.source@.len()
        &&& self.position == byte_offset(self.source@, self.index@)
        &&& self.length == encode_utf8(self.source@).len()
    }

    /// A lexer at the start of `source`.
    pub fn new(source: &'a str) -> (lexer: Self)
        ensures
            lexer@ == (LexerView { source: source@, index: 0 }),
            lexer@.wf(),
    {
        let length = source.as_bytes().len();
        proof {
            lemma_byte_offset_start(source@);
        }
        Lexer { source, length, position: 0, index: Ghost(0) }
    }

    /// The byte offset of the next character that has not been consumed.
    pub fn offset(&self) -> (offset: usize)
        ensures
            self@.wf(),
            offset == byte_offset(self@.source, self@.index),
            offset <= encode_utf8(self@.source).len(),
    {
        proof {
            use_type_invariant(self);
            lemma_byte_offset_bounds(self.source@, self.index@);
        }
        self.position
    }

    /// The next character that has not been consumed, which stays where it
    /// is; `None` at the end of the source.
    pub fn peek(&self) -> (next: Option<char>)
        ensures
            self@.wf(),
            next == char_at(self@.source, self@.index),
    {
        broadcast use vstd::string::group_string_axioms;

        proof {
            use_type_invariant(self);
            lemma_byte_offset_is_boundary(self.source@, self.index@);
            lemma_encode_suffix(self.source@, self.index@);
            lemma_byte_offset_end(self.source@);
        }
        if self.position >= self.length {
            proof {
                if self.index@ < self.source@.len() {
                    lemma_byte_offset_increasing(
                        self.source@,
                        self.index@,
                        self.source@.len() as int,
                    );
                }
            }
            return None;
        }
        let (_, rest) = self.source.split_at(self.position);
        proof {
            lemma_encode_injective(rest@, self.source@.skip(self.index@));
        }
        let mut chars = rest.chars();
        chars.next()
    }

    /// Consumes the next character and returns it; at the end of the source
    /// the cursor stays and `None` is returned.
    fn bump(&mut self) -> (next: Option<char>)
        ensures
            next == char_at(old(self)@.source, old(self)@.index),
            final(self)@.source == old(self)@.source,
            final(self)@.index == old(self)@.index + (if next is Some { 1int } else { 0int }),
    {
        match self.peek() {
            None => None,
            Some(c) => {
                let width = char_width(c);
                proof {
                    use_type_invariant(&*self);
                    lemma_byte_offset_step(self.source@, self.index@);
                    lemma_byte_offset_bounds(self.source@, self.index@ + 1);
                }
                let ghost index = self.index@ + 1;
                *self = Lexer {
                    source: self.source,
                    length: self.length,
                    position: self.position + width,
                    index: Ghost(index),
                };
                Some(c)
            },
        }
    }

    /// Passes over the characters that are no symbols: the cursor comes to
    /// rest on the next symbol, or at the end of the source.
    fn skip_unrecognized(&mut self)
        ensures
            final(self)@.source == old(self)@.source,
            final(self)@.index == next_symbol(old(self)@.source, old(self)@.index),
    {
        proof {
            use_type_invariant(&*self);
            lemma_next_symbol_bounds(self@.source, self@.index);
        }
        loop
            invariant
                self@.source == old(self)@.source,
                old(self)@.index <= self@.index <= next_symbol(
                    old(self)@.source,
                    old(self)@.index,
                ),
                0 <= old(self)@.index,
                self@.index <= self@.source.len(),
            ensures
                self@.source == old(self)@.source,
                self@.index == next_symbol(old(self)@.source, old(self)@.index),
            decreases self@.source.len() - self@.index,
        {
            proof {
                lemma_next_symbol_stable(old(self)@.source, old(self)@.index, self@.index);
            }
            match self.peek() {
                None => break,
                Some(c) => {
                    if c == '+' || c == '-' {
                        break;
                    }
                    proof {
                        lemma_next_symbol_bounds(self@.source, self@.index + 1);
                    }
                    self.bump();
                },
            }
        }
    }

    /// Reads the next token and returns its kind.  Characters that are no
    /// symbols are passed over; a symbol is taken together with the character
    /// behind it where that is the same symbol again.
    pub fn read_next_kind(&mut self) -> (kind: Kind)
        ensures
            kind == kind_at(old(self)@.source, old(self)@.index),
            final(self)@.source == old(self)@.source,
            final(self)@.index == cursor_after(old(self)@.source, old(self)@.index),
            old(self)@.index <= final(self)@.index,
            final(self)@.wf(),
    {
        proof {
            use_type_invariant(&*self);
            lemma_next_symbol_bounds(self@.source, self@.index);
            lemma_next_symbol_found(self@.source, self@.index);
        }
        self.skip_unrecognized();
        proof {
            use_type_invariant(&*self);
        }
        match self.bump() {
            None => Kind::Eof,
            Some(c) => {
                if c == '+' {
                    match self.peek() {
                        Some('+') => {
                            self.bump();
                            Kind::PlusPlus
                        },
                        _ => Kind::Plus,
                    }
                } else {
                    match self.peek() {
                        Some('-') => {
                            self.bump();
                            Kind::MinusMinus
                        },
                        _ => Kind::Minus,
                    }
                }
            },
        }
    }

    /// Reads the next token.  The token starts where its first symbol starts,
    /// behind the characters that were passed over, and ends where the cursor
    /// comes to rest.  At the end of the source, and from then on, the token
    /// is an empty end-of-input token at the source's length.
    pub fn read_next_token(&mut self) -> (token: Token)
        ensures
            token@ == token_at(old(self)@.source, old(self)@.index),
            final(self)@.source == old(self)@.source,
            final(self)@.index == cursor_after(old(self)@.source, old(self)@.index),
            old(self)@.index <= final(self)@.index,
            final(self)@.wf(),
            token.kind !is Eof ==> old(self)@.index < final(self)@.index,
            token.end == byte_offset(final(self)@.source, final(self)@.index),
            token.end - token.start == token.kind.width(),
            token.kind is Eof ==> token.end == encode_utf8(old(self)@.source).len(),
    {
        proof {
            use_type_invariant(&*self);
            lemma_next_symbol_bounds(self@.source, self@.index);
            lemma_next_symbol_stable(
                self@.source,
                self@.index,
                next_symbol(self@.source, self@.index),
            );
            lemma_token_width(self@.source, self@.index);
            if kind_at(self@.source, self@.index) is Eof {
                lemma_eof_at_end(self@.source, self@.index);
            }
        }
        self.skip_unrecognized();
        let start = self.offset();
        let kind = self.read_next_kind();
        let end = self.offset();
        Token { kind, start, end }
    }
}

/// The views of a run of tokens.
pub open spec fn views(tokens: Seq<Token>) -> Seq<TokenView> {
    tokens.map_values(|token: Token| token@)
}

/// Reads `source` to its end: the tokens in the order in which they stand,
/// closed by the end-of-input token.
pub fn tokenize(source: &str) -> (result: Vec<Token>)
    ensures
        views(result@) == tokens(source@),
        1 <= result.len() <= source@.len() + 1,
        result@.last().kind is Eof,
{
    let mut lexer = Lexer::new(source);
    let mut result: Vec<Token> = Vec::new();
    assert(views(result@) + tokens_from(source@, 0) =~= tokens(source@));
    loop
        invariant_except_break
            views(result@) + tokens_from(source@, lexer@.index) == tokens(source@),
        invariant
            lexer@.source == source@,
            lexer@.wf(),
        ensures
            views(result@) == tokens(source@),
        decreases source@.len() - lexer@.index,
    {
        let ghost before = result@;
        let ghost cursor = lexer@.index;
        let ghost rest = tokens_from(source@, cursor);
        let token = lexer.read_next_token();
        result.push(token);
        proof {
            lemma_cursor_advances(source@, cursor);
            assert(views(result@) =~= views(before).push(token@));
        }
        if token.kind == Kind::Eof {
            assert(views(result@) =~= views(before) + rest);
            break;
        }
        assert(views(result@) + tokens_from(source@, lexer@.index) =~= views(before) + rest);
    }
    proof {
        lemma_stream_terminates(source@, 0);
        assert(views(result@).last() == result@.last()@);
    }
    result
}

} // verus!
