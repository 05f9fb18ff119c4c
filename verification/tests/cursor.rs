use symbol_lexer::encoding::char_width;
use symbol_lexer::{Kind, Lexer, Token};

#[test]
fn new_lexer_is_at_the_start() {
    let lexer = Lexer::new("ab+");
    assert_eq!(lexer.offset(), 0);
    assert_eq!(lexer.peek(), Some('a'));
}

#[test]
fn new_lexer_over_empty_source() {
    let lexer = Lexer::new("");
    assert_eq!(lexer.offset(), 0);
    assert_eq!(lexer.peek(), None);
}

#[test]
fn peek_does_not_move_the_cursor() {
    let mut lexer = Lexer::new("+-");
    assert_eq!(lexer.peek(), Some('+'));
    assert_eq!(lexer.peek(), Some('+'));
    assert_eq!(lexer.offset(), 0);
    assert_eq!(lexer.read_next_kind(), Kind::Plus);
    assert_eq!(lexer.peek(), Some('-'));
    assert_eq!(lexer.offset(), 1);
}

#[test]
fn peek_returns_whole_characters() {
    let mut lexer = Lexer::new("+\u{20ac}\u{1f600}");
    assert_eq!(lexer.read_next_kind(), Kind::Plus);
    assert_eq!(lexer.peek(), Some('\u{20ac}'));
    assert_eq!(lexer.offset(), 1);
    assert_eq!(lexer.read_next_kind(), Kind::Eof);
    assert_eq!(lexer.peek(), None);
    assert_eq!(lexer.offset(), 8);
}

#[test]
fn failed_lookahead_consumes_nothing() {
    let mut lexer = Lexer::new("+a");
    assert_eq!(lexer.read_next_kind(), Kind::Plus);
    assert_eq!(lexer.offset(), 1);
    assert_eq!(lexer.peek(), Some('a'));
}

#[test]
fn successful_lookahead_consumes_the_second_symbol() {
    let mut lexer = Lexer::new("--a");
    assert_eq!(lexer.read_next_kind(), Kind::MinusMinus);
    assert_eq!(lexer.offset(), 2);
    assert_eq!(lexer.peek(), Some('a'));
}

#[test]
fn read_next_kind_walks_the_source() {
    let mut lexer = Lexer::new("x++y-+--");
    assert_eq!(lexer.read_next_kind(), Kind::PlusPlus);
    assert_eq!(lexer.offset(), 3);
    assert_eq!(lexer.read_next_kind(), Kind::Minus);
    assert_eq!(lexer.offset(), 5);
    assert_eq!(lexer.read_next_kind(), Kind::Plus);
    assert_eq!(lexer.offset(), 6);
    assert_eq!(lexer.read_next_kind(), Kind::MinusMinus);
    assert_eq!(lexer.offset(), 8);
    assert_eq!(lexer.read_next_kind(), Kind::Eof);
    assert_eq!(lexer.offset(), 8);
    assert_eq!(lexer.read_next_kind(), Kind::Eof);
    assert_eq!(lexer.offset(), 8);
}

#[test]
fn token_ends_at_the_offset_left_behind() {
    let mut lexer = Lexer::new("ab++c");
    let t = lexer.read_next_token();
    assert_eq!(t, Token { kind: Kind::PlusPlus, start: 2, end: 4 });
    assert_eq!(lexer.offset(), t.end);
    let u = lexer.read_next_token();
    assert_eq!(u, Token { kind: Kind::Eof, start: 5, end: 5 });
    assert_eq!(lexer.offset(), 5);
}

#[test]
fn two_lexers_over_one_source_are_independent() {
    let source = "+-";
    let mut first = Lexer::new(source);
    let mut second = Lexer::new(source);
    assert_eq!(first.read_next_kind(), Kind::Plus);
    assert_eq!(first.read_next_kind(), Kind::Minus);
    assert_eq!(second.read_next_kind(), Kind::Plus);
    assert_eq!(second.offset(), 1);
    assert_eq!(first.offset(), 2);
}

#[test]
fn char_width_at_the_boundaries() {
    assert_eq!(char_width('\u{0}'), 1);
    assert_eq!(char_width('+'), 1);
    assert_eq!(char_width('-'), 1);
    assert_eq!(char_width('\u{7f}'), 1);
    assert_eq!(char_width('\u{80}'), 2);
    assert_eq!(char_width('\u{7ff}'), 2);
    assert_eq!(char_width('\u{800}'), 3);
    assert_eq!(char_width('\u{d7ff}'), 3);
    assert_eq!(char_width('\u{e000}'), 3);
    assert_eq!(char_width('\u{ffff}'), 3);
    assert_eq!(char_width('\u{10000}'), 4);
    assert_eq!(char_width('\u{10ffff}'), 4);
}

#[test]
fn char_width_agrees_with_the_standard_library() {
    let samples = vec!['a', '\u{e9}', '\u{20ac}', '\u{1f600}', '\u{7f}', '\u{80}', '\u{ffff}'];
    for c in samples {
        assert_eq!(char_width(c), c.len_utf8());
    }
}

#[test]
fn tokens_are_plain_values() {
    let t = Token { kind: Kind::Plus, start: 0, end: 1 };
    let copy = t;
    assert_eq!(t, copy);
    assert_eq!(t.clone(), t);
    assert_ne!(t, Token { kind: Kind::Minus, start: 0, end: 1 });
    assert_ne!(t, Token { kind: Kind::Plus, start: 0, end: 2 });
    assert_eq!(format!("{:?}", t), "Token { kind: Plus, start: 0, end: 1 }");
    assert_eq!(format!("{:?}", Kind::Eof), "Eof");
    assert_ne!(Kind::PlusPlus, Kind::MinusMinus);
}
