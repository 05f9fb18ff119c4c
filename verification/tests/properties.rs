use symbol_lexer::{tokenize, Kind, Lexer, Token};

fn samples() -> Vec<&'static str> {
    vec![
        "",
        "+",
        "-",
        "++",
        "--",
        "+-",
        "+++",
        "----",
        "+-++--+",
        "a+b-c",
        "abc",
        " + + ",
        "\u{20ac}+",
        "+\u{e9}+\u{20ac}--\u{1f600}-",
        "\u{1f600}\u{1f600}",
        "x--y++z-",
    ]
}

fn is_symbol(c: char) -> bool {
    c == '+' || c == '-'
}

#[test]
fn reading_ends_within_one_token_per_character() {
    for source in samples() {
        let limit: usize = source.chars().count() + 1;
        let mut lexer = Lexer::new(source);
        let mut calls: usize = 0;
        loop {
            calls += 1;
            assert!(calls <= limit, "too many tokens for {:?}", source);
            if lexer.read_next_token().kind == Kind::Eof {
                break;
            }
        }
        assert_eq!(tokenize(source).len(), calls);
    }
}

#[test]
fn widths_follow_the_kind() {
    for source in samples() {
        for t in tokenize(source) {
            let width: usize = t.end - t.start;
            match t.kind {
                Kind::Plus | Kind::Minus => assert_eq!(width, 1),
                Kind::PlusPlus | Kind::MinusMinus => assert_eq!(width, 2),
                Kind::Eof => assert_eq!(width, 0),
            }
        }
    }
}

#[test]
fn token_text_matches_the_kind() {
    for source in samples() {
        for t in tokenize(source) {
            let text = &source[t.start..t.end];
            match t.kind {
                Kind::Plus => assert_eq!(text, "+"),
                Kind::Minus => assert_eq!(text, "-"),
                Kind::PlusPlus => assert_eq!(text, "++"),
                Kind::MinusMinus => assert_eq!(text, "--"),
                Kind::Eof => assert_eq!(text, ""),
            }
        }
    }
}

#[test]
fn end_of_input_sits_at_the_length() {
    for source in samples() {
        let tokens = tokenize(source);
        let last = tokens[tokens.len() - 1];
        assert_eq!(last, Token { kind: Kind::Eof, start: source.len(), end: source.len() });
        for t in &tokens[..tokens.len() - 1] {
            assert_ne!(t.kind, Kind::Eof);
        }
    }
}

#[test]
fn end_of_input_repeats() {
    for source in samples() {
        let mut lexer = Lexer::new(source);
        let mut first = lexer.read_next_token();
        while first.kind != Kind::Eof {
            first = lexer.read_next_token();
        }
        for _ in 0..3 {
            assert_eq!(lexer.read_next_token(), first);
            assert_eq!(lexer.offset(), source.len());
            assert_eq!(lexer.peek(), None);
            assert_eq!(lexer.read_next_kind(), Kind::Eof);
        }
    }
}

#[test]
fn spans_increase_and_do_not_overlap() {
    for source in samples() {
        let tokens = tokenize(source);
        for pair in tokens.windows(2) {
            assert!(pair[0].start < pair[0].end);
            assert!(pair[0].end <= pair[1].start);
        }
        for t in &tokens {
            assert!(t.start <= t.end && t.end <= source.len());
            assert!(source.is_char_boundary(t.start) && source.is_char_boundary(t.end));
        }
    }
}

#[test]
fn tokens_and_skipped_characters_cover_the_source() {
    for source in samples() {
        let tokens = tokenize(source);
        let mut in_token = vec![false; source.len()];
        for t in &tokens {
            for p in t.start..t.end {
                assert!(!in_token[p], "byte {} of {:?} is in two tokens", p, source);
                in_token[p] = true;
            }
        }
        for (start, c) in source.char_indices() {
            for p in start..start + c.len_utf8() {
                assert_eq!(in_token[p], is_symbol(c), "byte {} of {:?}", p, source);
            }
        }
    }
}

#[test]
fn tokenize_is_reading_until_the_end() {
    for source in samples() {
        let mut lexer = Lexer::new(source);
        let mut pulled: Vec<Token> = Vec::new();
        loop {
            let t = lexer.read_next_token();
            pulled.push(t);
            if t.kind == Kind::Eof {
                break;
            }
        }
        assert_eq!(tokenize(source), pulled);
    }
}

#[test]
fn kinds_alone_agree_with_tokens() {
    for source in samples() {
        let mut by_kind = Lexer::new(source);
        let mut by_token = Lexer::new(source);
        loop {
            let t = by_token.read_next_token();
            assert_eq!(by_kind.read_next_kind(), t.kind);
            assert_eq!(by_kind.offset(), by_token.offset());
            assert_eq!(by_token.offset(), t.end);
            if t.kind == Kind::Eof {
                break;
            }
        }
    }
}
