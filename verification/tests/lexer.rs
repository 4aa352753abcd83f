use solowork::compiler::{Compiler, FileData};
use solowork::tokenize::{Lexer, Token, TokenKind};

fn kinds(src: &str) -> Vec<TokenKind> {
    let compiler = Compiler::new();
    let mut lexer = Lexer::new(&compiler, src);
    lexer.tokenize().into_iter().map(|t| t.kind).collect()
}

fn tokens(src: &str) -> Vec<Token> {
    let compiler = Compiler::new();
    let mut lexer = Lexer::new(&compiler, src);
    lexer.tokenize()
}

#[test]
fn keywords_and_symbols() {
    assert_eq!(
        kinds("let mut x = 5; if elif else while print"),
        vec![
            TokenKind::Let,
            TokenKind::Mut,
            TokenKind::Identifier("x".to_string()),
            TokenKind::Equal,
            TokenKind::Integer(5),
            TokenKind::Semicolon,
            TokenKind::If,
            TokenKind::Elif,
            TokenKind::Else,
            TokenKind::While,
            TokenKind::Print,
            TokenKind::EOF,
        ]
    );
    assert_eq!(
        kinds("+-*/%(){}<>;,== != ! ="),
        vec![
            TokenKind::Plus,
            TokenKind::Minus,
            TokenKind::Star,
            TokenKind::Slash,
            TokenKind::Percent,
            TokenKind::LParen,
            TokenKind::RParen,
            TokenKind::LBrace,
            TokenKind::RBrace,
            TokenKind::Less,
            TokenKind::Greater,
            TokenKind::Semicolon,
            TokenKind::Comma,
            TokenKind::EqualEqual,
            TokenKind::NotEqual,
            TokenKind::Not,
            TokenKind::Equal,
            TokenKind::EOF,
        ]
    );
}

#[test]
fn bang_at_end_of_input_is_not() {
    assert_eq!(kinds("!"), vec![TokenKind::Not, TokenKind::EOF]);
    let compiler = Compiler::new();
    let mut lexer = Lexer::new(&compiler, "!");
    assert_eq!(lexer.next_token().kind, TokenKind::Not);
    assert_eq!(lexer.next_token().kind, TokenKind::EOF);
}

#[test]
fn strings_keep_escapes() {
    assert_eq!(
        kinds(r#""a \"q\" b""#),
        vec![TokenKind::String(r#"a \"q\" b"#.to_string()), TokenKind::EOF]
    );
    assert_eq!(kinds("\"open"), vec![TokenKind::ILLEGAL, TokenKind::EOF]);
}

#[test]
fn numbers() {
    assert_eq!(kinds("007"), vec![TokenKind::Integer(7), TokenKind::EOF]);
    assert_eq!(
        kinds("9223372036854775807"),
        vec![TokenKind::Integer(9223372036854775807), TokenKind::EOF]
    );
    assert_eq!(kinds("9223372036854775808"), vec![TokenKind::ILLEGAL, TokenKind::EOF]);
    assert_eq!(
        kinds("12abc"),
        vec![TokenKind::ILLEGAL, TokenKind::Identifier("abc".to_string()), TokenKind::EOF]
    );
}

#[test]
fn identifiers_take_alphanumerics() {
    assert_eq!(
        kinds("ab1c déjà"),
        vec![
            TokenKind::Identifier("ab1c".to_string()),
            TokenKind::Identifier("déjà".to_string()),
            TokenKind::EOF
        ]
    );
    assert_eq!(kinds("letter"), vec![TokenKind::Identifier("letter".to_string()), TokenKind::EOF]);
}

#[test]
fn unicode_whitespace_is_skipped() {
    assert_eq!(kinds("\u{a0}\t\r\n 1"), vec![TokenKind::Integer(1), TokenKind::EOF]);
}

#[test]
fn unknown_characters_are_consumed() {
    assert_eq!(
        kinds("let x = @;"),
        vec![
            TokenKind::Let,
            TokenKind::Identifier("x".to_string()),
            TokenKind::Equal,
            TokenKind::ILLEGAL,
            TokenKind::Semicolon,
            TokenKind::EOF
        ]
    );
    assert_eq!(kinds("@#"), vec![TokenKind::ILLEGAL, TokenKind::ILLEGAL, TokenKind::EOF]);
}

#[test]
fn ascii_program_lexes_exactly() {
    assert_eq!(
        kinds("a==b"),
        vec![
            TokenKind::Identifier("a".to_string()),
            TokenKind::EqualEqual,
            TokenKind::Identifier("b".to_string()),
            TokenKind::EOF
        ]
    );
}

#[test]
fn leading_whitespace_keeps_the_kind() {
    for s in ["x", "12", "\"q\"", "==", "@", ""] {
        let spaced = format!(" \t\n\u{3000}{}", s);
        assert_eq!(kinds(&spaced)[0], kinds(s)[0]);
    }
}

#[test]
fn file_lexer_gives_the_same_tokens() {
    let mut compiler = Compiler::new();
    compiler.add_file(FileData::new(5, "f.rl"));
    let src = "let x = 1;\nprint x;";
    let mut a = Lexer::from_file_contents(&compiler, 5, src).unwrap();
    let mut b = Lexer::new(&compiler, src);
    let ta = a.tokenize();
    let tb = b.tokenize();
    assert_eq!(ta.len(), tb.len());
    for (x, y) in ta.iter().zip(tb.iter()) {
        assert_eq!(x.kind, y.kind);
        assert_eq!((x.line_no, x.col_no), (y.line_no, y.col_no));
        assert!(x.isfile && !y.isfile);
        assert_eq!((x.file_id, y.file_id), (5, 0));
    }
}

#[test]
fn positions_follow_lines_and_columns() {
    let ts = tokens("let a\n  = 1;\n");
    let places: Vec<(usize, usize)> = ts.iter().map(|t| (t.line_no, t.col_no)).collect();
    // each token carries where the lexer stands just after it
    assert_eq!(places, vec![(1, 4), (1, 6), (2, 4), (2, 6), (2, 7), (3, 0)]);
    let empty = tokens("");
    assert_eq!(empty.len(), 1);
    assert_eq!((empty[0].line_no, empty[0].col_no), (0, 0));
}

#[test]
fn peek_does_not_move() {
    let compiler = Compiler::new();
    let mut lexer = Lexer::new(&compiler, "print 12;");
    let peeked = lexer.peek_token();
    let next = lexer.next_token();
    assert_eq!(peeked.kind, next.kind);
    assert_eq!((peeked.line_no, peeked.col_no), (next.line_no, next.col_no));
    assert_eq!(lexer.next_token().kind, TokenKind::Integer(12));
}

#[test]
fn iterator_ends_after_eof() {
    let compiler = Compiler::new();
    let mut lexer = Lexer::new(&compiler, "1");
    assert_eq!(lexer.next().map(|t| t.kind), Some(TokenKind::Integer(1)));
    assert_eq!(lexer.next().map(|t| t.kind), Some(TokenKind::EOF));
    assert!(lexer.next().is_none());
    // next_token keeps answering EOF at the end
    assert_eq!(lexer.next_token().kind, TokenKind::EOF);
}

#[test]
fn lexer_for_registered_file() {
    let mut compiler = Compiler::new();
    compiler.add_file(FileData::new(3, "prog.rl"));
    assert!(Lexer::from_file_contents(&compiler, 4, "x").is_none());
    let mut lexer = Lexer::from_file_contents(&compiler, 3, "x").unwrap();
    let t = lexer.next_token();
    assert!(t.isfile);
    assert_eq!(t.file_id, 3);
    let mut plain = Lexer::new(&compiler, "x");
    let t = plain.next_token();
    assert!(!t.isfile);
    assert_eq!(t.file_id, 0);
}

#[test]
fn display_strings() {
    assert_eq!(TokenKind::Identifier("x".to_string()).to_display_string(), "identifier x");
    assert_eq!(TokenKind::Integer(-42).to_display_string(), "-42");
    assert_eq!(TokenKind::Integer(i64::MIN).to_display_string(), "-9223372036854775808");
    assert_eq!(TokenKind::EOF.to_display_string(), "[END OF FILE]");
    assert_eq!(TokenKind::ILLEGAL.to_display_string(), "[ILLEGAL CHARACTER]");
    assert_eq!(TokenKind::EqualEqual.to_display_string(), "==");
    assert_eq!(TokenKind::String("s".to_string()).to_display_string(), "s");
    assert!(TokenKind::Plus.same_as(&TokenKind::Plus));
    assert!(!TokenKind::Plus.same_as(&TokenKind::Minus));
    assert!(!TokenKind::Identifier("a".to_string()).same_as(&TokenKind::Identifier("b".to_string())));
}

#[test]
fn printed_integers_lex_back() {
    for n in [0i64, 7, 10, 4096, i64::MAX] {
        let text = TokenKind::Integer(n).to_display_string();
        assert_eq!(kinds(&text), vec![TokenKind::Integer(n), TokenKind::EOF]);
    }
}
