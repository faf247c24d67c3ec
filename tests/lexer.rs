use monkey::lexer::{tokenize, Lexer, TokenType};
use monkey::parser::Parser;

fn ident(s: &str) -> TokenType {
    TokenType::Ident(String::from(s))
}

fn number(s: &str) -> TokenType {
    TokenType::Int(String::from(s))
}

#[test]
fn lexertest() {
    let input = String::from("let five = 5;
    let ten = 10;
    let add = fn(x, y) {
    x + y;
    };
    let result = add(five, ten);
    !-/*5;
    5 < 10 > 5;
    if (5 < 10) {
    return true;
    } else {
    return false;
    }
    10 == 10;
    10 != 9; ");
    let tests = vec![
        TokenType::Let,
        TokenType::Ident(String::from("five")),
        TokenType::Assign,
        TokenType::Int(String::from("5")),
        TokenType::Semicolon,
        TokenType::Let,
        TokenType::Ident(String::from("ten")),
        TokenType::Assign,
        TokenType::Int(String::from("10")),
        TokenType::Semicolon,
        TokenType::Let,
        TokenType::Ident(String::from("add")),
        TokenType::Assign,
        TokenType::Function,
        TokenType::Lparen,
        TokenType::Ident(String::from("x")),
        TokenType::Comma,
        TokenType::Ident(String::from("y")),
        TokenType::Rparen,
        TokenType::Lsquigly,
        TokenType::Ident(String::from("x")),
        TokenType::Plus,
        TokenType::Ident(String::from("y")),
        TokenType::Semicolon,
        TokenType::Rsquigly,
        TokenType::Semicolon,
        TokenType::Let,
        TokenType::Ident(String::from("result")),
        TokenType::Assign,
        TokenType::Ident(String::from("add")),
        TokenType::Lparen,
        TokenType::Ident(String::from("five")),
        TokenType::Comma,
        TokenType::Ident(String::from("ten")),
        TokenType::Rparen,
        TokenType::Semicolon,
        TokenType::Bang,
        TokenType::Minus,
        TokenType::Slash,
        TokenType::Asterisk,
        TokenType::Int(String::from("5")),
        TokenType::Semicolon,
        TokenType::Int(String::from("5")),
        TokenType::LessThan,
        TokenType::Int(String::from("10")),
        TokenType::GreaterThan,
        TokenType::Int(String::from("5")),
        TokenType::Semicolon,
        TokenType::If,
        TokenType::Lparen,
        TokenType::Int(String::from("5")),
        TokenType::LessThan,
        TokenType::Int(String::from("10")),
        TokenType::Rparen,
        TokenType::Lsquigly,
        TokenType::Return,
        TokenType::True,
        TokenType::Semicolon,
        TokenType::Rsquigly,
        TokenType::Else,
        TokenType::Lsquigly,
        TokenType::Return,
        TokenType::False,
        TokenType::Semicolon,
        TokenType::Rsquigly,
        TokenType::Int(String::from("10")),
        TokenType::Equal,
        TokenType::Int(String::from("10")),
        TokenType::Semicolon,
        TokenType::Int(String::from("10")),
        TokenType::NotEqual,
        TokenType::Int(String::from("9")),
        TokenType::Semicolon,
    ];
    let mut lex = Lexer::new(input);

    for tok in tests {
        assert_eq!(tok, lex.next_token().unwrap());
    }

}

#[test]
fn let_statement_tokens() {
    assert_eq!(
        tokenize(String::from("let five = 5;")),
        vec![TokenType::Let, ident("five"), TokenType::Assign, number("5"), TokenType::Semicolon, TokenType::Eof]
    );
}

#[test]
fn equality_tokens() {
    assert_eq!(
        tokenize(String::from("10 == 10;")),
        vec![number("10"), TokenType::Equal, number("10"), TokenType::Semicolon, TokenType::Eof]
    );
}

#[test]
fn operator_run_tokens() {
    assert_eq!(
        tokenize(String::from("!-/*5;")),
        vec![
            TokenType::Bang,
            TokenType::Minus,
            TokenType::Slash,
            TokenType::Asterisk,
            number("5"),
            TokenType::Semicolon,
            TokenType::Eof
        ]
    );
}

#[test]
fn spacing_does_not_change_function_tokens() {
    let tight = tokenize(String::from("fn(x,y){x+y;}"));
    let spaced = tokenize(String::from("fn (x, y) { x + y; }"));
    assert_eq!(tight, spaced);
    assert_eq!(
        tight,
        vec![
            TokenType::Function,
            TokenType::Lparen,
            ident("x"),
            TokenType::Comma,
            ident("y"),
            TokenType::Rparen,
            TokenType::Lsquigly,
            ident("x"),
            TokenType::Plus,
            ident("y"),
            TokenType::Semicolon,
            TokenType::Rsquigly,
            TokenType::Eof
        ]
    );
}

#[test]
fn mixed_whitespace_between_tokens() {
    assert_eq!(tokenize(String::from("a \t\r\n b")), tokenize(String::from("a b")));
    assert_eq!(tokenize(String::from("1\n\n+\t2")), tokenize(String::from("1+2")));
}

#[test]
fn empty_input_is_only_eof() {
    assert_eq!(tokenize(String::new()), vec![TokenType::Eof]);
}

#[test]
fn whitespace_input_is_only_eof() {
    assert_eq!(tokenize(String::from(" \t\r\n  \n")), vec![TokenType::Eof]);
}

#[test]
fn exhausted_lexer_keeps_returning_eof() {
    let mut lex = Lexer::new(String::from("x"));
    assert_eq!(lex.next_token().unwrap(), ident("x"));
    for _ in 0..5 {
        assert_eq!(lex.next_token().unwrap(), TokenType::Eof);
    }
    let mut empty = Lexer::new(String::new());
    assert_eq!(empty.next_token().unwrap(), TokenType::Eof);
    assert_eq!(empty.next_token().unwrap(), TokenType::Eof);
}

#[test]
fn every_keyword_is_recognised() {
    let table = [
        ("let", TokenType::Let),
        ("fn", TokenType::Function),
        ("true", TokenType::True),
        ("false", TokenType::False),
        ("if", TokenType::If),
        ("else", TokenType::Else),
        ("return", TokenType::Return),
    ];
    for (text, tok) in table {
        assert_eq!(tokenize(String::from(text)), vec![tok, TokenType::Eof]);
    }
}

#[test]
fn near_keywords_are_identifiers() {
    for text in ["lets", "fnx", "True", "iff", "els", "returns", "_", "f", "foo_Bar"] {
        assert_eq!(tokenize(String::from(text)), vec![ident(text), TokenType::Eof]);
    }
}

#[test]
fn digits_end_an_identifier() {
    assert_eq!(tokenize(String::from("x1y")), vec![ident("x"), number("1"), ident("y"), TokenType::Eof]);
}

#[test]
fn compound_operators() {
    assert_eq!(tokenize(String::from("!=")), vec![TokenType::NotEqual, TokenType::Eof]);
    assert_eq!(tokenize(String::from("<=")), vec![TokenType::LessThanEq, TokenType::Eof]);
    assert_eq!(tokenize(String::from(">=")), vec![TokenType::GreaterThanEq, TokenType::Eof]);
    assert_eq!(tokenize(String::from("==")), vec![TokenType::Equal, TokenType::Eof]);
}

#[test]
fn single_operators_leave_the_next_byte() {
    assert_eq!(tokenize(String::from("!x")), vec![TokenType::Bang, ident("x"), TokenType::Eof]);
    assert_eq!(tokenize(String::from("<1")), vec![TokenType::LessThan, number("1"), TokenType::Eof]);
    assert_eq!(tokenize(String::from(">;")), vec![TokenType::GreaterThan, TokenType::Semicolon, TokenType::Eof]);
    assert_eq!(tokenize(String::from("= =")), vec![TokenType::Assign, TokenType::Assign, TokenType::Eof]);
    assert_eq!(tokenize(String::from("=!")), vec![TokenType::Assign, TokenType::Bang, TokenType::Eof]);
    assert_eq!(tokenize(String::from("<")), vec![TokenType::LessThan, TokenType::Eof]);
    assert_eq!(
        tokenize(String::from("===")),
        vec![TokenType::Equal, TokenType::Assign, TokenType::Eof]
    );
}

#[test]
fn number_text_is_kept() {
    assert_eq!(
        tokenize(String::from("0012345678901234567890123;")),
        vec![number("0012345678901234567890123"), TokenType::Semicolon, TokenType::Eof]
    );
    assert_eq!(tokenize(String::from("-7")), vec![TokenType::Minus, number("7"), TokenType::Eof]);
    assert_eq!(tokenize(String::from("12ab")), vec![number("12"), ident("ab"), TokenType::Eof]);
}

#[test]
fn unknown_bytes_are_illegal() {
    assert_eq!(
        tokenize(String::from("a@b#")),
        vec![ident("a"), TokenType::Illegal, ident("b"), TokenType::Illegal, TokenType::Eof]
    );
    assert_eq!(
        tokenize(String::from("x\0y")),
        vec![ident("x"), TokenType::Illegal, ident("y"), TokenType::Eof]
    );
    let e = tokenize(String::from("é"));
    assert_eq!(e, vec![TokenType::Illegal, TokenType::Illegal, TokenType::Eof]);
}

#[test]
fn parser_loads_two_tokens() {
    let p = Parser::new(Lexer::new(String::from("let x")));
    assert!(p.is_ok());
    let mut p = p.unwrap();
    assert_eq!(p.next_token(), Ok(()));
    assert_eq!(p.next_token(), Ok(()));
}

#[test]
fn whitespace_run_separates_two_inputs() {
    let mut expected = tokenize(String::from("let x"));
    expected.pop();
    expected.extend(tokenize(String::from("= 5;")));
    assert_eq!(tokenize(String::from("let x \t\n = 5;")), expected);
    assert_eq!(tokenize(String::from("let x= 5;")), expected);
}

#[test]
fn removing_whitespace_between_joining_bytes_merges_tokens() {
    assert_eq!(tokenize(String::from("let x")), vec![TokenType::Let, ident("x"), TokenType::Eof]);
    assert_eq!(tokenize(String::from("letx")), vec![ident("letx"), TokenType::Eof]);
    assert_eq!(tokenize(String::from("1 2")), vec![number("1"), number("2"), TokenType::Eof]);
    assert_eq!(tokenize(String::from("! =")), vec![TokenType::Bang, TokenType::Assign, TokenType::Eof]);
}
