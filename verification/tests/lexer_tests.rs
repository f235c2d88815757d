use truck::lexer::{lexes_fully, Error, Lexer, Token};

fn lex_all(text: &str) -> Vec<Result<Token, Error>> {
    let mut lexer = Lexer::new(text);
    let mut out = Vec::new();
    while let Some(r) = lexer.next() {
        let stop = r.is_err();
        out.push(r);
        if stop {
            break;
        }
    }
    out
}

fn var(x: &str) -> Result<Token, Error> {
    Ok(Token::Var(x.to_string()))
}

#[test]
fn lex_program() {
    let toks = lex_all("fn main() {\n    let mut x = Box::new(5);\n    *x;\n}\n");
    assert_eq!(
        toks,
        vec![
            Ok(Token::Fn),
            var("main"),
            Ok(Token::Lparen),
            Ok(Token::Rparen),
            Ok(Token::Lbracket),
            Ok(Token::Let),
            Ok(Token::Mut),
            var("x"),
            Ok(Token::Eq),
            Ok(Token::Box),
            Ok(Token::Lparen),
            Ok(Token::Int(5)),
            Ok(Token::Rparen),
            Ok(Token::Semicolon),
            Ok(Token::Star),
            var("x"),
            Ok(Token::Semicolon),
            Ok(Token::Rbracket),
        ]
    );
}

#[test]
fn lex_symbols() {
    let toks = lex_all("&mut y, &z");
    assert_eq!(
        toks,
        vec![
            Ok(Token::Ampersand),
            Ok(Token::Mut),
            var("y"),
            Ok(Token::Comma),
            Ok(Token::Ampersand),
            var("z"),
        ]
    );
}

#[test]
fn lex_empty() {
    assert_eq!(lex_all(""), vec![]);
    assert_eq!(lex_all("   \n\t\n"), vec![]);
}

#[test]
fn lex_keyword_prefix() {
    // A keyword is taken as soon as the text starts with it.
    assert_eq!(lex_all("letter"), vec![Ok(Token::Let), var("ter")]);
    assert_eq!(lex_all("fnord"), vec![Ok(Token::Fn), var("ord")]);
    assert_eq!(lex_all("my_var1"), vec![var("my_var1")]);
    assert_eq!(lex_all("_a"), vec![var("_a")]);
}

#[test]
fn lex_integers() {
    assert_eq!(lex_all("0 42 2147483647"), vec![Ok(Token::Int(0)), Ok(Token::Int(42)), Ok(Token::Int(2147483647))]);
    // Digits followed by letters: the number, then a name.
    assert_eq!(lex_all("12ab"), vec![Ok(Token::Int(12)), var("ab")]);
}

#[test]
fn lex_comments() {
    let toks = lex_all("x; // a comment\n// another\ny");
    assert_eq!(toks, vec![var("x"), Ok(Token::Semicolon), var("y")]);
}

#[test]
fn lex_windows_lines() {
    assert_eq!(lex_all("x\r\ny"), vec![var("x"), var("y")]);
}

#[test]
fn lex_unknown_position() {
    // Lines and columns count from 1.
    let toks = lex_all("fn $");
    assert_eq!(toks, vec![Ok(Token::Fn), Err(Error::Unknown(1, 4))]);
    let toks = lex_all("x\n  y #");
    assert_eq!(toks, vec![var("x"), var("y"), Err(Error::Unknown(2, 5))]);
}

#[test]
fn lex_error_repeats() {
    // An unknown character is not consumed: the lexer reports it again.
    let mut lexer = Lexer::new("@");
    assert_eq!(lexer.next(), Some(Err(Error::Unknown(1, 1))));
    assert_eq!(lexer.next(), Some(Err(Error::Unknown(1, 1))));
}

#[test]
fn lex_end_repeats() {
    let mut lexer = Lexer::new("x");
    assert_eq!(lexer.next(), Some(var("x")));
    assert_eq!(lexer.next(), None);
    assert_eq!(lexer.next(), None);
}


#[test]
fn lex_non_ascii_is_unknown() {
    assert_eq!(lex_all("x é"), vec![var("x"), Err(Error::Unknown(1, 3))]);
}

#[test]
fn lex_failures_detected() {
    assert!(lexes_fully("fn main() { let mut x = 2147483647; }"));
    assert!(lexes_fully("@ 99999999999"));
    assert!(!lexes_fully("x 2147483648"));
    assert!(!lexes_fully("x\u{00A0}y"));
    assert!(!lexes_fully("\u{3000}"));
    assert!(lexes_fully(""));
}
