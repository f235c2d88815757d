use truck::lexer::{Error as LexError, Token};
use truck::parser::{parse_program, Error, Parser};
use truck::utils::{Copyable, Expr, Lifetime, Lval, Mutable, Stmt};

fn parse(text: &str) -> Result<Expr, Error> {
    Parser::new(text).parse()
}

#[test]
fn parse_main_block() {
    let e = parse("fn main() { let mut x = 1; x; }").unwrap();
    assert_eq!(
        e,
        Expr::Block(
            vec![Stmt::LetMut("x".to_string(), Expr::Int(1))],
            Box::new(Expr::Lv(Lval::var("x"), Copyable::No)),
            Lifetime(1),
        )
    );
}

#[test]
fn parse_unit_result() {
    // A block whose last statement is not an expression gives unit.
    let e = parse("fn main() { let mut x = 1; }").unwrap();
    assert_eq!(
        e,
        Expr::Block(
            vec![Stmt::LetMut("x".to_string(), Expr::Int(1))],
            Box::new(Expr::Unit),
            Lifetime(1),
        )
    );
}

#[test]
fn parse_nested_lifetimes() {
    // Inner blocks close first and get the smaller lifetime numbers.
    let e = parse("fn main() { let mut x = { 1; }; let mut y = { 2; }; }").unwrap();
    assert_eq!(
        e,
        Expr::Block(
            vec![
                Stmt::LetMut(
                    "x".to_string(),
                    Expr::Block(vec![], Box::new(Expr::Int(1)), Lifetime(1)),
                ),
                Stmt::LetMut(
                    "y".to_string(),
                    Expr::Block(vec![], Box::new(Expr::Int(2)), Lifetime(2)),
                ),
            ],
            Box::new(Expr::Unit),
            Lifetime(3),
        )
    );
}

#[test]
fn parse_statements() {
    let e = parse("fn main() { let mut a = Box::new(5); let mut b = &mut a; *b = 3; **b; &a; ; }").unwrap();
    assert_eq!(
        e,
        Expr::Block(
            vec![
                Stmt::LetMut("a".to_string(), Expr::OBox(Box::new(Expr::Int(5)))),
                Stmt::LetMut("b".to_string(), Expr::Borrow(Lval::var("a"), Mutable::Yes)),
                Stmt::Assign(Lval::new("b", 1), Expr::Int(3)),
                Stmt::Expr(Expr::Lv(Lval::new("b", 2), Copyable::No)),
                Stmt::Expr(Expr::Borrow(Lval::var("a"), Mutable::No)),
            ],
            Box::new(Expr::Unit),
            Lifetime(1),
        )
    );
}

#[test]
fn parse_empty_expression_is_unit() {
    let e = parse("fn main() { let mut x = ; }").unwrap();
    assert_eq!(
        e,
        Expr::Block(vec![Stmt::LetMut("x".to_string(), Expr::Unit)], Box::new(Expr::Unit), Lifetime(1))
    );
}

#[test]
fn parse_other_function_name() {
    // After `fn` and a name other than `main`, only a block is parsed.
    let e = parse("fn foo { 1; }").unwrap();
    assert_eq!(e, Expr::Block(vec![], Box::new(Expr::Int(1)), Lifetime(1)));
}

#[test]
fn parse_err_end_of_file() {
    assert_eq!(parse(""), Err(Error::EndOfFile));
    assert_eq!(parse("fn main() { 1;"), Err(Error::EndOfFile));
}

#[test]
fn parse_err_unexpected() {
    assert_eq!(parse("let"), Err(Error::Unexpected(Token::Let)));
    assert_eq!(parse("fn main() { ) }"), Err(Error::Unexpected(Token::Rparen)));
    // After a failed block of `main`, a token still ahead is reported instead.
    assert_eq!(parse("fn main() { let x = 1; }"), Err(Error::Unexpected(Token::Eq)));
    assert_eq!(parse("fn foo { let x = 1; }"), Err(Error::Unexpected(Token::Var("x".to_string()))));
    assert_eq!(parse("fn main() { 1 }"), Err(Error::Unexpected(Token::Rbracket)));
}

#[test]
fn parse_err_trailing() {
    assert_eq!(parse("fn main() { 1; } x"), Err(Error::Unexpected(Token::Var("x".to_string()))));
}

#[test]
fn parse_err_lexer() {
    assert_eq!(parse("fn $"), Err(Error::Lexer(LexError::Unknown(1, 4))));
    // A bad character where a token is only looked at reads as the end of the file.
    assert_eq!(parse("fn main() { $ }"), Err(Error::EndOfFile));
}

#[test]
fn parser_steps() {
    let mut p = Parser::new("x = *y;");
    assert_eq!(p.peek_token(), Ok(&Token::Var("x".to_string())));
    assert_eq!(p.next_token_var(), Ok("x".to_string()));
    assert_eq!(p.next_token_match(Token::Eq), Ok(Token::Eq));
    assert_eq!(p.parse_lval(), Ok(Lval::new("y", 1)));
    assert_eq!(p.next_token_match(Token::Lparen), Err(Error::Unexpected(Token::Semicolon)));
    assert_eq!(p.next_token(), Err(Error::EndOfFile));
}

#[test]
fn parser_stmt_and_expr() {
    let mut p = Parser::new("x = Box::new(&y); { z; }");
    assert_eq!(
        p.parse_stmt(),
        Ok(Stmt::Assign(Lval::var("x"), Expr::OBox(Box::new(Expr::Borrow(Lval::var("y"), Mutable::No)))))
    );
    assert_eq!(
        p.parse_expr(),
        Ok(Expr::Block(vec![], Box::new(Expr::Lv(Lval::var("z"), Copyable::No)), Lifetime(1)))
    );
}

#[test]
fn parse_empty_blocks() {
    // A block without statements gives unit.
    assert_eq!(Parser::new("{}").parse_block(), Ok(Expr::Block(vec![], Box::new(Expr::Unit), Lifetime(1))));
    assert_eq!(parse("fn main() {}"), Ok(Expr::Block(vec![], Box::new(Expr::Unit), Lifetime(1))));
    assert_eq!(
        parse("fn main() { {}; }"),
        Ok(Expr::Block(
            vec![],
            Box::new(Expr::Block(vec![], Box::new(Expr::Unit), Lifetime(1))),
            Lifetime(2),
        ))
    );
}

#[test]
fn parse_program_checks_lexing() {
    assert_eq!(
        parse_program("fn main() { 1; }"),
        Some(Ok(Expr::Block(vec![], Box::new(Expr::Int(1)), Lifetime(1))))
    );
    assert_eq!(parse_program("fn main() { let x = 1; }"), Some(Err(Error::Unexpected(Token::Eq))));
    assert_eq!(parse_program("fn main() { 4294967296; }"), None);
    // The failure is met only where the parse reaches it.
    assert_eq!(parse_program("x 9999999999"), Some(Err(Error::Unexpected(Token::Var("x".to_string())))));
    assert_eq!(
        parse_program("fn foo { 1; } 9999999999"),
        Some(Ok(Expr::Block(vec![], Box::new(Expr::Int(1)), Lifetime(1))))
    );
    assert_eq!(parse_program("fn main() { 1; } 9999999999"), None);
    assert_eq!(parse_program("fn main() { ) } \u{3000}"), Some(Err(Error::Unexpected(Token::Rparen))));
    assert_eq!(parse_program("fn main() { 1; \u{3000}"), None);
}
