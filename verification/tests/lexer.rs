use kanic::lexer::{tokenize, Symbol, Token};

#[test]
fn lexer_test_success() {
    let c_code = "(+1 + -2) * 3 - 4 / 5";
    let mut actual = tokenize(c_code).unwrap().into_vec().into_iter();
    assert_eq!(actual.next(), Some(Token::symbol(Symbol::LParen, 0, c_code)));
    assert_eq!(actual.next(), Some(Token::symbol(Symbol::Add, 1, c_code)));
    assert_eq!(actual.next(), Some(Token::num(1, 2, c_code)));
    assert_eq!(actual.next(), Some(Token::symbol(Symbol::Add, 4, c_code)));
    assert_eq!(actual.next(), Some(Token::symbol(Symbol::Sub, 6, c_code)));
    assert_eq!(actual.next(), Some(Token::num(2, 7, c_code)));
    assert_eq!(actual.next(), Some(Token::symbol(Symbol::RParen, 8, c_code)));
    assert_eq!(actual.next(), Some(Token::symbol(Symbol::Mul, 10, c_code)));
    assert_eq!(actual.next(), Some(Token::num(3, 12, c_code)));
    assert_eq!(actual.next(), Some(Token::symbol(Symbol::Sub, 14, c_code)));
    assert_eq!(actual.next(), Some(Token::num(4, 16, c_code)));
    assert_eq!(actual.next(), Some(Token::symbol(Symbol::Div, 18, c_code)));
    assert_eq!(actual.next(), Some(Token::num(5, 20, c_code)));
    assert_eq!(actual.next(), None);
}

#[test]
fn test_success_with_comparison_operator() {
    let c_code = "1 < 2 <= 3 > 4 >= 5 == 6 != 7";
    let mut actual = tokenize(c_code).unwrap().into_vec().into_iter();
    assert_eq!(actual.next(), Some(Token::num(1, 0, c_code)));
    assert_eq!(actual.next(), Some(Token::symbol(Symbol::Lt, 2, c_code)));
    assert_eq!(actual.next(), Some(Token::num(2, 4, c_code)));
    assert_eq!(actual.next(), Some(Token::symbol(Symbol::Lte, 6, c_code)));
    assert_eq!(actual.next(), Some(Token::num(3, 9, c_code)));
    assert_eq!(actual.next(), Some(Token::symbol(Symbol::Gt, 11, c_code)));
    assert_eq!(actual.next(), Some(Token::num(4, 13, c_code)));
    assert_eq!(actual.next(), Some(Token::symbol(Symbol::Gte, 15, c_code)));
    assert_eq!(actual.next(), Some(Token::num(5, 18, c_code)));
    assert_eq!(actual.next(), Some(Token::symbol(Symbol::Eq, 20, c_code)));
    assert_eq!(actual.next(), Some(Token::num(6, 23, c_code)));
    assert_eq!(actual.next(), Some(Token::symbol(Symbol::Neq, 25, c_code)));
    assert_eq!(actual.next(), Some(Token::num(7, 28, c_code)));
    assert_eq!(actual.next(), None);
}

#[test]
fn test_ok_assign() {
    let c_code = "a = 1; bar = 2; car = a + bar; return car;";
    let mut actual = tokenize(c_code).unwrap().into_vec().into_iter();
    assert_eq!(actual.next(), Some(Token::ident("a".into(), 0, c_code)));
    assert_eq!(actual.next(), Some(Token::symbol(Symbol::Assign, 2, c_code)));
    assert_eq!(actual.next(), Some(Token::num(1, 4, c_code)));
    assert_eq!(actual.next(), Some(Token::symbol(Symbol::SemiColon, 5, c_code)));
    assert_eq!(actual.next(), Some(Token::ident("bar".into(), 7, c_code)));
    assert_eq!(actual.next(), Some(Token::symbol(Symbol::Assign, 11, c_code)));
    assert_eq!(actual.next(), Some(Token::num(2, 13, c_code)));
    assert_eq!(actual.next(), Some(Token::symbol(Symbol::SemiColon, 14, c_code)));
    assert_eq!(actual.next(), Some(Token::ident("car".into(), 16, c_code)));
    assert_eq!(actual.next(), Some(Token::symbol(Symbol::Assign, 20, c_code)));
    assert_eq!(actual.next(), Some(Token::ident("a".into(), 22, c_code)));
    assert_eq!(actual.next(), Some(Token::symbol(Symbol::Add, 24, c_code)));
    assert_eq!(actual.next(), Some(Token::ident("bar".into(), 26, c_code)));
    assert_eq!(actual.next(), Some(Token::symbol(Symbol::SemiColon, 29, c_code)));
    assert_eq!(actual.next(), Some(Token::symbol(Symbol::Ret, 31, c_code)));
    assert_eq!(actual.next(), Some(Token::ident("car".into(), 38, c_code)));
    assert_eq!(actual.next(), Some(Token::symbol(Symbol::SemiColon, 41, c_code)));
    assert_eq!(actual.next(), None);
}

#[test]
fn lexer_test_ok_if() {
    let c_code = "if (1 < 2) return 3; else return 4;";
    let mut actual = tokenize(c_code).unwrap().into_vec().into_iter();
    assert_eq!(actual.next(), Some(Token::symbol(Symbol::If, 0, c_code)));
    assert_eq!(actual.next(), Some(Token::symbol(Symbol::LParen, 3, c_code)));
    assert_eq!(actual.next(), Some(Token::num(1, 4, c_code)));
    assert_eq!(actual.next(), Some(Token::symbol(Symbol::Lt, 6, c_code)));
    assert_eq!(actual.next(), Some(Token::num(2, 8, c_code)));
    assert_eq!(actual.next(), Some(Token::symbol(Symbol::RParen, 9, c_code)));
    assert_eq!(actual.next(), Some(Token::symbol(Symbol::Ret, 11, c_code)));
    assert_eq!(actual.next(), Some(Token::num(3, 18, c_code)));
    assert_eq!(actual.next(), Some(Token::symbol(Symbol::SemiColon, 19, c_code)));
    assert_eq!(actual.next(), Some(Token::symbol(Symbol::Else, 21, c_code)));
    assert_eq!(actual.next(), Some(Token::symbol(Symbol::Ret, 26, c_code)));
    assert_eq!(actual.next(), Some(Token::num(4, 33, c_code)));
    assert_eq!(actual.next(), Some(Token::symbol(Symbol::SemiColon, 34, c_code)));
    assert_eq!(actual.next(), None);
}

#[test]
fn test_ok_while() {
    let c_code = "while (1 < 2) return 3;";
    let mut actual = tokenize(c_code).unwrap().into_vec().into_iter();
    assert_eq!(actual.next(), Some(Token::symbol(Symbol::While, 0, c_code)));
    assert_eq!(actual.next(), Some(Token::symbol(Symbol::LParen, 6, c_code)));
    assert_eq!(actual.next(), Some(Token::num(1, 7, c_code)));
    assert_eq!(actual.next(), Some(Token::symbol(Symbol::Lt, 9, c_code)));
    assert_eq!(actual.next(), Some(Token::num(2, 11, c_code)));
    assert_eq!(actual.next(), Some(Token::symbol(Symbol::RParen, 12, c_code)));
    assert_eq!(actual.next(), Some(Token::symbol(Symbol::Ret, 14, c_code)));
    assert_eq!(actual.next(), Some(Token::num(3, 21, c_code)));
    assert_eq!(actual.next(), Some(Token::symbol(Symbol::SemiColon, 22, c_code)));
    assert_eq!(actual.next(), None);
}

#[test]
fn test_ok_for() {
    let c_code = "for (i = 0; i < 10; i = i + 1) return i;";
    let mut actual = tokenize(c_code).unwrap().into_vec().into_iter();
    assert_eq!(actual.next(), Some(Token::symbol(Symbol::For, 0, c_code)));
    assert_eq!(actual.next(), Some(Token::symbol(Symbol::LParen, 4, c_code)));
    assert_eq!(actual.next(), Some(Token::ident("i".into(), 5, c_code)));
    assert_eq!(actual.next(), Some(Token::symbol(Symbol::Assign, 7, c_code)));
    assert_eq!(actual.next(), Some(Token::num(0, 9, c_code)));
    assert_eq!(actual.next(), Some(Token::symbol(Symbol::SemiColon, 10, c_code)));
    assert_eq!(actual.next(), Some(Token::ident("i".into(), 12, c_code)));
    assert_eq!(actual.next(), Some(Token::symbol(Symbol::Lt, 14, c_code)));
    assert_eq!(actual.next(), Some(Token::num(10, 16, c_code)));
    assert_eq!(actual.next(), Some(Token::symbol(Symbol::SemiColon, 18, c_code)));
    assert_eq!(actual.next(), Some(Token::ident("i".into(), 20, c_code)));
    assert_eq!(actual.next(), Some(Token::symbol(Symbol::Assign, 22, c_code)));
    assert_eq!(actual.next(), Some(Token::ident("i".into(), 24, c_code)));
    assert_eq!(actual.next(), Some(Token::symbol(Symbol::Add, 26, c_code)));
    assert_eq!(actual.next(), Some(Token::num(1, 28, c_code)));
    assert_eq!(actual.next(), Some(Token::symbol(Symbol::RParen, 29, c_code)));
    assert_eq!(actual.next(), Some(Token::symbol(Symbol::Ret, 31, c_code)));
    assert_eq!(actual.next(), Some(Token::ident("i".into(), 38, c_code)));
    assert_eq!(actual.next(), Some(Token::symbol(Symbol::SemiColon, 39, c_code)));
    assert_eq!(actual.next(), None);
}
