use monkey::lexer::Lexer;
use monkey::token::Token;

#[test]
fn lexer() {
    let input = "
        let five = 5;

        let add = fn(x, y) {
            x + y;
        };

        !-/*5;
        5 < 10 > 5;

        if (5 < 10) {
            return true;
        } else {
            return false;
        }

        10 == 10;
        10 != 9;
    ";
    let output = [
        Token::Let(String::from("let")),
        Token::Ident(String::from("five")),
        Token::Assign(String::from("=")),
        Token::Int(String::from("5")),
        Token::Semicolon(String::from(";")),

        Token::Let(String::from("let")),
        Token::Ident(String::from("add")),
        Token::Assign(String::from("=")),
        Token::Function(String::from("fn")),
        Token::Lparen(String::from("(")),
        Token::Ident(String::from("x")),
        Token::Comma(String::from(",")),
        Token::Ident(String::from("y")),
        Token::Rparen(String::from(")")),
        Token::Lbrace(String::from("{")),
        Token::Ident(String::from("x")),
        Token::Plus(String::from("+")),
        Token::Ident(String::from("y")),
        Token::Semicolon(String::from(";")),
        Token::Rbrace(String::from("}")),
        Token::Semicolon(String::from(";")),

        Token::Bang(String::from("!")),
        Token::Minus(String::from("-")),
        Token::Slash(String::from("/")),
        Token::Asterisk(String::from("*")),
        Token::Int(String::from("5")),
        Token::Semicolon(String::from(";")),
        Token::Int(String::from("5")),
        Token::LT(String::from("<")),
        Token::Int(String::from("10")),
        Token::GT(String::from(">")),
        Token::Int(String::from("5")),
        Token::Semicolon(String::from(";")),

        Token::If(String::from("if")),
        Token::Lparen(String::from("(")),
        Token::Int(String::from("5")),
        Token::LT(String::from("<")),
        Token::Int(String::from("10")),
        Token::Rparen(String::from(")")),
        Token::Lbrace(String::from("{")),
        Token::Return(String::from("return")),
        Token::True(String::from("true")),
        Token::Semicolon(String::from(";")),
        Token::Rbrace(String::from("}")),
        Token::Else(String::from("else")),
        Token::Lbrace(String::from("{")),
        Token::Return(String::from("return")),
        Token::False(String::from("false")),
        Token::Semicolon(String::from(";")),
        Token::Rbrace(String::from("}")),

        Token::Int(String::from("10")),
        Token::Eq(String::from("==")),
        Token::Int(String::from("10")),
        Token::Semicolon(String::from(";")),

        Token::Int(String::from("10")),
        Token::NotEq(String::from("!=")),
        Token::Int(String::from("9")),
        Token::Semicolon(String::from(";")),

        Token::EOF(String::from("")),
    ];
    let mut lexer = Lexer::new(input);
    for expected in output.iter() {
        let result = match lexer.next() {
            Some(result) => result,
            None => break,
        };
        println!("Lexer: {:?} - {:?}", &result, expected);
        assert_eq!(&result, expected);
    }
}
