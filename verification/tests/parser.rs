use jit_calc::ast::{Operation, AST};
use jit_calc::lexer::Tokenizer;
use jit_calc::number::MINUS_ONE_BITS;
use jit_calc::parser::{parse_source, ParseError, Parser};
use jit_calc::token::{LexError, MathOp, Token};

fn num(value: f64) -> AST {
    AST::Num(value.to_bits())
}

fn op(op: MathOp, lhs: AST, rhs: AST) -> AST {
    AST::Op(Operation { lhs: Box::new(lhs), rhs: Box::new(rhs), op })
}

fn neg(operand: AST) -> AST {
    op(MathOp::Mul, AST::Num(MINUS_ONE_BITS), operand)
}

fn parse(source: &str) -> Result<AST, ParseError> {
    let mut parser = Parser::new(Tokenizer::new(source)).unwrap().unwrap();
    parser.parse()
}

/// The value of a tree, computed directly on doubles.
fn eval(tree: &AST) -> f64 {
    match tree {
        AST::Num(bits) => f64::from_bits(*bits),
        AST::Op(o) => {
            let (l, r) = (eval(&o.lhs), eval(&o.rhs));
            match o.op {
                MathOp::Add => l + r,
                MathOp::Sub => l - r,
                MathOp::Mul => l * r,
                MathOp::Div => l / r,
                MathOp::Pow => l.powf(r),
            }
        }
    }
}

fn value_of(source: &str) -> f64 {
    eval(&parse(source).unwrap())
}

#[test]
fn a_number_is_a_leaf() {
    assert_eq!(parse("42"), Ok(num(42.0)));
    assert_eq!(parse("(42)"), Ok(num(42.0)));
    assert_eq!(parse("((42))"), Ok(num(42.0)));
}

#[test]
fn product_binds_tighter_than_sum() {
    assert_eq!(
        parse("3 + 4 * 2"),
        Ok(op(MathOp::Add, num(3.0), op(MathOp::Mul, num(4.0), num(2.0))))
    );
    assert_eq!(
        parse("3 * 4 + 2"),
        Ok(op(MathOp::Add, op(MathOp::Mul, num(3.0), num(4.0)), num(2.0)))
    );
}

#[test]
fn power_binds_tighter_than_product() {
    assert_eq!(
        parse("2 * 3 ^ 4"),
        Ok(op(MathOp::Mul, num(2.0), op(MathOp::Pow, num(3.0), num(4.0))))
    );
}

#[test]
fn brackets_group() {
    assert_eq!(
        parse("(3 + 4) * 2"),
        Ok(op(MathOp::Mul, op(MathOp::Add, num(3.0), num(4.0)), num(2.0)))
    );
    assert_eq!(
        parse("2 * (3 + 4)"),
        Ok(op(MathOp::Mul, num(2.0), op(MathOp::Add, num(3.0), num(4.0))))
    );
}

#[test]
fn sums_group_to_the_left() {
    assert_eq!(
        parse("1 - 2 - 3"),
        Ok(op(MathOp::Sub, op(MathOp::Sub, num(1.0), num(2.0)), num(3.0)))
    );
    assert_eq!(
        parse("1 - 2 + 3"),
        Ok(op(MathOp::Add, op(MathOp::Sub, num(1.0), num(2.0)), num(3.0)))
    );
}

#[test]
fn products_group_to_the_left() {
    assert_eq!(
        parse("8 / 4 / 2"),
        Ok(op(MathOp::Div, op(MathOp::Div, num(8.0), num(4.0)), num(2.0)))
    );
    assert_eq!(
        parse("8 / 4 * 2"),
        Ok(op(MathOp::Mul, op(MathOp::Div, num(8.0), num(4.0)), num(2.0)))
    );
}

#[test]
fn powers_group_to_the_left() {
    assert_eq!(
        parse("2^3^2"),
        Ok(op(MathOp::Pow, op(MathOp::Pow, num(2.0), num(3.0)), num(2.0)))
    );
    assert_eq!(value_of("2^3^2"), 64.0);
}

#[test]
fn minus_in_front_is_a_product_with_minus_one() {
    assert_eq!(parse("-5"), Ok(neg(num(5.0))));
    assert_eq!(parse("--5"), Ok(neg(neg(num(5.0)))));
    assert_eq!(parse("---5"), Ok(neg(neg(neg(num(5.0))))));
    assert_eq!(parse("-(2+3)"), Ok(neg(op(MathOp::Add, num(2.0), num(3.0)))));
}

#[test]
fn minus_in_front_binds_tighter_than_any_operator() {
    assert_eq!(parse("-5 + 3"), Ok(op(MathOp::Add, neg(num(5.0)), num(3.0))));
    assert_eq!(parse("-2 ^ 2"), Ok(op(MathOp::Pow, neg(num(2.0)), num(2.0))));
    assert_eq!(parse("2 - -3"), Ok(op(MathOp::Sub, num(2.0), neg(num(3.0)))));
    assert_eq!(parse("2 * -3"), Ok(op(MathOp::Mul, num(2.0), neg(num(3.0)))));
    assert_eq!(parse("2 ^ -3"), Ok(op(MathOp::Pow, num(2.0), neg(num(3.0)))));
}

#[test]
fn minus_chains_evaluate() {
    assert_eq!(value_of("--5"), 5.0);
    assert_eq!(value_of("-(2+3)"), -5.0);
    assert_eq!(value_of("---5"), -5.0);
}

#[test]
fn example_values() {
    assert_eq!(value_of("3 + 4 * 2"), 11.0);
    assert_eq!(value_of("(3 + 4) * 2"), 14.0);
    assert_eq!(value_of("10 / 2 - 3"), 2.0);
    assert_eq!(value_of("-5 + 3"), -2.0);
}

#[test]
fn pi_alone_is_pi() {
    assert_eq!(value_of("\u{3c0}"), std::f64::consts::PI);
    assert_eq!(value_of("2 * \u{3c0}"), 2.0 * std::f64::consts::PI);
}

#[test]
fn empty_input_ends_too_early() {
    assert_eq!(parse(""), Err(ParseError::UnexpectedEndOfInput));
    assert_eq!(parse_source(""), Err(ParseError::UnexpectedEndOfInput));
}

#[test]
fn white_space_ends_too_early() {
    for source in [" ", "   ", "\t", "\n", " \t\r\n ", "\u{a0}", "\u{2000}\u{3000}"] {
        assert_eq!(parse(source), Err(ParseError::UnexpectedEndOfInput), "{source:?}");
        assert_eq!(parse_source(source), Err(ParseError::UnexpectedEndOfInput), "{source:?}");
    }
}

#[test]
fn the_parser_exists_on_empty_input() {
    assert!(matches!(Parser::new(Tokenizer::new("")), Ok(Some(_))));
    assert!(matches!(Parser::new(Tokenizer::new("1")), Ok(Some(_))));
}

#[test]
fn missing_operand_ends_too_early() {
    assert_eq!(parse("1 +"), Err(ParseError::UnexpectedEndOfInput));
    assert_eq!(parse("1 + 2 *"), Err(ParseError::UnexpectedEndOfInput));
    assert_eq!(parse("-"), Err(ParseError::UnexpectedEndOfInput));
    assert_eq!(parse("("), Err(ParseError::UnexpectedEndOfInput));
    assert_eq!(parse("2 ^"), Err(ParseError::UnexpectedEndOfInput));
}

#[test]
fn missing_close_bracket() {
    assert_eq!(
        parse("(1 + 2"),
        Err(ParseError::ExpectedToken { expected: Token::BrClose, found: None })
    );
    assert_eq!(
        parse("(1 2"),
        Err(ParseError::ExpectedToken {
            expected: Token::BrClose,
            found: Some(Token::Num(2.0f64.to_bits()))
        })
    );
    assert_eq!(
        parse("((1)"),
        Err(ParseError::ExpectedToken { expected: Token::BrClose, found: None })
    );
    assert_eq!(
        parse("(1 ("),
        Err(ParseError::ExpectedToken { expected: Token::BrClose, found: Some(Token::BrOpen) })
    );
}

#[test]
fn a_token_that_starts_no_expression() {
    assert_eq!(parse("+"), Err(ParseError::UnexpectedToken));
    assert_eq!(parse(")"), Err(ParseError::UnexpectedToken));
    assert_eq!(parse("* 2"), Err(ParseError::UnexpectedToken));
    assert_eq!(parse("1 + * 2"), Err(ParseError::UnexpectedToken));
    assert_eq!(parse("(+"), Err(ParseError::UnexpectedToken));
    assert_eq!(parse("()"), Err(ParseError::UnexpectedToken));
    assert_eq!(parse("1 + )"), Err(ParseError::UnexpectedToken));
}

#[test]
fn a_bad_number_fails_the_parse() {
    assert!(matches!(
        Parser::new(Tokenizer::new("1.2.3")),
        Err(LexError::InvalidNumberLiteral)
    ));
    assert_eq!(parse_source("1.2.3"), Err(ParseError::Lex(LexError::InvalidNumberLiteral)));
    assert_eq!(parse("1 + 1.2.3"), Err(ParseError::Lex(LexError::InvalidNumberLiteral)));
    assert_eq!(parse("(1..)"), Err(ParseError::Lex(LexError::InvalidNumberLiteral)));
}

#[test]
fn a_bad_character_fails_the_parse() {
    assert!(matches!(Parser::new(Tokenizer::new("x")), Err(LexError::UnexpectedCharacter)));
    assert_eq!(parse_source("x"), Err(ParseError::Lex(LexError::UnexpectedCharacter)));
    assert_eq!(parse("1 + x"), Err(ParseError::Lex(LexError::UnexpectedCharacter)));
    // the token behind a number is fetched when the number is taken
    assert_eq!(parse("1 x"), Err(ParseError::Lex(LexError::UnexpectedCharacter)));
    assert_eq!(parse("(1) x"), Err(ParseError::Lex(LexError::UnexpectedCharacter)));
}

#[test]
fn tokens_behind_the_expression_are_left() {
    assert_eq!(parse("1 )"), Ok(num(1.0)));
    assert_eq!(parse("1 2"), Ok(num(1.0)));
    assert_eq!(parse("1 + 2 ) x"), Ok(op(MathOp::Add, num(1.0), num(2.0))));
    let mut parser = Parser::new(Tokenizer::new("1 2 + 3")).unwrap().unwrap();
    assert_eq!(parser.parse(), Ok(num(1.0)));
    assert_eq!(parser.parse(), Ok(op(MathOp::Add, num(2.0), num(3.0))));
    assert_eq!(parser.parse(), Err(ParseError::UnexpectedEndOfInput));
}

#[test]
fn parse_source_parses() {
    assert_eq!(
        parse_source("10 / 2 - 3"),
        Ok(op(MathOp::Sub, op(MathOp::Div, num(10.0), num(2.0)), num(3.0)))
    );
    assert_eq!(
        parse_source("(1 + 2"),
        Err(ParseError::ExpectedToken { expected: Token::BrClose, found: None })
    );
}

#[test]
fn deep_nesting() {
    let source = format!("{}1{}", "(".repeat(200), ")".repeat(200));
    assert_eq!(parse(&source), Ok(num(1.0)));
    let source = format!("{}1", "-".repeat(201));
    assert_eq!(value_of(&source), -1.0);
}

fn level(op: MathOp) -> u8 {
    match op {
        MathOp::Pow => 1,
        MathOp::Mul | MathOp::Div => 2,
        MathOp::Add | MathOp::Sub => 3,
    }
}

/// The text of a tree, with brackets only where the grammar needs them.
fn spell(at: u8, tree: &AST, text: &mut String) {
    match tree {
        AST::Num(bits) => text.push_str(&format!("{}", f64::from_bits(*bits))),
        AST::Op(o) if level(o.op) <= at => {
            spell(level(o.op), &o.lhs, text);
            text.push(match o.op {
                MathOp::Add => '+',
                MathOp::Sub => '-',
                MathOp::Mul => '*',
                MathOp::Div => '/',
                MathOp::Pow => '^',
            });
            spell(level(o.op) - 1, &o.rhs, text);
        }
        AST::Op(_) => {
            text.push('(');
            spell(3, tree, text);
            text.push(')');
        }
    }
}

fn spelled(tree: &AST) -> String {
    let mut text = String::new();
    spell(3, tree, &mut text);
    text
}

/// A tree picked by `seed`, of at most `depth` nested operations.
fn grow(seed: &mut u64, depth: u32) -> AST {
    *seed = seed.wrapping_mul(6364136223846793005).wrapping_add(1442695040888963407);
    let pick = (*seed >> 33) % 8;
    if depth == 0 || pick < 2 {
        return num(((*seed >> 40) % 100) as f64);
    }
    let operator = [MathOp::Add, MathOp::Sub, MathOp::Mul, MathOp::Div, MathOp::Pow]
        [((*seed >> 36) % 5) as usize];
    let lhs = grow(seed, depth - 1);
    let rhs = grow(seed, depth - 1);
    op(operator, lhs, rhs)
}

#[test]
fn spellings() {
    let tree = op(MathOp::Sub, op(MathOp::Sub, num(1.0), num(2.0)), num(3.0));
    assert_eq!(spelled(&tree), "1-2-3");
    let tree = op(MathOp::Sub, num(1.0), op(MathOp::Sub, num(2.0), num(3.0)));
    assert_eq!(spelled(&tree), "1-(2-3)");
    let tree = op(MathOp::Mul, op(MathOp::Add, num(1.0), num(2.0)), op(MathOp::Pow, num(3.0), num(4.0)));
    assert_eq!(spelled(&tree), "(1+2)*3^4");
    let tree = op(MathOp::Pow, op(MathOp::Pow, num(2.0), num(3.0)), op(MathOp::Pow, num(4.0), num(5.0)));
    assert_eq!(spelled(&tree), "2^3^(4^5)");
}

#[test]
fn every_tree_is_read_back_from_its_spelling() {
    let mut seed = 2024;
    for _ in 0..300 {
        let tree = grow(&mut seed, 5);
        let text = spelled(&tree);
        assert_eq!(parse_source(&text).as_ref(), Ok(&tree), "{text}");
        // and whatever but an operator may follow
        assert_eq!(parse_source(&format!("{text} )")).as_ref(), Ok(&tree), "{text}");
        assert_eq!(parse_source(&format!("{text} 7")).as_ref(), Ok(&tree), "{text}");
    }
}

#[test]
fn a_chain_of_minus_signs_negates_as_often_as_it_is_long() {
    for n in 0..20 {
        let mut expected = op(MathOp::Add, num(1.0), num(2.0));
        for _ in 0..n {
            expected = neg(expected);
        }
        let text = format!("{}(1+2)", "-".repeat(n));
        assert_eq!(parse(&text), Ok(expected), "{text}");
        assert_eq!(value_of(&text), if n % 2 == 0 { 3.0 } else { -3.0 });
        assert_eq!(parse(&"-".repeat(n)), Err(ParseError::UnexpectedEndOfInput));
        assert_eq!(parse(&format!("{}*", "-".repeat(n))), Err(ParseError::UnexpectedToken));
    }
}

/// An expression as written, with its brackets and minus signs.
enum Sentence {
    Number(u32),
    Bracket(Box<Sentence>),
    Minus(Box<Sentence>),
    Binary(MathOp, Box<Sentence>, Box<Sentence>),
}

fn step(seed: &mut u64) -> u64 {
    *seed = seed.wrapping_mul(6364136223846793005).wrapping_add(1442695040888963407);
    *seed >> 33
}

/// A sentence of the grammar of level `cap` at most, picked by `seed`.
fn sentence(seed: &mut u64, depth: u32, cap: u8) -> Sentence {
    let pick = step(seed) % 10;
    if depth == 0 || pick < 2 {
        return Sentence::Number((step(seed) % 1000) as u32);
    }
    if pick < 4 {
        return Sentence::Bracket(Box::new(sentence(seed, depth - 1, 3)));
    }
    if pick < 5 || cap == 0 {
        return Sentence::Minus(Box::new(sentence(seed, depth - 1, 0)));
    }
    let operator = loop {
        let operator = [MathOp::Add, MathOp::Sub, MathOp::Mul, MathOp::Div, MathOp::Pow]
            [(step(seed) % 5) as usize];
        if level(operator) <= cap {
            break operator;
        }
    };
    let lhs = sentence(seed, depth - 1, level(operator));
    let rhs = sentence(seed, depth - 1, level(operator) - 1);
    Sentence::Binary(operator, Box::new(lhs), Box::new(rhs))
}

fn write(s: &Sentence, text: &mut String) {
    match s {
        Sentence::Number(n) => text.push_str(&format!("{n}")),
        Sentence::Bracket(inner) => {
            text.push('(');
            write(inner, text);
            text.push(')');
        }
        Sentence::Minus(inner) => {
            text.push('-');
            write(inner, text);
        }
        Sentence::Binary(operator, lhs, rhs) => {
            write(lhs, text);
            text.push_str(match operator {
                MathOp::Add => " + ",
                MathOp::Sub => " - ",
                MathOp::Mul => " * ",
                MathOp::Div => " / ",
                MathOp::Pow => " ^ ",
            });
            write(rhs, text);
        }
    }
}

fn tree_of(s: &Sentence) -> AST {
    match s {
        Sentence::Number(n) => num(*n as f64),
        Sentence::Bracket(inner) => tree_of(inner),
        Sentence::Minus(inner) => neg(tree_of(inner)),
        Sentence::Binary(operator, lhs, rhs) => op(*operator, tree_of(lhs), tree_of(rhs)),
    }
}

#[test]
fn every_sentence_is_read_as_its_tree() {
    let mut seed = 7;
    for _ in 0..300 {
        let s = sentence(&mut seed, 6, 3);
        let mut text = String::new();
        write(&s, &mut text);
        let tree = tree_of(&s);
        assert_eq!(parse_source(&text).as_ref(), Ok(&tree), "{text}");
        assert_eq!(parse_source(&format!("({text})")).as_ref(), Ok(&tree), "{text}");
        assert_eq!(
            parse_source(&format!("({text}")),
            Err(ParseError::ExpectedToken { expected: Token::BrClose, found: None }),
            "{text}"
        );
    }
}

#[test]
fn sentences_with_brackets_to_spare() {
    assert_eq!(parse("((1)) + (2)"), Ok(op(MathOp::Add, num(1.0), num(2.0))));
    assert_eq!(parse("(1 - 2) - 3"), parse("1 - 2 - 3"));
    assert_eq!(parse("((1 * 2)) + (3)"), parse("1 * 2 + 3"));
    assert_eq!(parse("-(-(5))"), parse("--5"));
}

#[test]
fn after_a_failure_the_parser_stands_where_it_failed() {
    // at the token it could not use
    let mut parser = Parser::new(Tokenizer::new("1 + * 2")).unwrap().unwrap();
    assert_eq!(parser.parse(), Err(ParseError::UnexpectedToken));
    assert_eq!(parser.parse(), Err(ParseError::UnexpectedToken));
    let mut parser = Parser::new(Tokenizer::new("(1 2) 3")).unwrap().unwrap();
    assert_eq!(
        parser.parse(),
        Err(ParseError::ExpectedToken {
            expected: Token::BrClose,
            found: Some(Token::Num(2.0f64.to_bits()))
        })
    );
    assert_eq!(parser.parse(), Ok(num(2.0)));
    assert_eq!(parser.parse(), Err(ParseError::UnexpectedToken));
    // at the end of the input
    let mut parser = Parser::new(Tokenizer::new("1 +")).unwrap().unwrap();
    assert_eq!(parser.parse(), Err(ParseError::UnexpectedEndOfInput));
    assert_eq!(parser.parse(), Err(ParseError::UnexpectedEndOfInput));
}

#[test]
fn after_a_failure_of_the_lexer_the_parser_goes_on_behind_it() {
    // the number in front of the failure is still ahead
    let mut parser = Parser::new(Tokenizer::new("1 x 2 + 3")).unwrap().unwrap();
    assert_eq!(parser.parse(), Err(ParseError::Lex(LexError::UnexpectedCharacter)));
    assert_eq!(parser.parse(), Ok(num(1.0)));
    assert_eq!(parser.parse(), Ok(op(MathOp::Add, num(2.0), num(3.0))));
    assert_eq!(parser.parse(), Err(ParseError::UnexpectedEndOfInput));
    let mut parser = Parser::new(Tokenizer::new("(4 + 1.2.3 5")).unwrap().unwrap();
    assert_eq!(parser.parse(), Err(ParseError::Lex(LexError::InvalidNumberLiteral)));
    // the plus sign is still ahead
    assert_eq!(parser.parse(), Err(ParseError::UnexpectedToken));
}
