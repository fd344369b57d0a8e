//! The parser: from tokens to an expression tree.
//!
//! The grammar, every binary level grouping to the left:
//!
//! ```text
//! expr    = term
//! term    = factor (('+' | '-') factor)*
//! factor  = power (('*' | '/') power)*
//! power   = unary ('^' unary)*
//! unary   = '-' unary | primary
//! primary = Num | '(' expr ')'
//! ```
//!
//! The parser holds one token of lookahead, so taking a token means fetching
//! the one behind it: a character that is no token fails the parse as soon as
//! the token in front of it is taken.

use crate::ast::{binary, negation, Operation, AST};
use crate::lexer::{blank_run, is_whitespace, lemma_lex_consumes, lex, Tokenizer};
use crate::number::MINUS_ONE_BITS;
use crate::token::{LexError, MathOp, Token};
use vstd::prelude::*;

verus! {

/// Why no tree could be built.
#[derive(Debug, Copy, Clone, PartialEq, Eq)]
pub enum ParseError {
    /// The lexer failed on the token that was to be fetched.
    Lex(LexError),
    /// A token that starts no primary expression.
    UnexpectedToken,
    /// The input ended where a primary expression was to start.
    UnexpectedEndOfInput,
    /// Another token, or the end of the input, where `expected` had to stand.
    ExpectedToken { expected: Token, found: Option<Token> },
}

/// The tokens that a text yields before the lexer first fails or the text
/// ends; the failure if there is one, and the text behind what it failed on.
pub struct TokenStream {
    pub tokens: Seq<Token>,
    pub fault: Option<LexError>,
    pub behind: Seq<char>,
}

/// A failed parse: why it failed, and the stream the parser is left with.
pub struct Failure {
    pub error: ParseError,
    pub rest: TokenStream,
}

impl TokenStream {
    /// The stream at the end of the input.
    pub open spec fn ended() -> TokenStream {
        TokenStream { tokens: Seq::empty(), fault: None, behind: Seq::empty() }
    }

    /// The stream with `t` in front.
    pub open spec fn prepend(self, t: Token) -> TokenStream {
        TokenStream { tokens: seq![t] + self.tokens, ..self }
    }

    /// The token in front, if any.
    pub open spec fn peek(self) -> Option<Token> {
        if self.tokens.len() > 0 {
            Some(self.tokens[0])
        } else {
            None
        }
    }

    /// The stream without its first `n` tokens.
    pub open spec fn drop(self, n: nat) -> TokenStream {
        TokenStream {
            tokens: if n <= self.tokens.len() {
                self.tokens.skip(n as int)
            } else {
                Seq::empty()
            },
            ..self
        }
    }

    /// The stream after the lexer has failed on the token behind the one in
    /// front: the token in front, then the tokens of the text behind the failure.
    pub open spec fn resumed(self) -> TokenStream {
        if self.tokens.len() > 0 {
            scan(self.behind).prepend(self.tokens[0])
        } else {
            scan(self.behind)
        }
    }

    /// Takes the token in front: the stream behind it, or the lexer's failure
    /// where the token behind it cannot be fetched.
    pub open spec fn advance(self) -> Result<TokenStream, Failure> {
        if self.tokens.len() <= 1 && self.fault is Some {
            Err(Failure { error: ParseError::Lex(self.fault.unwrap()), rest: self.resumed() })
        } else {
            Ok(self.drop(1))
        }
    }

    /// The stream of the tokens `front`, then those of `self`.
    pub open spec fn after(self, front: Seq<Token>) -> TokenStream {
        TokenStream { tokens: front + self.tokens, ..self }
    }

    /// The stream is one that a parser can stand at: where no token is ahead,
    /// the input has ended and the lexer has not failed.
    pub open spec fn settled(self) -> bool {
        self.tokens.len() == 0 ==> self.fault is None
    }

    /// The failure met on fetching the very first token, if any.
    pub open spec fn first_fault(self) -> Option<LexError> {
        if self.tokens.len() == 0 {
            self.fault
        } else {
            None
        }
    }
}

/// The stream of tokens of the text `s`.
pub open spec fn scan(s: Seq<char>) -> TokenStream
    decreases s.len(),
    via scan_decreases
{
    match lex(s).result {
        Ok(Some(t)) => scan(lex(s).rest).prepend(t),
        Ok(None) => TokenStream::ended(),
        Err(e) => TokenStream { tokens: Seq::empty(), fault: Some(e), behind: lex(s).rest },
    }
}

#[via_fn]
proof fn scan_decreases(s: Seq<char>) {
    lemma_lex_consumes(s);
}

/// A tree and the number of tokens it was built from, or the failure.
pub type Parsed = Result<(AST, nat), Failure>;

/// The number of tokens that the outcome `p` was built from; 0 for a failure.
pub open spec fn taken(p: Parsed) -> nat {
    match p {
        Ok((_, n)) => n,
        Err(_) => 0,
    }
}

/// The outcome `p`, with `k` more tokens counted.
pub open spec fn lift(p: Parsed, k: nat) -> Parsed {
    match p {
        Ok((tree, n)) => Ok((tree, n + k)),
        Err(e) => Err(e),
    }
}

/// The operator that `t` is at the binary level `level`: 1 for powers, 2 for
/// products and quotients, 3 for sums and differences.
pub open spec fn operator_at(level: nat, t: Option<Token>) -> Option<MathOp> {
    match t {
        Some(Token::Op(op)) => if level == 1 && op == MathOp::Pow {
            Some(op)
        } else if level == 2 && (op == MathOp::Mul || op == MathOp::Div) {
            Some(op)
        } else if level == 3 && (op == MathOp::Add || op == MathOp::Sub) {
            Some(op)
        } else {
            None
        },
        _ => None,
    }
}

/// `primary = Num | '(' expr ')'`.
pub open spec fn parse_primary(ts: TokenStream) -> Parsed
    decreases ts.tokens.len(), 0nat,
{
    match ts.peek() {
        None => Err(Failure { error: ParseError::UnexpectedEndOfInput, rest: ts }),
        Some(Token::Num(v)) => match ts.advance() {
            Err(e) => Err(e),
            Ok(_) => Ok((AST::Num(v), 1)),
        },
        Some(Token::BrOpen) => match ts.advance() {
            Err(e) => Err(e),
            Ok(inner) => match parse_chain(3, inner) {
                Err(e) => Err(e),
                Ok((tree, n)) => if inner.drop(n).peek() == Some(Token::BrClose) {
                    match inner.drop(n).advance() {
                        Err(e) => Err(e),
                        Ok(_) => Ok((tree, n + 2)),
                    }
                } else {
                    Err(
                        Failure {
                            error: ParseError::ExpectedToken {
                                expected: Token::BrClose,
                                found: inner.drop(n).peek(),
                            },
                            rest: inner.drop(n),
                        },
                    )
                },
            },
        },
        Some(_) => Err(Failure { error: ParseError::UnexpectedToken, rest: ts }),
    }
}

/// `unary = '-' unary | primary`.
pub open spec fn parse_unary(ts: TokenStream) -> Parsed
    decreases ts.tokens.len(), 1nat,
{
    if ts.peek() == Some(Token::Op(MathOp::Sub)) {
        match ts.advance() {
            Err(e) => Err(e),
            Ok(rest) => match parse_unary(rest) {
                Err(e) => Err(e),
                Ok((operand, n)) => Ok((negation(operand), n + 1)),
            },
        }
    } else {
        parse_primary(ts)
    }
}

/// The binary level `level`: an operand of the level below, then as many
/// operators of this level, each with one more operand, as follow.
pub open spec fn parse_chain(level: nat, ts: TokenStream) -> Parsed
    decreases ts.tokens.len(), 2 * level + 2,
{
    if level == 0 {
        parse_unary(ts)
    } else {
        match parse_chain((level - 1) as nat, ts) {
            Err(e) => Err(e),
            Ok((first, n)) => lift(chain_tail(level, first, ts.drop(n)), n),
        }
    }
}

/// The rest of a binary level, `acc` being the tree of what was read of it.
pub open spec fn chain_tail(level: nat, acc: AST, ts: TokenStream) -> Parsed
    decreases ts.tokens.len(), 2 * level + 1,
{
    if level == 0 {
        Ok((acc, 0))
    } else {
        match operator_at(level, ts.peek()) {
            None => Ok((acc, 0)),
            Some(op) => match ts.advance() {
                Err(e) => Err(e),
                Ok(rest) => match parse_chain((level - 1) as nat, rest) {
                    Err(e) => Err(e),
                    Ok((rhs, n)) => lift(
                        chain_tail(level, binary(op, acc, rhs), rest.drop(n)),
                        n + 1,
                    ),
                },
            },
        }
    }
}

/// `expr = term`.
pub open spec fn parse_expr(ts: TokenStream) -> Parsed {
    parse_chain(3, ts)
}

/// What a parsing function owes: on success the tree of `expected` and the
/// stream without the tokens it was built from, on failure the error of
/// `expected` and the stream it names.
pub open spec fn agrees(
    before: TokenStream,
    after: TokenStream,
    got: Result<AST, ParseError>,
    expected: Parsed,
) -> bool {
    match expected {
        Ok((tree, n)) => got == Ok::<AST, ParseError>(tree) && after == before.drop(n),
        Err(f) => got == Err::<AST, ParseError>(f.error) && after == f.rest,
    }
}

pub proof fn lemma_drop_twice(ts: TokenStream, a: nat, b: nat)
    ensures
        ts.drop(a).drop(b) == ts.drop(a + b),
{
    assert(ts.drop(a).drop(b).tokens =~= ts.drop(a + b).tokens);
}

/// A recursive-descent parser with one token of lookahead.
#[derive(Debug)]
pub struct Parser {
    tokenizer: Tokenizer,
    current: Option<Token>,
}

impl View for Parser {
    type V = TokenStream;

    /// The tokens still ahead: the lookahead, then those of the unread text.
    closed spec fn view(&self) -> TokenStream {
        match self.current {
            Some(t) => scan(self.tokenizer@).prepend(t),
            None => TokenStream::ended(),
        }
    }
}

/// The operator of sums and differences that `t` is, if any.
fn additive(t: Option<Token>) -> (r: Option<MathOp>)
    ensures
        r == operator_at(3, t),
{
    match t {
        Some(Token::Op(MathOp::Add)) => Some(MathOp::Add),
        Some(Token::Op(MathOp::Sub)) => Some(MathOp::Sub),
        _ => None,
    }
}

/// The operator of products and quotients that `t` is, if any.
fn multiplicative(t: Option<Token>) -> (r: Option<MathOp>)
    ensures
        r == operator_at(2, t),
{
    match t {
        Some(Token::Op(MathOp::Mul)) => Some(MathOp::Mul),
        Some(Token::Op(MathOp::Div)) => Some(MathOp::Div),
        _ => None,
    }
}

/// The power operator, if `t` is it.
fn exponential(t: Option<Token>) -> (r: Option<MathOp>)
    ensures
        r == operator_at(1, t),
{
    match t {
        Some(Token::Op(MathOp::Pow)) => Some(MathOp::Pow),
        _ => None,
    }
}

impl Parser {
    /// A parser over the tokens of `tokenizer`, its first token fetched.
    ///
    /// Fails where the lexer fails on that token; never returns `Ok(None)`.
    pub fn new(tokenizer: Tokenizer) -> (r: Result<Option<Parser>, LexError>)
        ensures
            match scan(tokenizer@).first_fault() {
                Some(e) => r == Err::<Option<Parser>, LexError>(e),
                None => r matches Ok(Some(p)) && p@ == scan(tokenizer@),
            },
    {
        let mut tokenizer = tokenizer;
        let ghost text = tokenizer@;
        match tokenizer.next_token() {
            Err(e) => Err(e),
            Ok(current) => {
                let p = Parser { tokenizer, current };
                proof {
                    assert(p@.tokens =~= scan(text).tokens);
                }
                Ok(Some(p))
            },
        }
    }

    /// Parses one expression from the tokens ahead.
    ///
    /// Tokens behind the expression are left unread. After a failure the parser
    /// stands where it failed: at the token it could not use or, where the lexer
    /// failed, behind the text that the lexer failed on.
    pub fn parse(&mut self) -> (r: Result<AST, ParseError>)
        ensures
            agrees(old(self)@, final(self)@, r, parse_expr(old(self)@)),
        decreases old(self)@.tokens.len(), 8nat,
    {
        self.term()
    }

    fn term(&mut self) -> (r: Result<AST, ParseError>)
        ensures
            agrees(old(self)@, final(self)@, r, parse_chain(3, old(self)@)),
        decreases old(self)@.tokens.len(), 7nat,
    {
        let ghost start = self@;
        let mut expr = self.factor()?;
        let ghost mut used: nat = taken(parse_chain(2, start));
        let mut pending = additive(self.current);
        while pending.is_some()
            invariant
                start == old(self)@,
                self@ == start.drop(used),
                self@.tokens.len() <= start.tokens.len(),
                pending == operator_at(3, self@.peek()),
                parse_chain(3, start) == lift(chain_tail(3, expr, self@), used),
            decreases self@.tokens.len(),
        {
            let op = pending.unwrap();
            self.next()?;
            let ghost rest = self@;
            let rhs = self.factor()?;
            proof {
                let n = taken(parse_chain(2, rest));
                lemma_drop_twice(start, used, 1);
                lemma_drop_twice(start, used + 1, n);
                used = used + 1 + n;
            }
            expr = AST::Op(Operation { lhs: Box::new(expr), rhs: Box::new(rhs), op });
            pending = additive(self.current);
        }
        Ok(expr)
    }

    fn factor(&mut self) -> (r: Result<AST, ParseError>)
        ensures
            agrees(old(self)@, final(self)@, r, parse_chain(2, old(self)@)),
        decreases old(self)@.tokens.len(), 5nat,
    {
        let ghost start = self@;
        let mut expr = self.power()?;
        let ghost mut used: nat = taken(parse_chain(1, start));
        let mut pending = multiplicative(self.current);
        while pending.is_some()
            invariant
                start == old(self)@,
                self@ == start.drop(used),
                self@.tokens.len() <= start.tokens.len(),
                pending == operator_at(2, self@.peek()),
                parse_chain(2, start) == lift(chain_tail(2, expr, self@), used),
            decreases self@.tokens.len(),
        {
            let op = pending.unwrap();
            self.next()?;
            let ghost rest = self@;
            let rhs = self.power()?;
            proof {
                let n = taken(parse_chain(1, rest));
                lemma_drop_twice(start, used, 1);
                lemma_drop_twice(start, used + 1, n);
                used = used + 1 + n;
            }
            expr = AST::Op(Operation { lhs: Box::new(expr), rhs: Box::new(rhs), op });
            pending = multiplicative(self.current);
        }
        Ok(expr)
    }

    fn power(&mut self) -> (r: Result<AST, ParseError>)
        ensures
            agrees(old(self)@, final(self)@, r, parse_chain(1, old(self)@)),
        decreases old(self)@.tokens.len(), 3nat,
    {
        let ghost start = self@;
        proof {
            reveal_with_fuel(parse_chain, 2);
        }
        let mut expr = self.unary()?;
        let ghost mut used: nat = taken(parse_unary(start));
        let mut pending = exponential(self.current);
        while pending.is_some()
            invariant
                start == old(self)@,
                self@ == start.drop(used),
                self@.tokens.len() <= start.tokens.len(),
                pending == operator_at(1, self@.peek()),
                parse_chain(1, start) == lift(chain_tail(1, expr, self@), used),
            decreases self@.tokens.len(),
        {
            proof {
                reveal_with_fuel(parse_chain, 2);
            }
            self.next()?;
            let ghost rest = self@;
            proof {
                assert(parse_chain(0, rest) == parse_unary(rest));
            }
            let rhs = self.unary()?;
            proof {
                let n = taken(parse_unary(rest));
                lemma_drop_twice(start, used, 1);
                lemma_drop_twice(start, used + 1, n);
                used = used + 1 + n;
            }
            expr = AST::Op(Operation { lhs: Box::new(expr), rhs: Box::new(rhs), op: MathOp::Pow });
            pending = exponential(self.current);
        }
        Ok(expr)
    }

    fn unary(&mut self) -> (r: Result<AST, ParseError>)
        ensures
            agrees(old(self)@, final(self)@, r, parse_unary(old(self)@)),
        decreases old(self)@.tokens.len(), 1nat,
    {
        let ghost start = self@;
        match self.current {
            Some(Token::Op(MathOp::Sub)) => {
                self.next()?;
                let ghost rest = self@;
                let operand = self.unary()?;
                proof {
                    let n = taken(parse_unary(rest));
                    lemma_drop_twice(start, 1, n);
                }
                Ok(
                    AST::Op(
                        Operation {
                            lhs: Box::new(AST::Num(MINUS_ONE_BITS)),
                            rhs: Box::new(operand),
                            op: MathOp::Mul,
                        },
                    ),
                )
            },
            _ => self.primary(),
        }
    }

    fn primary(&mut self) -> (r: Result<AST, ParseError>)
        ensures
            agrees(old(self)@, final(self)@, r, parse_primary(old(self)@)),
        decreases old(self)@.tokens.len(), 0nat,
    {
        let ghost start = self@;
        match self.current {
            Some(Token::Num(num)) => {
                self.next()?;
                Ok(AST::Num(num))
            },
            Some(Token::BrOpen) => {
                self.next()?;
                let ghost inner = self@;
                let parsed = self.parse()?;
                let ghost n = taken(parse_chain(3, inner));
                self.expect(Token::BrClose)?;
                proof {
                    lemma_drop_twice(start, 1, n);
                    lemma_drop_twice(start, 1 + n, 1);
                }
                Ok(parsed)
            },
            Some(_) => Err(ParseError::UnexpectedToken),
            None => Err(ParseError::UnexpectedEndOfInput),
        }
    }

    /// Takes the token ahead if it is `expected`; fails, and takes nothing,
    /// if it is not.
    fn expect(&mut self, expected: Token) -> (r: Result<Token, ParseError>)
        ensures
            if old(self)@.peek() == Some(expected) {
                match old(self)@.advance() {
                    Ok(rest) => r == Ok::<Token, ParseError>(expected) && final(self)@ == rest,
                    Err(f) => r == Err::<Token, ParseError>(f.error) && final(self)@ == f.rest,
                }
            } else {
                r == Err::<Token, ParseError>(
                    ParseError::ExpectedToken { expected, found: old(self)@.peek() },
                ) && final(self)@ == old(self)@
            },
    {
        match self.current {
            Some(t) => {
                if t == expected {
                    self.next()?;
                    Ok(t)
                } else {
                    Err(ParseError::ExpectedToken { expected, found: self.current })
                }
            },
            None => Err(ParseError::ExpectedToken { expected, found: None }),
        }
    }

    /// Takes the token ahead and fetches the one behind it.
    fn next(&mut self) -> (r: Result<Option<Token>, ParseError>)
        requires
            old(self)@.tokens.len() > 0,
        ensures
            match old(self)@.advance() {
                Ok(rest) => r == Ok::<Option<Token>, ParseError>(rest.peek()) && final(self)@
                    == rest,
                Err(f) => r == Err::<Option<Token>, ParseError>(f.error) && final(self)@ == f.rest,
            },
    {
        let ghost text = self.tokenizer@;
        match self.tokenizer.next_token() {
            Err(e) => {
                proof {
                    assert(self@.tokens =~= old(self)@.resumed().tokens);
                }
                Err(ParseError::Lex(e))
            },
            Ok(fetched) => {
                self.current = fetched;
                proof {
                    assert(self@.tokens =~= old(self)@.drop(1).tokens);
                }
                Ok(fetched)
            },
        }
    }
}

/// The tree of the expression that the text `s` starts with, or why there is
/// none.
pub open spec fn source_tree(s: Seq<char>) -> Result<AST, ParseError> {
    match scan(s).first_fault() {
        Some(e) => Err(ParseError::Lex(e)),
        None => match parse_expr(scan(s)) {
            Ok((tree, _)) => Ok(tree),
            Err(f) => Err(f.error),
        },
    }
}

/// Every character of `s` is white space.
pub open spec fn is_blank(s: Seq<char>) -> bool {
    forall|i: int| 0 <= i < s.len() ==> is_whitespace(#[trigger] s[i])
}

proof fn lemma_blank_run_of_blank(s: Seq<char>)
    requires
        is_blank(s),
    ensures
        blank_run(s) == s.len(),
    decreases s.len(),
{
    if s.len() > 0 {
        assert(is_whitespace(s[0]));
        assert forall|i: int| 0 <= i < s.skip(1).len() implies is_whitespace(
            #[trigger] s.skip(1)[i],
        ) by {
            assert(s.skip(1)[i] == s[i + 1]);
        }
        lemma_blank_run_of_blank(s.skip(1));
    }
}

/// A text of white space only, and the empty text, hold no expression: the
/// input ends where one was to start.
pub proof fn lemma_blank_source(s: Seq<char>)
    requires
        is_blank(s),
    ensures
        source_tree(s) == Err::<AST, ParseError>(ParseError::UnexpectedEndOfInput),
{
    lemma_blank_run_of_blank(s);
    assert(lex(s).result == Ok::<Option<Token>, LexError>(None));
    assert(scan(s) == TokenStream::ended());
    reveal_with_fuel(parse_chain, 5);
}

/// Parses the expression that `source` starts with.
pub fn parse_source(source: &str) -> (r: Result<AST, ParseError>)
    ensures
        r == source_tree(source@),
        is_blank(source@) ==> r == Err::<AST, ParseError>(ParseError::UnexpectedEndOfInput),
{
    proof {
        if is_blank(source@) {
            lemma_blank_source(source@);
        }
    }
    let tokenizer = Tokenizer::new(source);
    match Parser::new(tokenizer) {
        Err(e) => Err(ParseError::Lex(e)),
        Ok(None) => Err(ParseError::UnexpectedEndOfInput),
        Ok(Some(parser)) => {
            let mut parser = parser;
            parser.parse()
        },
    }
}

} // verus!
