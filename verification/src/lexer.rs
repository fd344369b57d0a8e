//! The lexer: from characters to tokens, one token at a time.

use crate::number::{
    is_decimal_digit, is_digit, is_literal, literal_bits, parse_literal, PI_BITS,
};
use crate::token::{LexError, MathOp, Token};
use vstd::prelude::*;
use vstd::std_specs::iter::IteratorSpec;

verus! {

/// White space: the characters with the Unicode property `White_Space`.
pub open spec fn is_whitespace(c: char) -> bool {
    let u = c as u32;
    ||| 0x09 <= u <= 0x0d
    ||| u == 0x20
    ||| u == 0x85
    ||| u == 0xa0
    ||| u == 0x1680
    ||| 0x2000 <= u <= 0x200a
    ||| u == 0x2028
    ||| u == 0x2029
    ||| u == 0x202f
    ||| u == 0x205f
    ||| u == 0x3000
}

/// The token that the single character `c` spells, if it spells one: a
/// bracket, an operator, or the letter pi for the circle constant.
pub open spec fn symbol_token(c: char) -> Option<Token> {
    if c == '(' {
        Some(Token::BrOpen)
    } else if c == ')' {
        Some(Token::BrClose)
    } else if c == '^' {
        Some(Token::Op(MathOp::Pow))
    } else if c == '+' {
        Some(Token::Op(MathOp::Add))
    } else if c == '-' {
        Some(Token::Op(MathOp::Sub))
    } else if c == '*' {
        Some(Token::Op(MathOp::Mul))
    } else if c == '/' {
        Some(Token::Op(MathOp::Div))
    } else if c == '\u{3c0}' {
        Some(Token::Num(PI_BITS))
    } else {
        None
    }
}

/// A character of a number literal: a digit or a decimal point.
pub open spec fn is_literal_char(c: char) -> bool {
    is_digit(c) || c == '.'
}

/// How many white-space characters `s` starts with.
pub open spec fn blank_run(s: Seq<char>) -> nat
    decreases s.len(),
{
    if s.len() > 0 && is_whitespace(s[0]) {
        1 + blank_run(s.skip(1))
    } else {
        0
    }
}

/// How many digits and decimal points `s` starts with.
pub open spec fn literal_run(s: Seq<char>) -> nat
    decreases s.len(),
{
    if s.len() > 0 && is_literal_char(s[0]) {
        1 + literal_run(s.skip(1))
    } else {
        0
    }
}

/// One step of the lexer: what it yields, and the characters it leaves.
pub struct Lexed {
    pub result: Result<Option<Token>, LexError>,
    pub rest: Seq<char>,
}

/// What the first token of `s` is.
///
/// White space in front is passed over. At the end of the input there is no
/// token. A bracket, an operator and the letter pi are one character each. A
/// digit or a decimal point starts a number, which takes every digit and decimal
/// point that follows and must then be a decimal literal. Any other character is
/// an error, and is consumed.
pub open spec fn lex(s: Seq<char>) -> Lexed {
    let t = s.skip(blank_run(s) as int);
    if t.len() == 0 {
        Lexed { result: Ok(None), rest: t }
    } else if symbol_token(t[0]) is Some {
        Lexed { result: Ok(symbol_token(t[0])), rest: t.skip(1) }
    } else if is_literal_char(t[0]) {
        let text = t.take(literal_run(t) as int);
        Lexed {
            result: if is_literal(text) {
                Ok(Some(Token::Num(literal_bits(text))))
            } else {
                Err(LexError::InvalidNumberLiteral)
            },
            rest: t.skip(literal_run(t) as int),
        }
    } else {
        Lexed { result: Err(LexError::UnexpectedCharacter), rest: t.skip(1) }
    }
}

pub proof fn lemma_blank_run_bound(s: Seq<char>)
    ensures
        blank_run(s) <= s.len(),
    decreases s.len(),
{
    if s.len() > 0 && is_whitespace(s[0]) {
        lemma_blank_run_bound(s.skip(1));
    }
}

pub proof fn lemma_literal_run_bound(s: Seq<char>)
    ensures
        literal_run(s) <= s.len(),
        s.len() > 0 && is_literal_char(s[0]) ==> literal_run(s) >= 1,
    decreases s.len(),
{
    if s.len() > 0 && is_literal_char(s[0]) {
        lemma_literal_run_bound(s.skip(1));
    }
}

/// A step of the lexer leaves a suffix of its input, and a shorter one where
/// it yields a token or an error.
pub proof fn lemma_lex_consumes(s: Seq<char>)
    ensures
        lex(s).rest.len() <= s.len(),
        lex(s).rest == s.skip(s.len() - lex(s).rest.len()),
        !(lex(s).result matches Ok(None)) ==> lex(s).rest.len() < s.len(),
{
    lemma_blank_run_bound(s);
    let t = s.skip(blank_run(s) as int);
    lemma_literal_run_bound(t);
    assert(lex(s).rest =~= s.skip(s.len() - lex(s).rest.len()));
}

/// Whether `c` is white space.
pub fn is_whitespace_char(c: char) -> (r: bool)
    ensures
        r == is_whitespace(c),
{
    let u = c as u32;
    (0x09 <= u && u <= 0x0d) || u == 0x20 || u == 0x85 || u == 0xa0 || u == 0x1680 || (0x2000 <= u
        && u <= 0x200a) || u == 0x2028 || u == 0x2029 || u == 0x202f || u == 0x205f || u == 0x3000
}

/// The token that the character `c` alone spells, if any.
pub fn symbol(c: char) -> (r: Option<Token>)
    ensures
        r == symbol_token(c),
{
    if c == '(' {
        Some(Token::BrOpen)
    } else if c == ')' {
        Some(Token::BrClose)
    } else if c == '^' {
        Some(Token::Op(MathOp::Pow))
    } else if c == '+' {
        Some(Token::Op(MathOp::Add))
    } else if c == '-' {
        Some(Token::Op(MathOp::Sub))
    } else if c == '*' {
        Some(Token::Op(MathOp::Mul))
    } else if c == '/' {
        Some(Token::Op(MathOp::Div))
    } else if c == '\u{3c0}' {
        Some(Token::Num(PI_BITS))
    } else {
        None
    }
}

/// A lexer over the characters of one source text.
#[derive(Debug)]
pub struct Tokenizer {
    chars: Vec<char>,
    pos: usize,
}

impl View for Tokenizer {
    type V = Seq<char>;

    /// The characters not yet consumed.
    closed spec fn view(&self) -> Seq<char> {
        if self.pos <= self.chars.len() {
            self.chars@.skip(self.pos as int)
        } else {
            Seq::empty()
        }
    }
}

impl Tokenizer {
    /// A lexer at the start of `source`.
    pub fn new(source: &str) -> (t: Self)
        ensures
            t@ == source@,
    {
        let mut chars: Vec<char> = Vec::new();
        let mut it = source.chars();
        proof {
            broadcast use vstd::string::group_string_axioms;
        }
        loop
            invariant
                it.obeys_prophetic_iter_laws(),
                it.decrease() is Some,
                chars@ + it.remaining() == source@,
            ensures
                chars@ == source@,
            decreases it.decrease().unwrap(),
        {
            proof {
                broadcast use vstd::string::group_string_axioms;
            }
            let ghost before = it.remaining();
            match it.next() {
                Some(c) => {
                    let ghost gathered = chars@;
                    chars.push(c);
                    proof {
                        assert(chars@ + it.remaining() =~= gathered + before);
                    }
                },
                None => {
                    proof {
                        assert(chars@ + it.remaining() =~= chars@);
                    }
                    break ;
                },
            }
        }
        proof {
            assert(chars@.skip(0) =~= chars@);
        }
        Tokenizer { chars, pos: 0 }
    }

    /// Reads the next token; `Ok(None)` at the end of the input.
    pub fn next_token(&mut self) -> (r: Result<Option<Token>, LexError>)
        ensures
            r == lex(old(self)@).result,
            final(self)@ == lex(old(self)@).rest,
    {
        let n = self.chars.len();
        let ghost start = self@;
        proof {
            lemma_blank_run_bound(start);
        }
        while self.pos < n && is_whitespace_char(self.chars[self.pos])
            invariant
                n == self.chars.len(),
                self.chars == old(self).chars,
                blank_run(start) <= start.len(),
                start.skip(blank_run(start) as int) == self@.skip(blank_run(self@) as int),
            decreases n - self.pos,
        {
            let ghost before = self@;
            self.pos += 1;
            proof {
                assert(before.skip(1) =~= self@);
                lemma_blank_run_bound(self@);
                assert(before.skip(blank_run(before) as int) =~= self@.skip(blank_run(self@) as int));
            }
        }
        let ghost t = self@;
        proof {
            assert(blank_run(t) == 0);
            assert(t.skip(0) =~= t);
        }
        if self.pos >= n {
            return Ok(None);
        }
        let c = self.chars[self.pos];
        let found = symbol(c);
        if found.is_some() {
            self.pos += 1;
            proof {
                assert(self@ =~= t.skip(1));
            }
            return Ok(found);
        }
        if !(is_decimal_digit(c) || c == '.') {
            self.pos += 1;
            proof {
                assert(self@ =~= t.skip(1));
            }
            return Err(LexError::UnexpectedCharacter);
        }
        let from = self.pos;
        proof {
            lemma_literal_run_bound(t);
        }
        while self.pos < n && (is_decimal_digit(self.chars[self.pos]) || self.chars[self.pos]
            == '.')
            invariant
                n == self.chars.len(),
                self.chars == old(self).chars,
                from <= self.pos <= n,
                t == self.chars@.skip(from as int),
                literal_run(t) == (self.pos - from) + literal_run(self@),
            decreases n - self.pos,
        {
            let ghost before = self@;
            self.pos += 1;
            proof {
                assert(before.skip(1) =~= self@);
            }
        }
        proof {
            assert(literal_run(self@) == 0);
            assert(self.chars@.subrange(from as int, self.pos as int) =~= t.take(
                literal_run(t) as int,
            ));
            assert(self@ =~= t.skip(literal_run(t) as int));
        }
        match parse_literal(&self.chars, from, self.pos) {
            Some(bits) => Ok(Some(Token::Num(bits))),
            None => Err(LexError::InvalidNumberLiteral),
        }
    }
}

} // verus!
