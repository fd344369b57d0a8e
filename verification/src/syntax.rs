//! The sentences of the grammar, and that the parser reads each as its tree.
//!
//! A `Syntax` is an expression as it is written: with its brackets and its
//! minus signs in front. It is well formed where every left operand is of its
//! operator's level or a tighter one and every right operand of a tighter one,
//! which is what the grammar asks. Such a sentence has its tokens and its tree,
//! in which operators of one level group to the left. What is proved: the
//! parser, given the tokens of a well-formed sentence, takes exactly those and
//! builds the sentence's tree; and every tree is the tree of a sentence.

use crate::ast::{binary, negation, AST};
use crate::parser::{
    chain_tail, lift, operator_at, parse_chain, parse_expr, parse_primary, parse_unary, scan,
    source_tree, Failure, ParseError, TokenStream,
};
use crate::token::{MathOp, Token};
use vstd::prelude::*;

verus! {

/// An expression as written.
pub enum Syntax {
    /// A number.
    Number(u64),
    /// An expression in brackets.
    Bracket(Box<Syntax>),
    /// An expression with a minus sign in front.
    Minus(Box<Syntax>),
    /// Two expressions with an operator between them.
    Binary(MathOp, Box<Syntax>, Box<Syntax>),
}

/// The binary level of an operator: 1 for a power, 2 for a product or a
/// quotient, 3 for a sum or a difference.
pub open spec fn op_level(op: MathOp) -> nat {
    match op {
        MathOp::Pow => 1,
        MathOp::Mul | MathOp::Div => 2,
        MathOp::Add | MathOp::Sub => 3,
    }
}

impl Syntax {
    /// The binary level of the sentence: that of its operator, 0 where it is
    /// a number, in brackets or behind a minus sign.
    pub open spec fn level(self) -> nat {
        match self {
            Syntax::Binary(op, _, _) => op_level(op),
            _ => 0,
        }
    }

    /// The sentence is one of the grammar: a minus sign stands in front of a
    /// sentence of level 0, a left operand is of its operator's level at most,
    /// a right operand of a tighter level.
    pub open spec fn well_formed(self) -> bool
        decreases self,
    {
        match self {
            Syntax::Number(_) => true,
            Syntax::Bracket(inner) => inner.well_formed(),
            Syntax::Minus(inner) => inner.well_formed() && inner.level() == 0,
            Syntax::Binary(op, lhs, rhs) => {
                &&& lhs.well_formed()
                &&& rhs.well_formed()
                &&& lhs.level() <= op_level(op)
                &&& rhs.level() < op_level(op)
            },
        }
    }

    /// The tokens of the sentence.
    pub open spec fn tokens(self) -> Seq<Token>
        decreases self,
    {
        match self {
            Syntax::Number(v) => seq![Token::Num(v)],
            Syntax::Bracket(inner) => seq![Token::BrOpen] + inner.tokens() + seq![Token::BrClose],
            Syntax::Minus(inner) => seq![Token::Op(MathOp::Sub)] + inner.tokens(),
            Syntax::Binary(op, lhs, rhs) => lhs.tokens() + seq![Token::Op(op)] + rhs.tokens(),
        }
    }

    /// The tree of the sentence: brackets leave no trace, and a minus sign in
    /// front is the product with -1.
    pub open spec fn tree(self) -> AST
        decreases self,
    {
        match self {
            Syntax::Number(v) => AST::Num(v),
            Syntax::Bracket(inner) => inner.tree(),
            Syntax::Minus(inner) => negation(inner.tree()),
            Syntax::Binary(op, lhs, rhs) => binary(op, lhs.tree(), rhs.tree()),
        }
    }
}

/// The binary level of a tree's root; 0 for a number.
pub open spec fn level_of(tree: AST) -> nat {
    match tree {
        AST::Num(_) => 0,
        AST::Op(o) => op_level(o.op),
    }
}

/// The sentence that spells `tree` where the grammar reads the binary level
/// `level`, with brackets only where they are needed: a number as itself; an
/// operation of that level or a tighter one as its left operand at its own
/// level, its operator, and its right operand one level tighter; any other
/// operation in brackets.
pub open spec fn spelling(level: nat, tree: AST) -> Syntax
    decreases tree, (if level_of(tree) <= level {
            0nat
        } else {
            1nat
        }),
{
    match tree {
        AST::Num(v) => Syntax::Number(v),
        AST::Op(o) => if op_level(o.op) <= level {
            Syntax::Binary(
                o.op,
                Box::new(spelling(op_level(o.op), *o.lhs)),
                Box::new(spelling((op_level(o.op) - 1) as nat, *o.rhs)),
            )
        } else {
            Syntax::Bracket(Box::new(spelling(3, tree)))
        },
    }
}

/// No operator of a level up to `below` stands at the front of `ts`.
pub open spec fn stops(ts: TokenStream, below: nat) -> bool {
    match ts.peek() {
        Some(Token::Op(op)) => op_level(op) > below,
        _ => true,
    }
}

/// A sentence has a token.
pub proof fn lemma_tokens_nonempty(s: Syntax)
    ensures
        s.tokens().len() > 0,
    decreases s,
{
    match s {
        Syntax::Binary(_, lhs, _) => {
            lemma_tokens_nonempty(*lhs);
        },
        _ => {},
    }
}

proof fn lemma_after_drop(front: Seq<Token>, follow: TokenStream)
    ensures
        follow.after(front).drop(front.len()) == follow,
{
    assert(follow.after(front).drop(front.len()).tokens =~= follow.tokens);
}

proof fn lemma_after_advance(x: Token, rest: Seq<Token>, follow: TokenStream)
    requires
        rest.len() > 0 || follow.settled(),
    ensures
        follow.after(seq![x] + rest).peek() == Some(x),
        follow.after(seq![x] + rest).advance() == Ok::<TokenStream, Failure>(follow.after(rest)),
{
    let ts = follow.after(seq![x] + rest);
    assert(ts.tokens[0] == x);
    assert(ts.drop(1).tokens =~= follow.after(rest).tokens);
}

proof fn lemma_after_after(a: Seq<Token>, b: Seq<Token>, follow: TokenStream)
    ensures
        follow.after(b).after(a) == follow.after(a + b),
{
    assert(follow.after(b).after(a).tokens =~= follow.after(a + b).tokens);
}

/// Where level `from` has read `tree` from the first `n` tokens of `ts` and no
/// operator of a level below `level` follows, every level from `from` up to
/// `level` has read the same.
proof fn lemma_climb(ts: TokenStream, from: nat, level: nat, tree: AST, n: nat)
    requires
        from <= level,
        parse_chain(from, ts) == lift(chain_tail(from, tree, ts.drop(n)), n),
        level >= 1 ==> stops(ts.drop(n), (level - 1) as nat),
    ensures
        parse_chain(level, ts) == lift(chain_tail(level, tree, ts.drop(n)), n),
    decreases level - from,
{
    if from < level {
        assert(chain_tail(from, tree, ts.drop(n)) == Ok::<(AST, nat), Failure>((tree, 0)));
        assert(parse_chain(from, ts) == Ok::<(AST, nat), Failure>((tree, n)));
        assert(parse_chain(from + 1, ts) == lift(chain_tail(from + 1, tree, ts.drop(n)), n));
        lemma_climb(ts, from + 1, level, tree, n);
    }
}

/// A number is read as itself at every level.
proof fn lemma_number_reads(level: nat, v: u64, follow: TokenStream)
    requires
        follow.settled(),
        level >= 1 ==> stops(follow, (level - 1) as nat),
    ensures
        parse_chain(level, follow.after(seq![Token::Num(v)])) == lift(
            chain_tail(level, AST::Num(v), follow),
            1,
        ),
{
    let ts = follow.after(seq![Token::Num(v)]);
    lemma_after_advance(Token::Num(v), Seq::empty(), follow);
    assert(seq![Token::Num(v)] + Seq::<Token>::empty() =~= seq![Token::Num(v)]);
    lemma_after_drop(seq![Token::Num(v)], follow);
    assert(parse_primary(ts) == Ok::<(AST, nat), Failure>((AST::Num(v), 1)));
    assert(parse_unary(ts) == parse_primary(ts));
    assert(parse_chain(0, ts) == parse_unary(ts));
    assert(chain_tail(0, AST::Num(v), follow) == Ok::<(AST, nat), Failure>((AST::Num(v), 0)));
    lemma_climb(ts, 0, level, AST::Num(v), 1);
}

/// Tokens that are read as `tree` in front of a closing bracket are read as
/// `tree` at every level once they stand in brackets.
proof fn lemma_bracket_reads(level: nat, tree: AST, inner: Seq<Token>, follow: TokenStream)
    requires
        follow.settled(),
        level >= 1 ==> stops(follow, (level - 1) as nat),
        parse_chain(3, follow.after(seq![Token::BrClose]).after(inner)) == Ok::<
            (AST, nat),
            Failure,
        >((tree, inner.len())),
    ensures
        parse_chain(level, follow.after(seq![Token::BrOpen] + inner + seq![Token::BrClose]))
            == lift(chain_tail(level, tree, follow), inner.len() + 2),
{
    let spelled = seq![Token::BrOpen] + inner + seq![Token::BrClose];
    let ts = follow.after(spelled);
    let closing = follow.after(seq![Token::BrClose]);
    lemma_after_advance(Token::BrOpen, inner + seq![Token::BrClose], follow);
    assert(seq![Token::BrOpen] + (inner + seq![Token::BrClose]) =~= spelled);
    lemma_after_after(inner, seq![Token::BrClose], follow);
    lemma_after_drop(inner, closing);
    lemma_after_advance(Token::BrClose, Seq::empty(), follow);
    assert(seq![Token::BrClose] + Seq::<Token>::empty() =~= seq![Token::BrClose]);
    lemma_after_drop(spelled, follow);
    assert(ts.advance() == Ok::<TokenStream, Failure>(closing.after(inner)));
    assert(closing.after(inner).drop(inner.len()) == closing);
    assert(closing.peek() == Some(Token::BrClose));
    assert(closing.advance() is Ok);
    assert(parse_primary(ts) == Ok::<(AST, nat), Failure>((tree, inner.len() + 2)));
    assert(parse_unary(ts) == parse_primary(ts));
    assert(parse_chain(0, ts) == parse_unary(ts));
    assert(chain_tail(0, tree, follow) == Ok::<(AST, nat), Failure>((tree, 0)));
    lemma_climb(ts, 0, level, tree, spelled.len());
}

/// Tokens that are read as `lhs` at the level of `op`, an operator `op`, and
/// tokens that are read as `rhs` one level tighter are read together as
/// `lhs op rhs`.
proof fn lemma_operation_reads(
    op: MathOp,
    lhs: AST,
    rhs: AST,
    left: Seq<Token>,
    right: Seq<Token>,
    follow: TokenStream,
)
    requires
        right.len() > 0,
        parse_chain(op_level(op), follow.after(seq![Token::Op(op)] + right).after(left)) == lift(
            chain_tail(op_level(op), lhs, follow.after(seq![Token::Op(op)] + right)),
            left.len(),
        ),
        parse_chain((op_level(op) - 1) as nat, follow.after(right)) == Ok::<(AST, nat), Failure>(
            (rhs, right.len()),
        ),
    ensures
        parse_chain(op_level(op), follow.after(left + seq![Token::Op(op)] + right)) == lift(
            chain_tail(op_level(op), binary(op, lhs, rhs), follow),
            left.len() + 1 + right.len(),
        ),
{
    let k = op_level(op);
    let behind = follow.after(seq![Token::Op(op)] + right);
    lemma_after_advance(Token::Op(op), right, follow);
    lemma_after_after(left, seq![Token::Op(op)] + right, follow);
    assert(left + (seq![Token::Op(op)] + right) =~= left + seq![Token::Op(op)] + right);
    lemma_after_drop(right, follow);
    assert(operator_at(k, behind.peek()) == Some(op));
    assert(chain_tail(k, lhs, behind) == lift(
        chain_tail(k, binary(op, lhs, rhs), follow),
        right.len() + 1,
    ));
}

/// Tokens that are read as `operand` by `unary` are read as its negation,
/// at every level, once a minus sign stands in front of them.
proof fn lemma_minus_reads(level: nat, operand: AST, inner: Seq<Token>, follow: TokenStream)
    requires
        inner.len() > 0,
        level >= 1 ==> stops(follow, (level - 1) as nat),
        parse_unary(follow.after(inner)) == Ok::<(AST, nat), Failure>((operand, inner.len())),
    ensures
        parse_chain(level, follow.after(seq![Token::Op(MathOp::Sub)] + inner)) == lift(
            chain_tail(level, negation(operand), follow),
            inner.len() + 1,
        ),
{
    let spelled = seq![Token::Op(MathOp::Sub)] + inner;
    let ts = follow.after(spelled);
    lemma_after_advance(Token::Op(MathOp::Sub), inner, follow);
    lemma_after_drop(spelled, follow);
    assert(parse_unary(ts) == Ok::<(AST, nat), Failure>((negation(operand), inner.len() + 1)));
    assert(parse_chain(0, ts) == parse_unary(ts));
    assert(chain_tail(0, negation(operand), follow) == Ok::<(AST, nat), Failure>(
        (negation(operand), 0),
    ));
    lemma_climb(ts, 0, level, negation(operand), spelled.len());
}

/// Reading the tokens of a well-formed sentence at a level that is not
/// tighter than its own, in front of a stream at which no tighter level goes
/// on, yields the sentence's tree as the left operand of whatever that level
/// finds behind it.
pub proof fn lemma_chain_of_syntax(level: nat, s: Syntax, follow: TokenStream)
    requires
        s.well_formed(),
        s.level() <= level,
        follow.settled(),
        level >= 1 ==> stops(follow, (level - 1) as nat),
    ensures
        parse_chain(level, follow.after(s.tokens())) == lift(
            chain_tail(level, s.tree(), follow),
            s.tokens().len(),
        ),
    decreases s,
{
    match s {
        Syntax::Number(v) => {
            lemma_number_reads(level, v, follow);
        },
        Syntax::Bracket(inner) => {
            let closing = follow.after(seq![Token::BrClose]);
            assert(closing.tokens[0] == Token::BrClose);
            lemma_chain_of_syntax(3, *inner, closing);
            assert(chain_tail(3, inner.tree(), closing) == Ok::<(AST, nat), Failure>(
                (inner.tree(), 0),
            ));
            lemma_bracket_reads(level, inner.tree(), inner.tokens(), follow);
        },
        Syntax::Minus(inner) => {
            lemma_tokens_nonempty(*inner);
            lemma_chain_of_syntax(0, *inner, follow);
            let behind = follow.after(inner.tokens());
            assert(parse_chain(0, behind) == parse_unary(behind));
            assert(chain_tail(0, inner.tree(), follow) == Ok::<(AST, nat), Failure>(
                (inner.tree(), 0),
            ));
            lemma_minus_reads(level, inner.tree(), inner.tokens(), follow);
        },
        Syntax::Binary(op, lhs, rhs) => {
            let k = op_level(op);
            let left = lhs.tokens();
            let right = rhs.tokens();
            let behind = follow.after(seq![Token::Op(op)] + right);
            lemma_tokens_nonempty(*rhs);
            assert(behind.tokens[0] == Token::Op(op));
            lemma_chain_of_syntax(k, *lhs, behind);
            lemma_chain_of_syntax((k - 1) as nat, *rhs, follow);
            assert(chain_tail((k - 1) as nat, rhs.tree(), follow) == Ok::<(AST, nat), Failure>(
                (rhs.tree(), 0),
            ));
            lemma_operation_reads(op, lhs.tree(), rhs.tree(), left, right, follow);
            lemma_after_drop(s.tokens(), follow);
            lemma_climb(follow.after(s.tokens()), k, level, s.tree(), s.tokens().len());
        },
    }
}

/// The parser reads every well-formed sentence as its tree, whatever but an
/// operator follows: it takes exactly the sentence's tokens and builds the
/// tree in which operators of one level group to the left and tighter levels
/// bind first.
pub proof fn lemma_parse_of_syntax(s: Syntax, follow: TokenStream)
    requires
        s.well_formed(),
        follow.settled(),
        !(follow.peek() matches Some(Token::Op(_))),
    ensures
        parse_expr(follow.after(s.tokens())) == Ok::<(AST, nat), Failure>(
            (s.tree(), s.tokens().len()),
        ),
{
    lemma_chain_of_syntax(3, s, follow);
}

/// A text whose tokens are those of a well-formed sentence, and no more,
/// holds the sentence's tree.
pub proof fn lemma_source_of_syntax(text: Seq<char>, s: Syntax)
    requires
        s.well_formed(),
        scan(text) == TokenStream::ended().after(s.tokens()),
    ensures
        source_tree(text) == Ok::<AST, ParseError>(s.tree()),
{
    lemma_parse_of_syntax(s, TokenStream::ended());
    lemma_tokens_nonempty(s);
}

/// Every tree is the tree of a well-formed sentence: of its spelling.
pub proof fn lemma_spelling(level: nat, tree: AST)
    ensures
        spelling(level, tree).well_formed(),
        spelling(level, tree).level() <= level,
        spelling(level, tree).tree() == tree,
    decreases tree, (if level_of(tree) <= level {
            0nat
        } else {
            1nat
        }),
{
    match tree {
        AST::Num(_) => {},
        AST::Op(o) => {
            if op_level(o.op) <= level {
                lemma_spelling(op_level(o.op), *o.lhs);
                lemma_spelling((op_level(o.op) - 1) as nat, *o.rhs);
                assert(binary(o.op, *o.lhs, *o.rhs) == tree);
            } else {
                lemma_spelling(3, tree);
            }
        },
    }
}

/// Every tree is what the parser reads from its own spelling.
pub proof fn lemma_parse_of_spelling(tree: AST, follow: TokenStream)
    requires
        follow.settled(),
        !(follow.peek() matches Some(Token::Op(_))),
    ensures
        parse_expr(follow.after(spelling(3, tree).tokens())) == Ok::<(AST, nat), Failure>(
            (tree, spelling(3, tree).tokens().len()),
        ),
{
    lemma_spelling(3, tree);
    lemma_parse_of_syntax(spelling(3, tree), follow);
}

/// `n` minus signs.
pub open spec fn minus_signs(n: nat) -> Seq<Token> {
    Seq::new(n, |i: int| Token::Op(MathOp::Sub))
}

/// The tree of `n` minus signs in front of `tree`: `n` negations, one in the
/// other.
pub open spec fn negated(n: nat, tree: AST) -> AST
    decreases n,
{
    if n == 0 {
        tree
    } else {
        negation(negated((n - 1) as nat, tree))
    }
}

/// A chain of minus signs negates as often as it is long: in front of what
/// is read as the tree `tree`, `n` minus signs are read as `n` nested negations
/// of `tree`; in front of what cannot be read, they fail as it does.
pub proof fn lemma_minus_chain(n: nat, ts: TokenStream)
    requires
        ts.settled(),
    ensures
        parse_unary(ts.after(minus_signs(n))) == match parse_unary(ts) {
            Ok((tree, k)) => Ok::<(AST, nat), Failure>((negated(n, tree), k + n)),
            Err(e) => Err(e),
        },
    decreases n,
{
    if n == 0 {
        assert(ts.after(minus_signs(0)).tokens =~= ts.tokens);
    } else {
        let shorter = minus_signs((n - 1) as nat);
        assert(minus_signs(n) =~= seq![Token::Op(MathOp::Sub)] + shorter);
        lemma_after_advance(Token::Op(MathOp::Sub), shorter, ts);
        lemma_minus_chain((n - 1) as nat, ts);
    }
}

} // verus!
