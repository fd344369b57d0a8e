//! The code generator: from an expression tree to x86-64 machine code.
//!
//! The code of a tree leaves the tree's value in `xmm0`. The code of an
//! operation computes its right operand first and parks it in `xmm1`, then
//! computes its left operand into `xmm0` and combines the two. Around that it
//! keeps 16 bytes of stack in which the `xmm1` it found is saved and from which
//! it is restored, so that an operation nested in a left operand does not lose
//! the right operand parked by the operation around it.
//!
//! The whole routine follows the System V calling convention for a function
//! without arguments; its result is read from `xmm0` after it returns.

use crate::ast::AST;
use crate::machine::{
    leaves_value, lemma_node_code_leaves_value, lemma_routine_code_returns_value, returns_value,
};
use crate::token::MathOp;
use vstd::pervasive::unreached;
use vstd::prelude::*;

verus! {

/// `push rbp; mov rbp, rsp`.
pub open spec fn prologue_bytes() -> Seq<u8> {
    seq![0x55u8, 0x48, 0x89, 0xe5]
}

/// `mov rsp, rbp; pop rbp; ret`.
pub open spec fn epilogue_bytes() -> Seq<u8> {
    seq![0x48u8, 0x89, 0xec, 0x5d, 0xc3]
}

/// `sub rsp, 16; movdqu [rsp], xmm1`.
pub open spec fn backup_bytes() -> Seq<u8> {
    seq![0x48u8, 0x83, 0xec, 0x10, 0xf3, 0x0f, 0x7f, 0x0c, 0x24]
}

/// `movdqu xmm1, [rsp]; add rsp, 16`.
pub open spec fn restore_bytes() -> Seq<u8> {
    seq![0xf3u8, 0x0f, 0x6f, 0x0c, 0x24, 0x48, 0x83, 0xc4, 0x10]
}

/// `movq xmm1, xmm0`.
pub open spec fn park_bytes() -> Seq<u8> {
    seq![0xf3u8, 0x0f, 0x7e, 0xc8]
}

/// The eight bytes of `value`, lowest first.
pub open spec fn le_bytes(value: u64) -> Seq<u8> {
    seq![
        (value % 0x100) as u8,
        (value / 0x100 % 0x100) as u8,
        (value / 0x1_0000 % 0x100) as u8,
        (value / 0x100_0000 % 0x100) as u8,
        (value / 0x1_0000_0000 % 0x100) as u8,
        (value / 0x100_0000_0000 % 0x100) as u8,
        (value / 0x1_0000_0000_0000 % 0x100) as u8,
        (value / 0x100_0000_0000_0000 % 0x100) as u8,
    ]
}

/// `movabs r10, value; movq xmm0, r10`.
pub open spec fn load_bytes(value: u64) -> Seq<u8> {
    seq![0x49u8, 0xba] + le_bytes(value) + seq![0x66u8, 0x49, 0x0f, 0x6e, 0xc2]
}

/// The scalar double-precision instruction of `op`, on `xmm0` and `xmm1` into
/// `xmm0`: `addsd`, `subsd`, `mulsd` or `divsd`. A power has none.
pub open spec fn arith_bytes(op: MathOp) -> Seq<u8>
    recommends
        op != MathOp::Pow,
{
    match op {
        MathOp::Add => seq![0xf2u8, 0x0f, 0x58, 0xc1],
        MathOp::Sub => seq![0xf2u8, 0x0f, 0x5c, 0xc1],
        MathOp::Mul => seq![0xf2u8, 0x0f, 0x59, 0xc1],
        MathOp::Div => seq![0xf2u8, 0x0f, 0x5e, 0xc1],
        MathOp::Pow => Seq::empty(),
    }
}

/// The code of a tree without powers: a load for a number; for an operation
/// the backup, the right operand's code, the parking of its value, the left
/// operand's code, the instruction of the operator, and the restore.
pub open spec fn node_code(tree: AST) -> Seq<u8>
    recommends
        tree.pow_free(),
    decreases tree,
{
    match tree {
        AST::Num(value) => load_bytes(value),
        AST::Op(o) => backup_bytes() + node_code(*o.rhs) + park_bytes() + node_code(*o.lhs)
            + arith_bytes(o.op) + restore_bytes(),
    }
}

/// The routine of a tree: prologue, the tree's code, epilogue.
pub open spec fn routine_code(tree: AST) -> Seq<u8>
    recommends
        tree.pow_free(),
{
    prologue_bytes() + node_code(tree) + epilogue_bytes()
}

/// The code of a tree takes 15 bytes for each number and 26 for each
/// operation.
pub proof fn lemma_node_code_len(tree: AST)
    requires
        tree.pow_free(),
    ensures
        node_code(tree).len() == 15 * tree.leaves() + 26 * tree.operations(),
        routine_code(tree).len() == 9 + 15 * tree.leaves() + 26 * tree.operations(),
    decreases tree,
{
    match tree {
        AST::Num(_) => {},
        AST::Op(o) => {
            lemma_node_code_len(*o.lhs);
            lemma_node_code_len(*o.rhs);
        },
    }
}

/// The code that opens an operation: it takes 16 bytes of stack and saves
/// `xmm1` there, for the sake of the `xmm0` that is about to be computed.
pub fn gen_backup_xmm0() -> (code: [u8; 9])
    ensures
        code@ == backup_bytes(),
{
    [
        // sub rsp, 16
        0x48,
        0x83,
        0xec,
        0x10,
        // movdqu XMMWORD PTR [rsp], xmm1
        0xf3,
        0x0f,
        0x7f,
        0x0c,
        0x24,
    ]
}

/// The code that closes an operation: it brings back the `xmm1` saved when the
/// operation was opened and gives back the 16 bytes of stack.
pub fn gen_restore_xmm0() -> (code: [u8; 9])
    ensures
        code@ == restore_bytes(),
{
    [
        // movdqu xmm1, XMMWORD PTR [rsp]
        0xf3,
        0x0f,
        0x6f,
        0x0c,
        0x24,
        // add rsp, 16
        0x48,
        0x83,
        0xc4,
        0x10,
    ]
}

/// The code that loads the number with the bit pattern `value` into `xmm0`,
/// by way of `r10`.
pub fn gen_movq_to_xmm0(value: u64) -> (code: [u8; 15])
    ensures
        code@ == load_bytes(value),
{
    proof {
        assert(value & 0xff == value % 0x100) by (bit_vector);
        assert((value >> 8) & 0xff == value / 0x100 % 0x100) by (bit_vector);
        assert((value >> 16) & 0xff == value / 0x1_0000 % 0x100) by (bit_vector);
        assert((value >> 24) & 0xff == value / 0x100_0000 % 0x100) by (bit_vector);
        assert((value >> 32) & 0xff == value / 0x1_0000_0000 % 0x100) by (bit_vector);
        assert((value >> 40) & 0xff == value / 0x100_0000_0000 % 0x100) by (bit_vector);
        assert((value >> 48) & 0xff == value / 0x1_0000_0000_0000 % 0x100) by (bit_vector);
        assert((value >> 56) & 0xff == value / 0x100_0000_0000_0000 % 0x100) by (bit_vector);
    }
    let code = [
        // movabs r10, value
        0x49,
        0xba,
        (value & 0xff) as u8,
        ((value >> 8) & 0xff) as u8,
        ((value >> 16) & 0xff) as u8,
        ((value >> 24) & 0xff) as u8,
        ((value >> 32) & 0xff) as u8,
        ((value >> 40) & 0xff) as u8,
        ((value >> 48) & 0xff) as u8,
        ((value >> 56) & 0xff) as u8,
        // movq xmm0, r10
        0x66,
        0x49,
        0x0f,
        0x6e,
        0xc2,
    ];
    proof {
        assert(code@ =~= load_bytes(value));
    }
    code
}

/// The code that parks the value of `xmm0` in `xmm1`.
pub fn gen_movq_xmm1_xmm0() -> (code: [u8; 4])
    ensures
        code@ == park_bytes(),
{
    [
        // movq xmm1, xmm0
        0xf3,
        0x0f,
        0x7e,
        0xc8,
    ]
}

/// `addsd xmm0, xmm1`.
pub fn gen_addsd() -> (code: [u8; 4])
    ensures
        code@ == arith_bytes(MathOp::Add),
{
    [0xf2, 0x0f, 0x58, 0xc1]
}

/// `subsd xmm0, xmm1`.
pub fn gen_subsd() -> (code: [u8; 4])
    ensures
        code@ == arith_bytes(MathOp::Sub),
{
    [0xf2, 0x0f, 0x5c, 0xc1]
}

/// `divsd xmm0, xmm1`.
pub fn gen_divsd() -> (code: [u8; 4])
    ensures
        code@ == arith_bytes(MathOp::Div),
{
    [0xf2, 0x0f, 0x5e, 0xc1]
}

/// `mulsd xmm0, xmm1`.
pub fn gen_mulsd() -> (code: [u8; 4])
    ensures
        code@ == arith_bytes(MathOp::Mul),
{
    [0xf2, 0x0f, 0x59, 0xc1]
}

/// Appends `bytes` to `code`.
fn emit(code: &mut Vec<u8>, bytes: &[u8])
    ensures
        final(code)@ == old(code)@ + bytes@,
{
    let n = bytes.len();
    let mut i: usize = 0;
    proof {
        assert(code@ =~= old(code)@ + bytes@.take(0));
    }
    while i < n
        invariant
            n == bytes.len(),
            i <= n,
            code@ == old(code)@ + bytes@.take(i as int),
        decreases n - i,
    {
        code.push(bytes[i]);
        i += 1;
        proof {
            assert(code@ =~= old(code)@ + bytes@.take(i as int));
        }
    }
    proof {
        assert(bytes@.take(n as int) =~= bytes@);
    }
}

/// The code of the tree `ast`, which leaves the tree's value in `xmm0`.
///
/// A power has no instruction: a tree that holds one is not accepted.
pub fn codegen_jit(ast: &AST) -> (code: Vec<u8>)
    requires
        ast.pow_free(),
    ensures
        code@ == node_code(*ast),
        leaves_value(code@, *ast),
    decreases ast,
{
    proof {
        lemma_node_code_leaves_value(*ast);
    }
    match ast {
        AST::Num(num) => {
            let mut code = Vec::new();
            emit(&mut code, gen_movq_to_xmm0(*num).as_slice());
            proof {
                assert(code@ =~= node_code(*ast));
            }
            code
        },
        AST::Op(operator) => {
            let mut code = Vec::new();
            emit(&mut code, gen_backup_xmm0().as_slice());
            let mut right = codegen_jit(&operator.rhs);
            code.append(&mut right);
            emit(&mut code, gen_movq_xmm1_xmm0().as_slice());
            let mut left = codegen_jit(&operator.lhs);
            code.append(&mut left);
            let arith = match operator.op {
                MathOp::Add => gen_addsd(),
                MathOp::Sub => gen_subsd(),
                MathOp::Mul => gen_mulsd(),
                MathOp::Div => gen_divsd(),
                MathOp::Pow => unreached(),
            };
            emit(&mut code, arith.as_slice());
            emit(&mut code, gen_restore_xmm0().as_slice());
            proof {
                assert(code@ =~= node_code(*ast));
            }
            code
        },
    }
}

/// The routine that computes the tree `ast`: callable without arguments, it
/// returns with the tree's value in `xmm0`.
pub fn jit_compile(ast: &AST) -> (code: Vec<u8>)
    requires
        ast.pow_free(),
    ensures
        code@ == routine_code(*ast),
        returns_value(code@, *ast),
{
    proof {
        lemma_routine_code_returns_value(*ast);
    }
    let mut code = Vec::new();
    // Function prologue
    emit(
        &mut code,
        [
            // push rbp
            0x55,
            // mov rbp, rsp
            0x48,
            0x89,
            0xe5,
        ].as_slice(),
    );
    // Function body
    let mut body = codegen_jit(ast);
    code.append(&mut body);
    // Function epilogue
    emit(
        &mut code,
        [
            // mov rsp, rbp
            0x48,
            0x89,
            0xec,
            // pop rbp
            0x5d,
            // ret
            0xc3,
        ].as_slice(),
    );
    proof {
        assert(code@ =~= routine_code(*ast));
    }
    code
}

} // verus!
