//! What the generated code does: a model of the processor, as far as the
//! code touches it, and the proof that the code of a tree computes the
//! tree's value.
//!
//! The model knows the sixteen instructions that the code generator emits:
//! `encode` gives their bytes, `decode` reads them back from bytes, and `step`
//! says what each does to the stack pointer, the frame pointer, `r10`, the two
//! vector registers and memory. `run_code` runs bytes from the first on, until
//! they end or return.
//!
//! Floating-point arithmetic is a parameter: whatever the four scalar
//! instructions make of two bit patterns, the code of a tree applies it as the
//! tree says. The model leaves out the flags, the instruction pointer and the
//! control register of the vector unit; the runs considered have stack enough
//! that no address wraps around.

use crate::ast::AST;
use crate::codegen::{
    arith_bytes, backup_bytes, epilogue_bytes, le_bytes, load_bytes, node_code, park_bytes,
    prologue_bytes, restore_bytes, routine_code,
};
use crate::token::MathOp;
use vstd::prelude::*;

verus! {

/// A 128-bit vector register, as its two halves.
pub struct Xmm {
    pub low: u64,
    pub high: u64,
}

/// The state of the processor and of memory.
pub struct Machine {
    pub rsp: u64,
    pub rbp: u64,
    pub r10: u64,
    pub xmm0: Xmm,
    pub xmm1: Xmm,
    pub memory: spec_fn(int) -> u8,
}

/// An instruction of the generated code.
pub enum Instr {
    /// `push rbp`
    PushRbp,
    /// `mov rbp, rsp`
    MovRbpRsp,
    /// `mov rsp, rbp`
    MovRspRbp,
    /// `pop rbp`
    PopRbp,
    /// `ret`
    Ret,
    /// `sub rsp, 16`
    SubRsp16,
    /// `add rsp, 16`
    AddRsp16,
    /// `movdqu [rsp], xmm1`
    StoreXmm1,
    /// `movdqu xmm1, [rsp]`
    LoadXmm1,
    /// `movabs r10, imm64`
    MovabsR10(u64),
    /// `movq xmm0, r10`
    MovqXmm0R10,
    /// `movq xmm1, xmm0`
    MovqXmm1Xmm0,
    /// `addsd`, `subsd`, `mulsd` or `divsd xmm0, xmm1`
    Arith(MathOp),
}

/// The bytes of an instruction.
pub open spec fn encode(i: Instr) -> Seq<u8> {
    match i {
        Instr::PushRbp => seq![0x55u8],
        Instr::MovRbpRsp => seq![0x48u8, 0x89, 0xe5],
        Instr::MovRspRbp => seq![0x48u8, 0x89, 0xec],
        Instr::PopRbp => seq![0x5du8],
        Instr::Ret => seq![0xc3u8],
        Instr::SubRsp16 => seq![0x48u8, 0x83, 0xec, 0x10],
        Instr::AddRsp16 => seq![0x48u8, 0x83, 0xc4, 0x10],
        Instr::StoreXmm1 => seq![0xf3u8, 0x0f, 0x7f, 0x0c, 0x24],
        Instr::LoadXmm1 => seq![0xf3u8, 0x0f, 0x6f, 0x0c, 0x24],
        Instr::MovabsR10(value) => seq![0x49u8, 0xba] + le_bytes(value),
        Instr::MovqXmm0R10 => seq![0x66u8, 0x49, 0x0f, 0x6e, 0xc2],
        Instr::MovqXmm1Xmm0 => seq![0xf3u8, 0x0f, 0x7e, 0xc8],
        Instr::Arith(op) => arith_bytes(op),
    }
}

/// The bytes of a sequence of instructions.
pub open spec fn assemble(program: Seq<Instr>) -> Seq<u8>
    decreases program.len(),
{
    if program.len() == 0 {
        Seq::empty()
    } else {
        encode(program[0]) + assemble(program.skip(1))
    }
}

/// The number that eight bytes hold, lowest first.
pub open spec fn from_le(bytes: Seq<u8>) -> u64 {
    (bytes[0] + 0x100 * bytes[1] + 0x1_0000 * bytes[2] + 0x100_0000 * bytes[3] + 0x1_0000_0000
        * bytes[4] + 0x100_0000_0000 * bytes[5] + 0x1_0000_0000_0000 * bytes[6]
        + 0x100_0000_0000_0000 * bytes[7]) as u64
}

/// The `n` bytes of memory from the address `at` on.
pub open spec fn read(memory: spec_fn(int) -> u8, at: int, n: nat) -> Seq<u8> {
    Seq::new(n, |i: int| memory(at + i))
}

/// Memory with `bytes` written from the address `at` on.
pub open spec fn write(memory: spec_fn(int) -> u8, at: int, bytes: Seq<u8>) -> spec_fn(int) -> u8 {
    |a: int|
        if at <= a < at + bytes.len() {
            bytes[a - at]
        } else {
            memory(a)
        }
}

/// The 64-bit register value of `x`, which is at most one turn of the
/// register away from its range.
pub open spec fn wrap(x: int) -> u64 {
    if x < 0 {
        (x + 0x1_0000_0000_0000_0000) as u64
    } else if x > u64::MAX {
        (x - 0x1_0000_0000_0000_0000) as u64
    } else {
        x as u64
    }
}

/// The state after one instruction.
pub open spec fn step(i: Instr, s: Machine, arith: spec_fn(MathOp, u64, u64) -> u64) -> Machine {
    match i {
        Instr::PushRbp => Machine {
            rsp: wrap(s.rsp - 8),
            memory: write(s.memory, wrap(s.rsp - 8) as int, le_bytes(s.rbp)),
            ..s
        },
        Instr::MovRbpRsp => Machine { rbp: s.rsp, ..s },
        Instr::MovRspRbp => Machine { rsp: s.rbp, ..s },
        Instr::PopRbp => Machine {
            rbp: from_le(read(s.memory, s.rsp as int, 8)),
            rsp: wrap(s.rsp + 8),
            ..s
        },
        Instr::Ret => Machine { rsp: wrap(s.rsp + 8), ..s },
        Instr::SubRsp16 => Machine { rsp: wrap(s.rsp - 16), ..s },
        Instr::AddRsp16 => Machine { rsp: wrap(s.rsp + 16), ..s },
        Instr::StoreXmm1 => Machine {
            memory: write(s.memory, s.rsp as int, le_bytes(s.xmm1.low) + le_bytes(s.xmm1.high)),
            ..s
        },
        Instr::LoadXmm1 => Machine {
            xmm1: Xmm {
                low: from_le(read(s.memory, s.rsp as int, 8)),
                high: from_le(read(s.memory, s.rsp + 8, 8)),
            },
            ..s
        },
        Instr::MovabsR10(value) => Machine { r10: value, ..s },
        Instr::MovqXmm0R10 => Machine { xmm0: Xmm { low: s.r10, high: 0 }, ..s },
        Instr::MovqXmm1Xmm0 => Machine { xmm1: Xmm { low: s.xmm0.low, high: 0 }, ..s },
        Instr::Arith(op) => Machine {
            xmm0: Xmm { low: arith(op, s.xmm0.low, s.xmm1.low), high: s.xmm0.high },
            ..s
        },
    }
}

/// The state after a sequence of instructions.
#[verifier::opaque]
pub open spec fn run(
    program: Seq<Instr>,
    s: Machine,
    arith: spec_fn(MathOp, u64, u64) -> u64,
) -> Machine
    decreases program.len(),
{
    if program.len() == 0 {
        s
    } else {
        run(program.skip(1), step(program[0], s, arith), arith)
    }
}

/// The byte of `code` at position `k`; -1 past its end.
pub open spec fn byte_at(code: Seq<u8>, k: int) -> int {
    if 0 <= k < code.len() {
        code[k] as int
    } else {
        -1
    }
}

/// Whether the scalar instruction with the opcode byte `opcode` stands at
/// the front of `code`.
pub open spec fn scalar_at(code: Seq<u8>, opcode: int) -> bool {
    byte_at(code, 0) == 0xf2 && byte_at(code, 1) == 0x0f && byte_at(code, 2) == opcode && byte_at(
        code,
        3,
    ) == 0xc1
}

/// The instruction that `code` starts with, if it starts with one that the
/// model knows.
pub open spec fn decode(code: Seq<u8>) -> Option<Instr> {
    if byte_at(code, 0) == 0x55 {
        Some(Instr::PushRbp)
    } else if byte_at(code, 0) == 0x5d {
        Some(Instr::PopRbp)
    } else if byte_at(code, 0) == 0xc3 {
        Some(Instr::Ret)
    } else if byte_at(code, 0) == 0x48 && byte_at(code, 1) == 0x89 && byte_at(code, 2) == 0xe5 {
        Some(Instr::MovRbpRsp)
    } else if byte_at(code, 0) == 0x48 && byte_at(code, 1) == 0x89 && byte_at(code, 2) == 0xec {
        Some(Instr::MovRspRbp)
    } else if byte_at(code, 0) == 0x48 && byte_at(code, 1) == 0x83 && byte_at(code, 2) == 0xec
        && byte_at(code, 3) == 0x10 {
        Some(Instr::SubRsp16)
    } else if byte_at(code, 0) == 0x48 && byte_at(code, 1) == 0x83 && byte_at(code, 2) == 0xc4
        && byte_at(code, 3) == 0x10 {
        Some(Instr::AddRsp16)
    } else if byte_at(code, 0) == 0xf3 && byte_at(code, 1) == 0x0f && byte_at(code, 2) == 0x7f
        && byte_at(code, 3) == 0x0c && byte_at(code, 4) == 0x24 {
        Some(Instr::StoreXmm1)
    } else if byte_at(code, 0) == 0xf3 && byte_at(code, 1) == 0x0f && byte_at(code, 2) == 0x6f
        && byte_at(code, 3) == 0x0c && byte_at(code, 4) == 0x24 {
        Some(Instr::LoadXmm1)
    } else if byte_at(code, 0) == 0x49 && byte_at(code, 1) == 0xba && code.len() >= 10 {
        Some(Instr::MovabsR10(from_le(code.subrange(2, 10))))
    } else if byte_at(code, 0) == 0x66 && byte_at(code, 1) == 0x49 && byte_at(code, 2) == 0x0f
        && byte_at(code, 3) == 0x6e && byte_at(code, 4) == 0xc2 {
        Some(Instr::MovqXmm0R10)
    } else if byte_at(code, 0) == 0xf3 && byte_at(code, 1) == 0x0f && byte_at(code, 2) == 0x7e
        && byte_at(code, 3) == 0xc8 {
        Some(Instr::MovqXmm1Xmm0)
    } else if scalar_at(code, 0x58) {
        Some(Instr::Arith(MathOp::Add))
    } else if scalar_at(code, 0x5c) {
        Some(Instr::Arith(MathOp::Sub))
    } else if scalar_at(code, 0x59) {
        Some(Instr::Arith(MathOp::Mul))
    } else if scalar_at(code, 0x5e) {
        Some(Instr::Arith(MathOp::Div))
    } else {
        None
    }
}

/// The state in which the bytes `code`, run from their first on, come to
/// their end or return; `None` where they hold what the model does not know.
pub open spec fn run_code(
    code: Seq<u8>,
    s: Machine,
    arith: spec_fn(MathOp, u64, u64) -> u64,
) -> Option<Machine>
    decreases code.len(),
{
    if code.len() == 0 {
        Some(s)
    } else {
        match decode(code) {
            None => None,
            Some(i) => if i == Instr::Ret {
                Some(step(i, s, arith))
            } else if 0 < encode(i).len() <= code.len() {
                run_code(code.skip(encode(i).len() as int), step(i, s, arith), arith)
            } else {
                None
            },
        }
    }
}

/// An instruction with an encoding: any but the scalar instruction of a power.
pub open spec fn encodable(i: Instr) -> bool {
    i != Instr::Arith(MathOp::Pow)
}

/// Every instruction of `program` has an encoding, and none returns.
pub open spec fn straight(program: Seq<Instr>) -> bool {
    forall|k: int|
        0 <= k < program.len() ==> encodable(#[trigger] program[k]) && program[k] != Instr::Ret
}

/// The instructions of a tree's code.
pub open spec fn node_program(tree: AST) -> Seq<Instr>
    recommends
        tree.pow_free(),
    decreases tree,
{
    match tree {
        AST::Num(value) => seq![Instr::MovabsR10(value), Instr::MovqXmm0R10],
        AST::Op(o) => seq![Instr::SubRsp16, Instr::StoreXmm1] + node_program(*o.rhs)
            + seq![Instr::MovqXmm1Xmm0] + node_program(*o.lhs) + seq![
            Instr::Arith(o.op),
            Instr::LoadXmm1,
            Instr::AddRsp16,
        ],
    }
}

/// The instructions of a tree's routine.
pub open spec fn routine_program(tree: AST) -> Seq<Instr>
    recommends
        tree.pow_free(),
{
    seq![Instr::PushRbp, Instr::MovRbpRsp] + node_program(tree) + seq![
        Instr::MovRspRbp,
        Instr::PopRbp,
        Instr::Ret,
    ]
}

/// The bytes of stack that the code of a tree takes below the stack pointer
/// it starts with.
pub open spec fn stack_need(tree: AST) -> nat
    decreases tree,
{
    match tree {
        AST::Num(_) => 0,
        AST::Op(o) => 16 + if stack_need(*o.lhs) >= stack_need(*o.rhs) {
            stack_need(*o.lhs)
        } else {
            stack_need(*o.rhs)
        },
    }
}

/// What the code of a tree owes: `result` in the low half of `xmm0` with
/// the high half cleared; `xmm1`, the stack pointer and the frame pointer as
/// they were; and no byte at or above the stack pointer changed.
pub open spec fn computes(before: Machine, after: Machine, result: u64) -> bool {
    &&& after.xmm0 == Xmm { low: result, high: 0 }
    &&& after.xmm1 == before.xmm1
    &&& after.rsp == before.rsp
    &&& after.rbp == before.rbp
    &&& forall|a: int| a >= before.rsp ==> (after.memory)(a) == #[trigger] (before.memory)(a)
}

/// The bytes `code` compute `tree`: on any state with enough stack, and
/// whatever the arithmetic, they run to their end and leave the tree's value in
/// `xmm0` and what a caller relies on as it was.
pub open spec fn leaves_value(code: Seq<u8>, tree: AST) -> bool {
    forall|s: Machine, arith: spec_fn(MathOp, u64, u64) -> u64|
        s.rsp >= stack_need(tree) ==> (#[trigger] run_code(code, s, arith)) is Some && computes(
            s,
            run_code(code, s, arith).unwrap(),
            tree.value(arith),
        )
}

/// The bytes `code` are a routine for `tree`: entered on any state with the
/// stack pointer at the return address and enough stack below it, and
/// whatever the arithmetic, they return with the tree's value in `xmm0`, the
/// return address popped, the frame pointer as it was, and no byte of the
/// caller's stack changed.
pub open spec fn returns_value(code: Seq<u8>, tree: AST) -> bool {
    forall|s: Machine, arith: spec_fn(MathOp, u64, u64) -> u64|
        s.rsp >= 8 + stack_need(tree) && s.rsp + 8 <= u64::MAX ==> {
            let end = (#[trigger] run_code(code, s, arith)).unwrap();
            &&& run_code(code, s, arith) is Some
            &&& end.xmm0 == Xmm { low: tree.value(arith), high: 0 }
            &&& end.rsp == s.rsp + 8
            &&& end.rbp == s.rbp
            &&& forall|a: int| a >= s.rsp ==> (end.memory)(a) == #[trigger] (s.memory)(a)
        }
}

pub proof fn lemma_assemble_concat(a: Seq<Instr>, b: Seq<Instr>)
    ensures
        assemble(a + b) == assemble(a) + assemble(b),
    decreases a.len(),
{
    if a.len() == 0 {
        assert(a + b =~= b);
        assert(assemble(a) + assemble(b) =~= assemble(b));
    } else {
        assert((a + b).skip(1) =~= a.skip(1) + b);
        lemma_assemble_concat(a.skip(1), b);
        assert(assemble(a + b) =~= assemble(a) + assemble(b));
    }
}

pub proof fn lemma_run_concat(
    a: Seq<Instr>,
    b: Seq<Instr>,
    s: Machine,
    arith: spec_fn(MathOp, u64, u64) -> u64,
)
    ensures
        run(a + b, s, arith) == run(b, run(a, s, arith), arith),
    decreases a.len(),
{
    reveal(run);
    if a.len() == 0 {
        assert(a + b =~= b);
    } else {
        assert((a + b).skip(1) =~= a.skip(1) + b);
        lemma_run_concat(a.skip(1), b, step(a[0], s, arith), arith);
    }
}

/// Eight bytes written lowest first read back as the number they came from.
pub proof fn lemma_from_le_bytes(value: u64)
    ensures
        from_le(le_bytes(value)) == value,
{
    assert(value == (value % 0x100) + 0x100 * (value / 0x100 % 0x100) + 0x1_0000 * (value
        / 0x1_0000 % 0x100) + 0x100_0000 * (value / 0x100_0000 % 0x100) + 0x1_0000_0000 * (value
        / 0x1_0000_0000 % 0x100) + 0x100_0000_0000 * (value / 0x100_0000_0000 % 0x100)
        + 0x1_0000_0000_0000 * (value / 0x1_0000_0000_0000 % 0x100) + 0x100_0000_0000_0000 * (value
        / 0x100_0000_0000_0000 % 0x100)) by (bit_vector);
}

proof fn lemma_assemble_pieces(value: u64, op: MathOp)
    ensures
        assemble(seq![Instr::MovabsR10(value), Instr::MovqXmm0R10]) == load_bytes(value),
        assemble(seq![Instr::SubRsp16, Instr::StoreXmm1]) == backup_bytes(),
        assemble(seq![Instr::MovqXmm1Xmm0]) == park_bytes(),
        assemble(seq![Instr::Arith(op), Instr::LoadXmm1, Instr::AddRsp16]) == arith_bytes(op)
            + restore_bytes(),
        assemble(seq![Instr::PushRbp, Instr::MovRbpRsp]) == prologue_bytes(),
        assemble(seq![Instr::MovRspRbp, Instr::PopRbp, Instr::Ret]) == epilogue_bytes(),
{
    reveal_with_fuel(assemble, 4);
    assert(assemble(seq![Instr::MovabsR10(value), Instr::MovqXmm0R10]) =~= load_bytes(value));
    assert(assemble(seq![Instr::SubRsp16, Instr::StoreXmm1]) =~= backup_bytes());
    assert(assemble(seq![Instr::MovqXmm1Xmm0]) =~= park_bytes());
    assert(assemble(seq![Instr::Arith(op), Instr::LoadXmm1, Instr::AddRsp16]) =~= arith_bytes(op)
        + restore_bytes());
    assert(assemble(seq![Instr::PushRbp, Instr::MovRbpRsp]) =~= prologue_bytes());
    assert(assemble(seq![Instr::MovRspRbp, Instr::PopRbp, Instr::Ret]) =~= epilogue_bytes());
}

/// The code of a tree is the encoding of the tree's instructions.
pub proof fn lemma_node_code_assembles(tree: AST)
    requires
        tree.pow_free(),
    ensures
        node_code(tree) == assemble(node_program(tree)),
    decreases tree,
{
    match tree {
        AST::Num(value) => {
            lemma_assemble_pieces(value, MathOp::Add);
        },
        AST::Op(o) => {
            lemma_node_code_assembles(*o.lhs);
            lemma_node_code_assembles(*o.rhs);
            lemma_assemble_pieces(0, o.op);
            let head = seq![Instr::SubRsp16, Instr::StoreXmm1];
            let park = seq![Instr::MovqXmm1Xmm0];
            let tail = seq![Instr::Arith(o.op), Instr::LoadXmm1, Instr::AddRsp16];
            let right = node_program(*o.rhs);
            let left = node_program(*o.lhs);
            lemma_assemble_concat(head, right);
            lemma_assemble_concat(head + right, park);
            lemma_assemble_concat(head + right + park, left);
            lemma_assemble_concat(head + right + park + left, tail);
            assert(node_code(tree) =~= backup_bytes() + node_code(*o.rhs) + park_bytes()
                + node_code(*o.lhs) + (arith_bytes(o.op) + restore_bytes()));
        },
    }
}

/// The routine of a tree is the encoding of the routine's instructions.
pub proof fn lemma_routine_code_assembles(tree: AST)
    requires
        tree.pow_free(),
    ensures
        routine_code(tree) == assemble(routine_program(tree)),
{
    lemma_node_code_assembles(tree);
    lemma_assemble_pieces(0, MathOp::Add);
    let enter = seq![Instr::PushRbp, Instr::MovRbpRsp];
    let leave = seq![Instr::MovRspRbp, Instr::PopRbp, Instr::Ret];
    lemma_assemble_concat(enter, node_program(tree));
    lemma_assemble_concat(enter + node_program(tree), leave);
}

proof fn lemma_run_two(a: Instr, b: Instr, s: Machine, arith: spec_fn(MathOp, u64, u64) -> u64)
    ensures
        run(seq![a, b], s, arith) == step(b, step(a, s, arith), arith),
{
    reveal_with_fuel(run, 3);
    let p = seq![a, b];
    assert(p.skip(1) =~= seq![b]);
    assert(p.skip(1).skip(1) =~= Seq::<Instr>::empty());
}

proof fn lemma_run_three(
    a: Instr,
    b: Instr,
    c: Instr,
    s: Machine,
    arith: spec_fn(MathOp, u64, u64) -> u64,
)
    ensures
        run(seq![a, b, c], s, arith) == step(c, step(b, step(a, s, arith), arith), arith),
{
    reveal_with_fuel(run, 2);
    let p = seq![a, b, c];
    assert(p.skip(1) =~= seq![b, c]);
    lemma_run_two(b, c, step(a, s, arith), arith);
}

proof fn lemma_run_leaf(value: u64, s: Machine, arith: spec_fn(MathOp, u64, u64) -> u64)
    ensures
        run(seq![Instr::MovabsR10(value), Instr::MovqXmm0R10], s, arith) == (Machine {
            r10: value,
            xmm0: Xmm { low: value, high: 0 },
            ..s
        }),
{
    lemma_run_two(Instr::MovabsR10(value), Instr::MovqXmm0R10, s, arith);
}

proof fn lemma_run_open(s: Machine, arith: spec_fn(MathOp, u64, u64) -> u64)
    requires
        s.rsp >= 16,
    ensures
        run(seq![Instr::SubRsp16, Instr::StoreXmm1], s, arith) == (Machine {
            rsp: (s.rsp - 16) as u64,
            memory: write(s.memory, s.rsp - 16, le_bytes(s.xmm1.low) + le_bytes(s.xmm1.high)),
            ..s
        }),
{
    lemma_run_two(Instr::SubRsp16, Instr::StoreXmm1, s, arith);
}

proof fn lemma_run_park(s: Machine, arith: spec_fn(MathOp, u64, u64) -> u64)
    ensures
        run(seq![Instr::MovqXmm1Xmm0], s, arith) == (Machine {
            xmm1: Xmm { low: s.xmm0.low, high: 0 },
            ..s
        }),
{
    reveal_with_fuel(run, 2);
}

proof fn lemma_run_close(op: MathOp, s: Machine, arith: spec_fn(MathOp, u64, u64) -> u64)
    requires
        s.rsp + 16 <= u64::MAX,
    ensures
        run(seq![Instr::Arith(op), Instr::LoadXmm1, Instr::AddRsp16], s, arith) == (Machine {
            xmm0: Xmm { low: arith(op, s.xmm0.low, s.xmm1.low), high: s.xmm0.high },
            xmm1: Xmm {
                low: from_le(read(s.memory, s.rsp as int, 8)),
                high: from_le(read(s.memory, s.rsp + 8, 8)),
            },
            rsp: (s.rsp + 16) as u64,
            ..s
        }),
{
    lemma_run_three(Instr::Arith(op), Instr::LoadXmm1, Instr::AddRsp16, s, arith);
    let s1 = step(Instr::Arith(op), s, arith);
    let s2 = step(Instr::LoadXmm1, s1, arith);
    let s3 = step(Instr::AddRsp16, s2, arith);
    assert(s1.rsp == s.rsp && s1.memory == s.memory);
    assert(s2.rsp == s.rsp);
    assert(s3.rsp == (s.rsp + 16) as u64);
}

proof fn lemma_run_enter(s: Machine, arith: spec_fn(MathOp, u64, u64) -> u64)
    requires
        s.rsp >= 8,
    ensures
        run(seq![Instr::PushRbp, Instr::MovRbpRsp], s, arith) == (Machine {
            rsp: (s.rsp - 8) as u64,
            rbp: (s.rsp - 8) as u64,
            memory: write(s.memory, s.rsp - 8, le_bytes(s.rbp)),
            ..s
        }),
{
    lemma_run_two(Instr::PushRbp, Instr::MovRbpRsp, s, arith);
}

proof fn lemma_run_leave(s: Machine, arith: spec_fn(MathOp, u64, u64) -> u64)
    requires
        s.rbp + 16 <= u64::MAX,
    ensures
        run(seq![Instr::MovRspRbp, Instr::PopRbp, Instr::Ret], s, arith) == (Machine {
            rsp: (s.rbp + 16) as u64,
            rbp: from_le(read(s.memory, s.rbp as int, 8)),
            ..s
        }),
{
    lemma_run_three(Instr::MovRspRbp, Instr::PopRbp, Instr::Ret, s, arith);
    let s1 = step(Instr::MovRspRbp, s, arith);
    let s2 = step(Instr::PopRbp, s1, arith);
    let s3 = step(Instr::Ret, s2, arith);
    assert(s1.rsp == s.rbp && s1.memory == s.memory);
    assert(s2.rsp == (s.rbp + 8) as u64);
    assert(s3.rsp == (s.rbp + 16) as u64);
}

/// Eight bytes of memory that are the bytes of `value` read as `value`.
proof fn lemma_read_value(memory: spec_fn(int) -> u8, at: int, value: u64)
    requires
        forall|i: int| 0 <= i < 8 ==> memory(at + i) == #[trigger] le_bytes(value)[i],
    ensures
        from_le(read(memory, at, 8)) == value,
{
    assert(read(memory, at, 8) =~= le_bytes(value));
    lemma_from_le_bytes(value);
}

/// An operation's code computes the operation, given that the code of each
/// operand computes the operand: the states are those after the opening, the
/// right operand, the parking, the left operand, and the closing.
proof fn lemma_operation_computes(
    s: Machine,
    opened: Machine,
    right: Machine,
    parked: Machine,
    left: Machine,
    closed: Machine,
    result: u64,
    vl: u64,
    vr: u64,
)
    requires
        s.rsp >= 16,
        opened == (Machine {
            rsp: (s.rsp - 16) as u64,
            memory: write(s.memory, s.rsp - 16, le_bytes(s.xmm1.low) + le_bytes(s.xmm1.high)),
            ..s
        }),
        computes(opened, right, vr),
        parked == (Machine { xmm1: Xmm { low: right.xmm0.low, high: 0 }, ..right }),
        computes(parked, left, vl),
        closed == (Machine {
            xmm0: Xmm { low: result, high: left.xmm0.high },
            xmm1: Xmm {
                low: from_le(read(left.memory, left.rsp as int, 8)),
                high: from_le(read(left.memory, left.rsp + 8, 8)),
            },
            rsp: (left.rsp + 16) as u64,
            ..left
        }),
    ensures
        computes(s, closed, result),
        left.xmm0.low == vl,
        left.xmm1.low == vr,
{
    let low = le_bytes(s.xmm1.low);
    let high = le_bytes(s.xmm1.high);
    let at = s.rsp - 16;
    assert forall|a: int| a >= at implies (left.memory)(a) == #[trigger] (opened.memory)(a) by {
        assert((left.memory)(a) == (parked.memory)(a));
        assert((right.memory)(a) == (opened.memory)(a));
    }
    assert forall|i: int| 0 <= i < 8 implies (left.memory)(at + i) == #[trigger] low[i] by {
        assert((left.memory)(at + i) == (opened.memory)(at + i));
        assert((low + high)[i] == low[i]);
    }
    assert forall|i: int| 0 <= i < 8 implies (left.memory)(at + 8 + i) == #[trigger] high[i] by {
        assert((left.memory)(at + 8 + i) == (opened.memory)(at + 8 + i));
        assert((low + high)[8 + i] == high[i]);
    }
    lemma_read_value(left.memory, at, s.xmm1.low);
    lemma_read_value(left.memory, at + 8, s.xmm1.high);
    assert forall|a: int| a >= s.rsp implies (closed.memory)(a) == #[trigger] (s.memory)(a) by {
        assert((left.memory)(a) == (opened.memory)(a));
    }
}

/// The code of a tree computes the tree's value: run on any state with
/// enough stack, it leaves the value in `xmm0` and everything else that a
/// caller relies on as it found it.
pub proof fn lemma_node_program_runs(
    tree: AST,
    s: Machine,
    arith: spec_fn(MathOp, u64, u64) -> u64,
)
    requires
        tree.pow_free(),
        s.rsp >= stack_need(tree),
    ensures
        computes(s, run(node_program(tree), s, arith), tree.value(arith)),
    decreases tree,
{
    match tree {
        AST::Num(value) => {
            lemma_run_leaf(value, s, arith);
        },
        AST::Op(o) => {
            let head = seq![Instr::SubRsp16, Instr::StoreXmm1];
            let park = seq![Instr::MovqXmm1Xmm0];
            let tail = seq![Instr::Arith(o.op), Instr::LoadXmm1, Instr::AddRsp16];
            let right = node_program(*o.rhs);
            let left = node_program(*o.lhs);
            lemma_run_concat(head + right + park + left, tail, s, arith);
            lemma_run_concat(head + right + park, left, s, arith);
            lemma_run_concat(head + right, park, s, arith);
            lemma_run_concat(head, right, s, arith);
            let s2 = run(head, s, arith);
            lemma_run_open(s, arith);
            let s3 = run(right, s2, arith);
            lemma_node_program_runs(*o.rhs, s2, arith);
            let s4 = run(park, s3, arith);
            lemma_run_park(s3, arith);
            let s5 = run(left, s4, arith);
            lemma_node_program_runs(*o.lhs, s4, arith);
            let s8 = run(tail, s5, arith);
            lemma_run_close(o.op, s5, arith);
            let vl = o.lhs.value(arith);
            let vr = o.rhs.value(arith);
            lemma_operation_computes(s, s2, s3, s4, s5, s8, arith(o.op, vl, vr), vl, vr);
        },
    }
}

proof fn lemma_routine_computes(s: Machine, entered: Machine, done: Machine, end: Machine, v: u64)
    requires
        s.rsp >= 8,
        s.rsp + 8 <= u64::MAX,
        entered == (Machine {
            rsp: (s.rsp - 8) as u64,
            rbp: (s.rsp - 8) as u64,
            memory: write(s.memory, s.rsp - 8, le_bytes(s.rbp)),
            ..s
        }),
        computes(entered, done, v),
        end == (Machine {
            rsp: (done.rbp + 16) as u64,
            rbp: from_le(read(done.memory, done.rbp as int, 8)),
            ..done
        }),
    ensures
        end.xmm0 == (Xmm { low: v, high: 0 }),
        end.rsp == s.rsp + 8,
        end.rbp == s.rbp,
        forall|a: int| a >= s.rsp ==> (end.memory)(a) == #[trigger] (s.memory)(a),
{
    let at = s.rsp - 8;
    assert forall|i: int| 0 <= i < 8 implies (done.memory)(at + i) == #[trigger] le_bytes(
        s.rbp,
    )[i] by {
        assert((done.memory)(at + i) == (entered.memory)(at + i));
    }
    lemma_read_value(done.memory, at, s.rbp);
    assert forall|a: int| a >= s.rsp implies (end.memory)(a) == #[trigger] (s.memory)(a) by {
        assert((done.memory)(a) == (entered.memory)(a));
    }
}

/// The routine of a tree computes the tree's value: entered with the stack
/// pointer at the return address and with enough stack below it, it returns
/// with the value in `xmm0`, the return address popped, the frame pointer as
/// the caller left it, and the caller's stack untouched.
pub proof fn lemma_routine_runs(tree: AST, s: Machine, arith: spec_fn(MathOp, u64, u64) -> u64)
    requires
        tree.pow_free(),
        s.rsp >= 8 + stack_need(tree),
        s.rsp + 8 <= u64::MAX,
    ensures
        ({
            let end = run(routine_program(tree), s, arith);
            &&& end.xmm0 == Xmm { low: tree.value(arith), high: 0 }
            &&& end.rsp == s.rsp + 8
            &&& end.rbp == s.rbp
            &&& forall|a: int| a >= s.rsp ==> (end.memory)(a) == #[trigger] (s.memory)(a)
        }),
{
    let enter = seq![Instr::PushRbp, Instr::MovRbpRsp];
    let leave = seq![Instr::MovRspRbp, Instr::PopRbp, Instr::Ret];
    let body = node_program(tree);
    lemma_run_concat(enter + body, leave, s, arith);
    lemma_run_concat(enter, body, s, arith);
    let s1 = run(enter, s, arith);
    lemma_run_enter(s, arith);
    let s2 = run(body, s1, arith);
    lemma_node_program_runs(tree, s1, arith);
    let end = run(leave, s2, arith);
    lemma_run_leave(s2, arith);
    lemma_routine_computes(s, s1, s2, end, tree.value(arith));
}

/// The encoding of an instruction decodes as the instruction, whatever
/// follows it.
pub proof fn lemma_decode_encode(i: Instr, rest: Seq<u8>)
    requires
        encodable(i),
    ensures
        decode(encode(i) + rest) == Some(i),
        encode(i).len() > 0,
        (encode(i) + rest).skip(encode(i).len() as int) == rest,
{
    let code = encode(i) + rest;
    assert(code.skip(encode(i).len() as int) =~= rest);
    assert forall|k: int| 0 <= k < encode(i).len() implies byte_at(code, k) == encode(i)[k] by {}
    match i {
        Instr::MovabsR10(value) => {
            assert(code.subrange(2, 10) =~= le_bytes(value));
            lemma_from_le_bytes(value);
            assert(byte_at(code, 0) == 0x49);
            assert(byte_at(code, 1) == 0xba);
        },
        Instr::Arith(op) => {
            assert(byte_at(code, 0) == 0xf2);
            assert(byte_at(code, 1) == 0x0f);
            assert(byte_at(code, 3) == 0xc1);
            assert(byte_at(code, 2) == encode(i)[2]);
        },
        Instr::PushRbp | Instr::PopRbp | Instr::Ret => {
            assert(byte_at(code, 0) == encode(i)[0]);
        },
        Instr::MovRbpRsp | Instr::MovRspRbp => {
            assert(byte_at(code, 0) == 0x48);
            assert(byte_at(code, 1) == 0x89);
            assert(byte_at(code, 2) == encode(i)[2]);
        },
        Instr::SubRsp16 | Instr::AddRsp16 => {
            assert(byte_at(code, 0) == 0x48);
            assert(byte_at(code, 1) == 0x83);
            assert(byte_at(code, 2) == encode(i)[2]);
            assert(byte_at(code, 3) == 0x10);
        },
        Instr::StoreXmm1 | Instr::LoadXmm1 => {
            assert(byte_at(code, 0) == 0xf3);
            assert(byte_at(code, 1) == 0x0f);
            assert(byte_at(code, 2) == encode(i)[2]);
            assert(byte_at(code, 3) == 0x0c);
            assert(byte_at(code, 4) == 0x24);
        },
        Instr::MovqXmm0R10 => {
            assert(byte_at(code, 0) == 0x66);
            assert(byte_at(code, 1) == 0x49);
            assert(byte_at(code, 2) == 0x0f);
            assert(byte_at(code, 3) == 0x6e);
            assert(byte_at(code, 4) == 0xc2);
        },
        Instr::MovqXmm1Xmm0 => {
            assert(byte_at(code, 0) == 0xf3);
            assert(byte_at(code, 1) == 0x0f);
            assert(byte_at(code, 2) == 0x7e);
            assert(byte_at(code, 3) == 0xc8);
        },
    }
}

/// The bytes of straight instructions run as the instructions do, and go on
/// with the bytes behind them.
pub proof fn lemma_run_code_of_program(
    program: Seq<Instr>,
    rest: Seq<u8>,
    s: Machine,
    arith: spec_fn(MathOp, u64, u64) -> u64,
)
    requires
        straight(program),
    ensures
        run_code(assemble(program) + rest, s, arith) == run_code(
            rest,
            run(program, s, arith),
            arith,
        ),
    decreases program.len(),
{
    reveal(run);
    if program.len() == 0 {
        assert(assemble(program) + rest =~= rest);
    } else {
        let i = program[0];
        let behind = assemble(program.skip(1)) + rest;
        assert(encodable(i) && i != Instr::Ret);
        lemma_decode_encode(i, behind);
        assert(assemble(program) + rest =~= encode(i) + behind);
        assert forall|k: int| 0 <= k < program.skip(1).len() implies encodable(
            #[trigger] program.skip(1)[k],
        ) && program.skip(1)[k] != Instr::Ret by {
            assert(program.skip(1)[k] == program[k + 1]);
        }
        lemma_run_code_of_program(program.skip(1), rest, step(i, s, arith), arith);
    }
}

/// The instructions of a tree's code are straight.
pub proof fn lemma_node_program_straight(tree: AST)
    requires
        tree.pow_free(),
    ensures
        straight(node_program(tree)),
    decreases tree,
{
    match tree {
        AST::Num(_) => {},
        AST::Op(o) => {
            lemma_node_program_straight(*o.lhs);
            lemma_node_program_straight(*o.rhs);
        },
    }
}

/// The bytes of a tree's code, run on any state with enough stack, come to
/// their end with the tree's value in `xmm0` and everything else that a caller
/// relies on as it was.
pub proof fn lemma_node_code_runs(tree: AST, s: Machine, arith: spec_fn(MathOp, u64, u64) -> u64)
    requires
        tree.pow_free(),
        s.rsp >= stack_need(tree),
    ensures
        run_code(node_code(tree), s, arith) matches Some(end) && computes(
            s,
            end,
            tree.value(arith),
        ),
{
    lemma_node_code_assembles(tree);
    lemma_node_program_straight(tree);
    lemma_node_program_runs(tree, s, arith);
    lemma_run_code_of_program(node_program(tree), Seq::empty(), s, arith);
    assert(node_code(tree) + Seq::<u8>::empty() =~= node_code(tree));
}

/// The bytes of a tree's routine, entered with the stack pointer at the
/// return address and with enough stack below it, return with the tree's value
/// in `xmm0`, the return address popped, the frame pointer as the caller left
/// it, and the caller's stack untouched.
pub proof fn lemma_routine_code_runs(
    tree: AST,
    s: Machine,
    arith: spec_fn(MathOp, u64, u64) -> u64,
)
    requires
        tree.pow_free(),
        s.rsp >= 8 + stack_need(tree),
        s.rsp + 8 <= u64::MAX,
    ensures
        run_code(routine_code(tree), s, arith) matches Some(end) && {
            &&& end.xmm0 == Xmm { low: tree.value(arith), high: 0 }
            &&& end.rsp == s.rsp + 8
            &&& end.rbp == s.rbp
            &&& forall|a: int| a >= s.rsp ==> (end.memory)(a) == #[trigger] (s.memory)(a)
        },
{
    let before = seq![Instr::PushRbp, Instr::MovRbpRsp] + node_program(tree) + seq![
        Instr::MovRspRbp,
        Instr::PopRbp,
    ];
    let last = seq![Instr::Ret];
    lemma_routine_code_assembles(tree);
    lemma_routine_runs(tree, s, arith);
    lemma_node_program_straight(tree);
    assert(routine_program(tree) =~= before + last);
    lemma_assemble_concat(before, last);
    lemma_run_concat(before, last, s, arith);
    lemma_run_code_of_program(before, assemble(last), s, arith);
    let s1 = run(before, s, arith);
    assert(assemble(last) =~= encode(Instr::Ret) + Seq::<u8>::empty()) by {
        reveal_with_fuel(assemble, 2);
    }
    lemma_decode_encode(Instr::Ret, Seq::empty());
    assert(run(last, s1, arith) == step(Instr::Ret, s1, arith)) by {
        reveal_with_fuel(run, 2);
    }
}

/// The code of a tree computes the tree.
pub proof fn lemma_node_code_leaves_value(tree: AST)
    requires
        tree.pow_free(),
    ensures
        leaves_value(node_code(tree), tree),
{
    assert forall|s: Machine, arith: spec_fn(MathOp, u64, u64) -> u64|
        s.rsp >= stack_need(tree) implies (#[trigger] run_code(node_code(tree), s, arith)) is Some
        && computes(s, run_code(node_code(tree), s, arith).unwrap(), tree.value(arith)) by {
        lemma_node_code_runs(tree, s, arith);
    }
}

/// The routine of a tree returns the tree's value.
pub proof fn lemma_routine_code_returns_value(tree: AST)
    requires
        tree.pow_free(),
    ensures
        returns_value(routine_code(tree), tree),
{
    assert forall|s: Machine, arith: spec_fn(MathOp, u64, u64) -> u64|
        s.rsp >= 8 + stack_need(tree) && s.rsp + 8 <= u64::MAX implies {
        let end = (#[trigger] run_code(routine_code(tree), s, arith)).unwrap();
        &&& run_code(routine_code(tree), s, arith) is Some
        &&& end.xmm0 == Xmm { low: tree.value(arith), high: 0 }
        &&& end.rsp == s.rsp + 8
        &&& end.rbp == s.rbp
        &&& forall|a: int| a >= s.rsp ==> (end.memory)(a) == #[trigger] (s.memory)(a)
    } by {
        lemma_routine_code_runs(tree, s, arith);
    }
}

} // verus!
