use jit_calc::ast::{Operation, AST};
use jit_calc::codegen::{
    codegen_jit, gen_addsd, gen_backup_xmm0, gen_divsd, gen_movq_to_xmm0, gen_movq_xmm1_xmm0,
    gen_mulsd, gen_restore_xmm0, gen_subsd, jit_compile,
};
use jit_calc::parser::parse_source;
use jit_calc::token::MathOp;

fn num(value: f64) -> AST {
    AST::Num(value.to_bits())
}

fn op(op: MathOp, lhs: AST, rhs: AST) -> AST {
    AST::Op(Operation { lhs: Box::new(lhs), rhs: Box::new(rhs), op })
}

fn load(value: f64) -> Vec<u8> {
    let mut code = vec![0x49, 0xba];
    code.extend(value.to_le_bytes());
    code.extend([0x66, 0x49, 0x0f, 0x6e, 0xc2]);
    code
}

const BACKUP: [u8; 9] = [0x48, 0x83, 0xec, 0x10, 0xf3, 0x0f, 0x7f, 0x0c, 0x24];
const RESTORE: [u8; 9] = [0xf3, 0x0f, 0x6f, 0x0c, 0x24, 0x48, 0x83, 0xc4, 0x10];
const PARK: [u8; 4] = [0xf3, 0x0f, 0x7e, 0xc8];
const PROLOGUE: [u8; 4] = [0x55, 0x48, 0x89, 0xe5];
const EPILOGUE: [u8; 5] = [0x48, 0x89, 0xec, 0x5d, 0xc3];

#[test]
fn instruction_bytes() {
    assert_eq!(gen_backup_xmm0(), BACKUP);
    assert_eq!(gen_restore_xmm0(), RESTORE);
    assert_eq!(gen_movq_xmm1_xmm0(), PARK);
    assert_eq!(gen_addsd(), [0xf2, 0x0f, 0x58, 0xc1]);
    assert_eq!(gen_subsd(), [0xf2, 0x0f, 0x5c, 0xc1]);
    assert_eq!(gen_mulsd(), [0xf2, 0x0f, 0x59, 0xc1]);
    assert_eq!(gen_divsd(), [0xf2, 0x0f, 0x5e, 0xc1]);
}

#[test]
fn load_holds_the_pattern_lowest_byte_first() {
    assert_eq!(
        gen_movq_to_xmm0(0x0123_4567_89ab_cdef),
        [0x49, 0xba, 0xef, 0xcd, 0xab, 0x89, 0x67, 0x45, 0x23, 0x01, 0x66, 0x49, 0x0f, 0x6e, 0xc2]
    );
    assert_eq!(gen_movq_to_xmm0(0)[2..10], [0; 8]);
    assert_eq!(gen_movq_to_xmm0(u64::MAX)[2..10], [0xff; 8]);
    for value in [1.0f64, -1.0, 0.1, std::f64::consts::PI, f64::MAX, f64::INFINITY] {
        assert_eq!(gen_movq_to_xmm0(value.to_bits()).to_vec(), load(value));
    }
}

#[test]
fn a_number_is_one_load() {
    assert_eq!(codegen_jit(&num(1.5)), load(1.5));
}

#[test]
fn an_operation_computes_right_then_left() {
    let mut expected = BACKUP.to_vec();
    expected.extend(load(2.0));
    expected.extend(PARK);
    expected.extend(load(1.0));
    expected.extend([0xf2, 0x0f, 0x5c, 0xc1]);
    expected.extend(RESTORE);
    assert_eq!(codegen_jit(&op(MathOp::Sub, num(1.0), num(2.0))), expected);
}

#[test]
fn each_operator_has_its_instruction() {
    for (operator, opcode) in
        [(MathOp::Add, 0x58), (MathOp::Sub, 0x5c), (MathOp::Mul, 0x59), (MathOp::Div, 0x5e)]
    {
        let code = codegen_jit(&op(operator, num(1.0), num(2.0)));
        assert_eq!(code[43..47], [0xf2, 0x0f, opcode, 0xc1]);
    }
}

#[test]
fn nested_operations() {
    // (1 + 2) * 3
    let tree = op(MathOp::Mul, op(MathOp::Add, num(1.0), num(2.0)), num(3.0));
    let mut expected = BACKUP.to_vec();
    expected.extend(load(3.0));
    expected.extend(PARK);
    expected.extend(BACKUP);
    expected.extend(load(2.0));
    expected.extend(PARK);
    expected.extend(load(1.0));
    expected.extend([0xf2, 0x0f, 0x58, 0xc1]);
    expected.extend(RESTORE);
    expected.extend([0xf2, 0x0f, 0x59, 0xc1]);
    expected.extend(RESTORE);
    assert_eq!(codegen_jit(&tree), expected);
}

#[test]
fn the_routine_frames_the_code() {
    let tree = op(MathOp::Div, num(10.0), num(4.0));
    let body = codegen_jit(&tree);
    let mut expected = PROLOGUE.to_vec();
    expected.extend(&body);
    expected.extend(EPILOGUE);
    assert_eq!(jit_compile(&tree), expected);
    assert_eq!(jit_compile(&num(7.0)).len(), 4 + 15 + 5);
}

#[test]
fn code_length() {
    for (source, leaves, operations) in
        [("1", 1, 0), ("1+2", 2, 1), ("3 + 4 * 2", 3, 2), ("-(2+3)", 3, 2), ("(1+2)*(3-4)/5", 5, 4)]
    {
        let tree = parse_source(source).unwrap();
        assert!(tree.is_pow_free());
        assert_eq!(codegen_jit(&tree).len(), 15 * leaves + 26 * operations, "{source}");
        assert_eq!(jit_compile(&tree).len(), 9 + 15 * leaves + 26 * operations, "{source}");
    }
}

#[test]
fn a_power_is_found_before_code_is_made_for_it() {
    assert!(!parse_source("2^3").unwrap().is_pow_free());
    assert!(!parse_source("1 + 2 * (3 ^ 4)").unwrap().is_pow_free());
    assert!(!parse_source("(2 ^ 3) - 1").unwrap().is_pow_free());
    assert!(!op(MathOp::Add, num(1.0), op(MathOp::Pow, num(2.0), num(3.0))).is_pow_free());
    assert!(parse_source("1 + 2 * 3").unwrap().is_pow_free());
    assert!(num(1.0).is_pow_free());
}

#[test]
fn compiled_source() {
    let tree = parse_source("-5 + 3").unwrap();
    let mut expected = PROLOGUE.to_vec();
    expected.extend(BACKUP);
    expected.extend(load(3.0));
    expected.extend(PARK);
    expected.extend(BACKUP);
    expected.extend(load(5.0));
    expected.extend(PARK);
    expected.extend(load(-1.0));
    expected.extend([0xf2, 0x0f, 0x59, 0xc1]);
    expected.extend(RESTORE);
    expected.extend([0xf2, 0x0f, 0x58, 0xc1]);
    expected.extend(RESTORE);
    expected.extend(EPILOGUE);
    assert_eq!(jit_compile(&tree), expected);
}
