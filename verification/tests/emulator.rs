use jit_calc::ast::AST;
use jit_calc::codegen::{codegen_jit, jit_compile};
use jit_calc::parser::parse_source;
use jit_calc::token::MathOp;

/// As much of the processor as the generated code touches.
struct Cpu {
    rsp: usize,
    rbp: u64,
    r10: u64,
    xmm0: [u64; 2],
    xmm1: [u64; 2],
    memory: Vec<u8>,
}

const MEMORY: usize = 1 << 16;
const ENTRY_RSP: usize = MEMORY - 64;

fn fresh() -> Cpu {
    let memory = (0..MEMORY).map(|i| (i * 7 + 3) as u8).collect();
    Cpu {
        rsp: ENTRY_RSP,
        rbp: 0x1122_3344_5566_7788,
        r10: 0x99,
        xmm0: [0xdead, 0xbeef],
        xmm1: [0xfeed, 0xface],
        memory,
    }
}

fn read_u64(cpu: &Cpu, at: usize) -> u64 {
    u64::from_le_bytes(cpu.memory[at..at + 8].try_into().unwrap())
}

fn write_u64(cpu: &mut Cpu, at: usize, value: u64) {
    cpu.memory[at..at + 8].copy_from_slice(&value.to_le_bytes());
}

fn arith(opcode: u8, a: u64, b: u64) -> u64 {
    let (a, b) = (f64::from_bits(a), f64::from_bits(b));
    let r = match opcode {
        0x58 => a + b,
        0x5c => a - b,
        0x59 => a * b,
        0x5e => a / b,
        other => panic!("no scalar instruction {other:#x}"),
    };
    r.to_bits()
}

/// Runs `code` instruction by instruction; returns whether it ended in `ret`.
fn run(cpu: &mut Cpu, code: &[u8]) -> bool {
    let mut pc = 0;
    while pc < code.len() {
        let rest = &code[pc..];
        if rest.starts_with(&[0x55]) {
            cpu.rsp -= 8;
            let (at, value) = (cpu.rsp, cpu.rbp);
            write_u64(cpu, at, value);
            pc += 1;
        } else if rest.starts_with(&[0x48, 0x89, 0xe5]) {
            cpu.rbp = cpu.rsp as u64;
            pc += 3;
        } else if rest.starts_with(&[0x48, 0x89, 0xec]) {
            cpu.rsp = cpu.rbp as usize;
            pc += 3;
        } else if rest.starts_with(&[0x5d]) {
            cpu.rbp = read_u64(cpu, cpu.rsp);
            cpu.rsp += 8;
            pc += 1;
        } else if rest.starts_with(&[0xc3]) {
            cpu.rsp += 8;
            assert_eq!(pc + 1, code.len(), "bytes behind ret");
            return true;
        } else if rest.starts_with(&[0x48, 0x83, 0xec, 0x10]) {
            cpu.rsp -= 16;
            pc += 4;
        } else if rest.starts_with(&[0x48, 0x83, 0xc4, 0x10]) {
            cpu.rsp += 16;
            pc += 4;
        } else if rest.starts_with(&[0xf3, 0x0f, 0x7f, 0x0c, 0x24]) {
            let (at, low, high) = (cpu.rsp, cpu.xmm1[0], cpu.xmm1[1]);
            write_u64(cpu, at, low);
            write_u64(cpu, at + 8, high);
            pc += 5;
        } else if rest.starts_with(&[0xf3, 0x0f, 0x6f, 0x0c, 0x24]) {
            cpu.xmm1 = [read_u64(cpu, cpu.rsp), read_u64(cpu, cpu.rsp + 8)];
            pc += 5;
        } else if rest.starts_with(&[0x49, 0xba]) {
            cpu.r10 = u64::from_le_bytes(rest[2..10].try_into().unwrap());
            pc += 10;
        } else if rest.starts_with(&[0x66, 0x49, 0x0f, 0x6e, 0xc2]) {
            cpu.xmm0 = [cpu.r10, 0];
            pc += 5;
        } else if rest.starts_with(&[0xf3, 0x0f, 0x7e, 0xc8]) {
            cpu.xmm1 = [cpu.xmm0[0], 0];
            pc += 4;
        } else if rest.starts_with(&[0xf2, 0x0f]) && rest.len() >= 4 && rest[3] == 0xc1 {
            cpu.xmm0[0] = arith(rest[2], cpu.xmm0[0], cpu.xmm1[0]);
            pc += 4;
        } else {
            panic!("no instruction at {pc}: {:x?}", &rest[..rest.len().min(10)]);
        }
    }
    false
}

/// The value of a tree, computed directly on doubles.
fn eval(tree: &AST) -> f64 {
    match tree {
        AST::Num(bits) => f64::from_bits(*bits),
        AST::Op(o) => {
            let (l, r) = (eval(&o.lhs), eval(&o.rhs));
            match o.op {
                MathOp::Add => l + r,
                MathOp::Sub => l - r,
                MathOp::Mul => l * r,
                MathOp::Div => l / r,
                MathOp::Pow => l.powf(r),
            }
        }
    }
}

/// Compiles `source` and runs its routine; checks what a caller relies on.
fn compiled_value(source: &str) -> f64 {
    let tree = parse_source(source).unwrap();
    assert!(tree.is_pow_free(), "{source}");
    let code = jit_compile(&tree);
    let mut cpu = fresh();
    let before = fresh();
    assert!(run(&mut cpu, &code), "{source}");
    assert_eq!(cpu.rsp, ENTRY_RSP + 8, "{source}");
    assert_eq!(cpu.rbp, before.rbp, "{source}");
    assert_eq!(cpu.xmm1, before.xmm1, "{source}");
    assert_eq!(cpu.xmm0[1], 0, "{source}");
    assert_eq!(cpu.memory[ENTRY_RSP..], before.memory[ENTRY_RSP..], "{source}");
    f64::from_bits(cpu.xmm0[0])
}

#[test]
fn compiled_examples() {
    assert_eq!(compiled_value("3 + 4 * 2"), 11.0);
    assert_eq!(compiled_value("(3 + 4) * 2"), 14.0);
    assert_eq!(compiled_value("10 / 2 - 3"), 2.0);
    assert_eq!(compiled_value("-5 + 3"), -2.0);
}

#[test]
fn compiled_minus_chains() {
    assert_eq!(compiled_value("--5"), 5.0);
    assert_eq!(compiled_value("-(2+3)"), -5.0);
    assert_eq!(compiled_value("---(1 - 3)"), 2.0);
}

#[test]
fn compiled_pi() {
    assert_eq!(compiled_value("\u{3c0}"), std::f64::consts::PI);
    assert_eq!(compiled_value("\u{3c0} / 2"), std::f64::consts::FRAC_PI_2);
}

#[test]
fn compiled_operands_keep_their_sides() {
    assert_eq!(compiled_value("7 - 2"), 5.0);
    assert_eq!(compiled_value("2 - 7"), -5.0);
    assert_eq!(compiled_value("8 / 2"), 4.0);
    assert_eq!(compiled_value("2 / 8"), 0.25);
    assert_eq!(compiled_value("100 - 10 - 1"), 89.0);
    assert_eq!(compiled_value("100 - (10 - 1)"), 91.0);
    assert_eq!(compiled_value("100 / 10 / 2"), 5.0);
    assert_eq!(compiled_value("100 / (10 / 2)"), 20.0);
}

#[test]
fn compiled_nested_left_operands_keep_the_parked_value() {
    // the left operand is an operation, computed while the right one is parked
    assert_eq!(compiled_value("(1 + 2) * (3 + 4)"), 21.0);
    assert_eq!(compiled_value("((1 + 2) * 3 - 4) / ((5 - 6) * (7 + 8))"), -1.0 / 3.0);
    assert_eq!(compiled_value("1 - (2 - (3 - (4 - (5 - 6))))"), -3.0);
    assert_eq!(compiled_value("((((1 - 2) - 3) - 4) - 5) - 6"), -19.0);
}

#[test]
fn compiled_division_by_zero() {
    assert_eq!(compiled_value("1 / 0"), f64::INFINITY);
    assert_eq!(compiled_value("-1 / 0"), f64::NEG_INFINITY);
    assert!(compiled_value("0 / 0").is_nan());
}

#[test]
fn compiled_value_is_the_direct_value() {
    for source in [
        "1",
        "0.1 + 0.2",
        "1 / 3",
        "3.5 * 2 - 0.25 / 4",
        "-(-(1.5)) * -2",
        "2 * \u{3c0} * 6371",
        "(1 + 2) * (3 - 4) / (5 + 6) - 7 * (8 / (9 - 10))",
        "1 - 2 - 3 - 4 - 5",
        "1 / 2 / 3 / 4 / 5",
        "123456789.125 * 0.000001 + 98765.4321",
        "1000000000000000000000000000000 * 1000000000000000000000000000000",
    ] {
        let tree = parse_source(source).unwrap();
        let direct = eval(&tree);
        let compiled = compiled_value(source);
        assert_eq!(compiled.to_bits(), direct.to_bits(), "{source}");
    }
}

#[test]
fn code_of_a_tree_needs_no_frame() {
    // the code of a tree alone, without prologue and epilogue
    let tree = parse_source("(1 + 2) * (3 + 4)").unwrap();
    let code = codegen_jit(&tree);
    let mut cpu = fresh();
    let before = fresh();
    assert!(!run(&mut cpu, &code));
    assert_eq!(f64::from_bits(cpu.xmm0[0]), 21.0);
    assert_eq!(cpu.rsp, ENTRY_RSP);
    assert_eq!(cpu.rbp, before.rbp);
    assert_eq!(cpu.xmm1, before.xmm1);
    assert_eq!(cpu.memory[ENTRY_RSP..], before.memory[ENTRY_RSP..]);
}

#[test]
fn deep_trees_use_the_stack_they_need() {
    // 100 nested operations on the right: 1 - (1 - (1 - ...))
    let source = format!("{}1{}", "1 - (".repeat(100), ")".repeat(100));
    assert_eq!(compiled_value(&source), 1.0);
    // 100 operations in a row on the left need one slot only
    let source = format!("1{}", " + 1".repeat(100));
    assert_eq!(compiled_value(&source), 101.0);
}
