use lowering_analysis::operand::{
    BinOpOperand, CellRef, DerefOrImmediate, Operation, Register, ResOperand,
};

#[test]
fn test_deref_operand_format() {
    assert_eq!(CellRef { register: Register::AP, offset: 5 }.to_string(), "[ap + 5]");

    assert_eq!(CellRef { register: Register::FP, offset: -3 }.to_string(), "[fp + -3]");
}

#[test]
fn test_double_deref_op_format() {
    assert_eq!(
        ResOperand::DoubleDeref(CellRef { register: Register::AP, offset: 5 }, 12).to_string(),
        "[[ap + 5] + 12]"
    );
}

#[test]
fn test_immediate_format() {
    assert_eq!(DerefOrImmediate::from(1400).to_string(), "1400");
}

#[test]
fn test_bin_op_format() {
    let bin_op = BinOpOperand {
        op: Operation::Mul,
        a: CellRef { register: Register::FP, offset: -3 },
        b: DerefOrImmediate::from(1400),
    };
    assert_eq!(bin_op.to_string(), "[fp + -3] * 1400")
}

#[test]
fn test_operand_format_edges() {
    assert_eq!(ResOperand::Immediate(0).to_string(), "0");
    assert_eq!(ResOperand::Immediate(-1).to_string(), "-1");
    assert_eq!(ResOperand::Immediate(10).to_string(), "10");
    assert_eq!(
        ResOperand::Immediate(i128::MIN).to_string(),
        "-170141183460469231731687303715884105728"
    );
    assert_eq!(
        ResOperand::Immediate(i128::MAX).to_string(),
        "170141183460469231731687303715884105727"
    );
    assert_eq!(CellRef { register: Register::AP, offset: i16::MIN }.to_string(), "[ap + -32768]");
    assert_eq!(CellRef { register: Register::FP, offset: i16::MAX }.to_string(), "[fp + 32767]");
    let cell = CellRef { register: Register::AP, offset: 0 };
    assert_eq!(ResOperand::Deref(cell).to_string(), "[ap + 0]");
    assert_eq!(DerefOrImmediate::from(cell).to_string(), "[ap + 0]");
    let sum = BinOpOperand { op: Operation::Add, a: cell, b: DerefOrImmediate::Deref(cell) };
    assert_eq!(ResOperand::BinOp(sum).to_string(), "[ap + 0] + [ap + 0]");
    assert_eq!(Register::AP.to_string(), "ap");
    assert_eq!(Operation::Mul.to_string(), "*");
}
