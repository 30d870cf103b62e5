use lowering_analysis::invocations::blake::{
    build, build_compress, BlakeConcreteLibfunc, Blake2sCompressInstruction, CellExpression, Hint,
    InstructionBody, InvocationError,
};
use lowering_analysis::ir::{LocationId, VarUsage};
use lowering_analysis::lower::external::{
    extern_facade_expr, extern_facade_return_tys, LoweredExpr, TypeId, TypeLongId,
};
use lowering_analysis::operand::{CellRef, DerefOrImmediate, Operation, Register, ResOperand};

fn cell(register: Register, offset: i16) -> CellRef {
    CellRef { register, offset }
}

#[test]
fn test_extern_facade_return_tys() {
    let tuple = TypeLongId::Tuple(vec![TypeId(1), TypeId(2), TypeId(3)]);
    assert_eq!(extern_facade_return_tys(TypeId(9), &tuple), vec![TypeId(1), TypeId(2), TypeId(3)]);
    assert_eq!(extern_facade_return_tys(TypeId(9), &TypeLongId::Other), vec![TypeId(9)]);
    assert_eq!(extern_facade_return_tys(TypeId(9), &TypeLongId::Tuple(vec![])), vec![]);
}

#[test]
fn test_extern_facade_expr_single_output() {
    let expr = extern_facade_expr(&TypeLongId::Other, vec![4], LocationId(7));
    let LoweredExpr::AtVariable(VarUsage { var_id, location }) = expr else {
        panic!("not a variable: {:?}", expr);
    };
    assert_eq!(var_id, 4);
    assert_eq!(location, LocationId(7));
}

#[test]
fn test_extern_facade_expr_tuple() {
    let tuple = TypeLongId::Tuple(vec![TypeId(1), TypeId(2)]);
    let expr = extern_facade_expr(&tuple, vec![4, 6], LocationId(7));
    let LoweredExpr::Tuple { exprs, location } = expr else {
        panic!("not a tuple: {:?}", expr);
    };
    assert_eq!(location, LocationId(7));
    assert_eq!(exprs.len(), 2);
    for (expr, var) in exprs.iter().zip([4, 6]) {
        assert!(matches!(
            expr,
            LoweredExpr::AtVariable(VarUsage { var_id, location: LocationId(7) }) if *var_id == var
        ));
    }
    // A one-entry tuple is a tuple still.
    let single = extern_facade_expr(&TypeLongId::Tuple(vec![TypeId(1)]), vec![4], LocationId(7));
    assert!(matches!(single, LoweredExpr::Tuple { .. }));
}

#[test]
fn test_build_compress() {
    let arguments = [
        CellExpression::Deref(cell(Register::FP, -5)),
        CellExpression::Deref(cell(Register::FP, -4)),
        CellExpression::Deref(cell(Register::AP, 2)),
    ];
    for (libfunc, finalize) in
        [(BlakeConcreteLibfunc::Blake2sCompress, false), (BlakeConcreteLibfunc::Blake2sFinalize, true)]
    {
        let invocation = build(libfunc, &arguments).unwrap();
        assert_eq!(invocation.instructions.len(), 1);
        let instruction = &invocation.instructions[0];
        assert!(instruction.inc_ap);
        assert_eq!(
            instruction.body,
            InstructionBody::Blake2sCompress(Blake2sCompressInstruction {
                state: cell(Register::FP, -5),
                byte_count: cell(Register::FP, -4),
                message: cell(Register::AP, 2),
                finalize,
            })
        );
        assert_eq!(
            instruction.hints,
            vec![Hint::AllocConstantSize {
                dst: cell(Register::AP, 0),
                size: ResOperand::Immediate(8)
            }]
        );
        assert_eq!(invocation.output, CellExpression::Deref(cell(Register::AP, -1)));
    }
}

#[test]
fn test_build_compress_rejects_other_expressions() {
    let deref = CellExpression::Deref(cell(Register::FP, -5));
    let others = [
        CellExpression::Immediate(3),
        CellExpression::DoubleDeref(cell(Register::AP, 0), 1),
        CellExpression::BinOp {
            op: Operation::Add,
            a: cell(Register::AP, 0),
            b: DerefOrImmediate::Immediate(1),
        },
    ];
    for other in others {
        for place in 0..3 {
            let mut arguments = [deref; 3];
            arguments[place] = other;
            assert_eq!(
                build_compress(&arguments, false).unwrap_err(),
                InvocationError::InvalidReferenceExpressionForArgument
            );
        }
        assert_eq!(other.to_deref(), None);
    }
    assert_eq!(deref.to_deref(), Some(cell(Register::FP, -5)));
}
