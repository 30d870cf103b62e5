//! Operands of machine instructions and the way they are written out.

use crate::text::{push_signed, signed_decimal};
use vstd::prelude::*;
use vstd::string::StringExecFns;

verus! {

/// A register that a memory cell is addressed from.
#[derive(Clone, Copy, Debug, PartialEq, Eq, Hash, Structural)]
pub enum Register {
    AP,
    FP,
}

impl Register {
    /// The name of the register, in lower case.
    pub open spec fn spec_to_string(self) -> Seq<char> {
        match self {
            Register::AP => seq!['a', 'p'],
            Register::FP => seq!['f', 'p'],
        }
    }

    /// The name of the register, in lower case.
    pub fn to_string(&self) -> (s: String)
        ensures
            s@ == self.spec_to_string(),
    {
        let mut out = String::new();
        proof {
            reveal_strlit("ap");
            reveal_strlit("fp");
        }
        match self {
            Register::AP => out.append("ap"),
            Register::FP => out.append("fp"),
        }
        assert(out@ =~= self.spec_to_string());
        out
    }
}

/// The memory cell at an offset from a register.
#[derive(Clone, Copy, Debug, PartialEq, Eq, Hash, Structural)]
pub struct CellRef {
    pub register: Register,
    pub offset: i16,
}

impl CellRef {
    /// A cell is written as the register, a plus sign and the offset, in
    /// square brackets; a negative offset keeps the plus sign.
    pub open spec fn spec_to_string(self) -> Seq<char> {
        seq!['['] + self.register.spec_to_string() + seq![' ', '+', ' '] + signed_decimal(
            self.offset as int,
        ) + seq![']']
    }

    /// Adds the text of the cell to `out`.
    fn write(&self, out: &mut String)
        ensures
            final(out)@ == old(out)@ + self.spec_to_string(),
    {
        proof {
            reveal_strlit("[");
            reveal_strlit(" + ");
            reveal_strlit("]");
        }
        out.append("[");
        let register = self.register.to_string();
        out.append(register.as_str());
        out.append(" + ");
        push_signed(out, self.offset as i128);
        out.append("]");
        assert(final(out)@ =~= old(out)@ + self.spec_to_string());
    }

    /// The text of the cell.
    pub fn to_string(&self) -> (s: String)
        ensures
            s@ == self.spec_to_string(),
    {
        let mut out = String::new();
        self.write(&mut out);
        assert(out@ =~= self.spec_to_string());
        out
    }
}

/// The value of a cell, or a constant.
#[derive(Clone, Copy, Debug, PartialEq, Eq, Hash, Structural)]
pub enum DerefOrImmediate {
    Deref(CellRef),
    Immediate(i128),
}

impl DerefOrImmediate {
    /// The text of the operand: the cell, or the constant in decimal.
    pub open spec fn spec_to_string(self) -> Seq<char> {
        match self {
            DerefOrImmediate::Deref(cell) => cell.spec_to_string(),
            DerefOrImmediate::Immediate(value) => signed_decimal(value as int),
        }
    }

    /// Adds the text of the operand to `out`.
    fn write(&self, out: &mut String)
        ensures
            final(out)@ == old(out)@ + self.spec_to_string(),
    {
        match self {
            DerefOrImmediate::Deref(cell) => cell.write(out),
            DerefOrImmediate::Immediate(value) => push_signed(out, *value),
        }
    }

    /// The text of the operand: the cell, or the constant in decimal.
    pub fn to_string(&self) -> (s: String)
        ensures
            s@ == self.spec_to_string(),
    {
        let mut out = String::new();
        self.write(&mut out);
        assert(out@ =~= self.spec_to_string());
        out
    }
}

impl From<i128> for DerefOrImmediate {
    fn from(value: i128) -> (r: DerefOrImmediate) {
        DerefOrImmediate::Immediate(value)
    }
}

impl vstd::std_specs::convert::FromSpecImpl<i128> for DerefOrImmediate {
    open spec fn obeys_from_spec() -> bool {
        true
    }

    open spec fn from_spec(value: i128) -> DerefOrImmediate {
        DerefOrImmediate::Immediate(value)
    }
}

impl From<CellRef> for DerefOrImmediate {
    fn from(cell: CellRef) -> (r: DerefOrImmediate) {
        DerefOrImmediate::Deref(cell)
    }
}

impl vstd::std_specs::convert::FromSpecImpl<CellRef> for DerefOrImmediate {
    open spec fn obeys_from_spec() -> bool {
        true
    }

    open spec fn from_spec(cell: CellRef) -> DerefOrImmediate {
        DerefOrImmediate::Deref(cell)
    }
}

/// The operation of a binary operand.
#[derive(Clone, Copy, Debug, PartialEq, Eq, Hash, Structural)]
pub enum Operation {
    Add,
    Mul,
}

impl Operation {
    /// The sign of the operation.
    pub open spec fn spec_to_string(self) -> Seq<char> {
        match self {
            Operation::Add => seq!['+'],
            Operation::Mul => seq!['*'],
        }
    }

    /// The sign of the operation.
    pub fn to_string(&self) -> (s: String)
        ensures
            s@ == self.spec_to_string(),
    {
        let mut out = String::new();
        proof {
            reveal_strlit("+");
            reveal_strlit("*");
        }
        match self {
            Operation::Add => out.append("+"),
            Operation::Mul => out.append("*"),
        }
        assert(out@ =~= self.spec_to_string());
        out
    }
}

/// An operation on a cell and on a cell or a constant.
#[derive(Clone, Copy, Debug, PartialEq, Eq, Hash, Structural)]
pub struct BinOpOperand {
    pub op: Operation,
    pub a: CellRef,
    pub b: DerefOrImmediate,
}

impl BinOpOperand {
    /// The two operands with the sign of the operation between them.
    pub open spec fn spec_to_string(self) -> Seq<char> {
        self.a.spec_to_string() + seq![' '] + self.op.spec_to_string() + seq![' ']
            + self.b.spec_to_string()
    }

    /// Adds the text of the operand to `out`.
    fn write(&self, out: &mut String)
        ensures
            final(out)@ == old(out)@ + self.spec_to_string(),
    {
        proof {
            reveal_strlit(" ");
        }
        self.a.write(out);
        out.append(" ");
        let op = self.op.to_string();
        out.append(op.as_str());
        out.append(" ");
        self.b.write(out);
        assert(final(out)@ =~= old(out)@ + self.spec_to_string());
    }

    /// The text of the operand.
    pub fn to_string(&self) -> (s: String)
        ensures
            s@ == self.spec_to_string(),
    {
        let mut out = String::new();
        self.write(&mut out);
        assert(out@ =~= self.spec_to_string());
        out
    }
}

/// The operand that gives the result of an instruction.
#[derive(Clone, Copy, Debug, PartialEq, Eq, Hash, Structural)]
pub enum ResOperand {
    /// The value of a cell.
    Deref(CellRef),
    /// The value of the cell whose address is at an offset from the value of a cell.
    DoubleDeref(CellRef, i16),
    /// A constant.
    Immediate(i128),
    /// An operation on two operands.
    BinOp(BinOpOperand),
}

impl ResOperand {
    /// The text of the operand: a cell or a constant as such, a cell at an
    /// offset from the value of a cell in square brackets, an operation as
    /// its operands around its sign.
    pub open spec fn spec_to_string(self) -> Seq<char> {
        match self {
            ResOperand::Deref(cell) => cell.spec_to_string(),
            ResOperand::DoubleDeref(cell, offset) => seq!['['] + cell.spec_to_string() + seq![
                ' ',
                '+',
                ' ',
            ] + signed_decimal(offset as int) + seq![']'],
            ResOperand::Immediate(value) => signed_decimal(value as int),
            ResOperand::BinOp(operand) => operand.spec_to_string(),
        }
    }

    /// The text of the operand.
    pub fn to_string(&self) -> (s: String)
        ensures
            s@ == self.spec_to_string(),
    {
        let mut out = String::new();
        proof {
            reveal_strlit("[");
            reveal_strlit(" + ");
            reveal_strlit("]");
        }
        match self {
            ResOperand::Deref(cell) => cell.write(&mut out),
            ResOperand::DoubleDeref(cell, offset) => {
                out.append("[");
                cell.write(&mut out);
                out.append(" + ");
                push_signed(&mut out, *offset as i128);
                out.append("]");
            },
            ResOperand::Immediate(value) => push_signed(&mut out, *value),
            ResOperand::BinOp(operand) => operand.write(&mut out),
        }
        assert(out@ =~= self.spec_to_string());
        out
    }
}

} // verus!
