//! The outputs of an extern function, as the type that its signature declares.

use crate::ir::{LocationId, VarUsage, VariableId};
use itertools::Itertools;
use vstd::prelude::*;

verus! {

/// Handle of a type.
#[derive(Clone, Copy, Debug, PartialEq, Eq, Hash, Structural)]
pub struct TypeId(pub u64);

/// What stands behind the handle of a type, as far as the outputs of an
/// extern function depend on it.
#[derive(Clone, Debug)]
pub enum TypeLongId {
    /// A tuple of the given types.
    Tuple(Vec<TypeId>),
    /// Any type that is not a tuple.
    Other,
}

/// An expression that has been lowered.
#[derive(Debug)]
pub enum LoweredExpr {
    /// The value of a variable.
    AtVariable(VarUsage),
    /// A tuple of expressions.
    Tuple { exprs: Vec<LoweredExpr>, location: LocationId },
}

/// The types of the output variables of an extern function with the return
/// type `ret_ty`, behind which `long` stands: an extern function whose
/// return type is a tuple has an output variable for each entry of the tuple.
pub fn extern_facade_return_tys(ret_ty: TypeId, long: &TypeLongId) -> (tys: Vec<TypeId>)
    ensures
        tys@ == match *long {
            TypeLongId::Tuple(entries) => entries@,
            TypeLongId::Other => seq![ret_ty],
        },
{
    match long {
        TypeLongId::Tuple(entries) => {
            let mut tys: Vec<TypeId> = Vec::new();
            let mut i: usize = 0;
            while i < entries.len()
                invariant
                    i <= entries@.len(),
                    tys@ == entries@.subrange(0, i as int),
                decreases entries@.len() - i,
            {
                tys.push(entries[i]);
                proof {
                    assert(tys@ =~= entries@.subrange(0, i + 1));
                }
                i += 1;
            }
            proof {
                assert(entries@.subrange(0, i as int) =~= entries@);
            }
            tys
        },
        TypeLongId::Other => {
            let mut tys: Vec<TypeId> = Vec::new();
            tys.push(ret_ty);
            assert(tys@ =~= seq![ret_ty]);
            tys
        },
    }
}

/// `Itertools::exactly_one` on the elements of a vector: the element, where
/// there is exactly one.
#[verifier::external_body]
fn exactly_one(vars: Vec<VariableId>) -> (r: Option<VariableId>)
    ensures
        r == if vars@.len() == 1 {
            Some(vars@[0])
        } else {
            None
        },
{
    vars.into_iter().exactly_one().ok()
}

/// The use of each of `vars` at `location`, in order.
pub open spec fn uses_at(
    vars: Seq<VariableId>, location: LocationId, exprs: Seq<LoweredExpr>) -> bool {
    exprs.len() == vars.len() && forall|i: int|
        0 <= i < vars.len() ==> #[trigger] exprs[i] == LoweredExpr::AtVariable(
            VarUsage { var_id: vars[i], location },
        )
}

/// The expression that stands for the outputs `outputs` of an extern
/// function with a return type behind which `long` stands: for a tuple type
/// the tuple of the outputs, for any other type the one output.
pub fn extern_facade_expr(long: &TypeLongId, outputs: Vec<VariableId>, location: LocationId) -> (
    expr:
    LoweredExpr)
    requires
        match *long {
            TypeLongId::Tuple(entries) => outputs@.len() == entries@.len(),
            TypeLongId::Other => outputs@.len() == 1,
        },
    ensures
        match *long {
            TypeLongId::Tuple(_) => expr matches LoweredExpr::Tuple { exprs, location: at } && at
                == location && uses_at(outputs@, location, exprs@),
            TypeLongId::Other => expr == LoweredExpr::AtVariable(
                VarUsage { var_id: outputs@[0], location },
            ),
        },
{
    match long {
        TypeLongId::Tuple(_) => {
            let mut exprs: Vec<LoweredExpr> = Vec::new();
            let mut i: usize = 0;
            while i < outputs.len()
                invariant
                    i <= outputs@.len(),
                    uses_at(outputs@.subrange(0, i as int), location, exprs@),
                decreases outputs@.len() - i,
            {
                exprs.push(LoweredExpr::AtVariable(VarUsage { var_id: outputs[i], location }));
                i += 1;
            }
            proof {
                assert(outputs@.subrange(0, i as int) =~= outputs@);
            }
            LoweredExpr::Tuple { exprs, location }
        },
        TypeLongId::Other => {
            match exactly_one(outputs) {
                Some(var_id) => LoweredExpr::AtVariable(VarUsage { var_id, location }),
                None => {
                    assert(false);
                    vstd::pervasive::unreached()
                },
            }
        },
    }
}

} // verus!
