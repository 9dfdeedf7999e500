//! How operations are written as terms.

use crate::matmul::DType;
use vstd::prelude::*;

verus! {

/// A parameter of a term.
#[derive(Debug, Clone, Copy, PartialEq, Eq, Structural)]
pub enum OpParam {
    /// A tensor that the operation takes.
    Input,
    /// A size.
    Expr,
    /// A text.
    Str,
    /// A type of elements.
    Dty,
}

/// Some tensors.
pub open spec fn inputs(n: nat) -> Seq<OpParam> {
    Seq::new(n, |i: int| OpParam::Input)
}

/// Some sizes.
pub open spec fn sizes(n: nat) -> Seq<OpParam> {
    Seq::new(n, |i: int| OpParam::Expr)
}

/// An argument of a term.
#[derive(Debug)]
pub enum TermArg {
    /// The node of a tensor.
    Input(usize),
    /// The number of a size in a list of sizes.
    Expr(usize),
    Str(String),
    Dty(DType),
}

impl TermArg {
    /// The parameter that the argument is for.
    pub open spec fn kind(self) -> OpParam {
        match self {
            TermArg::Input(_) => OpParam::Input,
            TermArg::Expr(_) => OpParam::Expr,
            TermArg::Str(_) => OpParam::Str,
            TermArg::Dty(_) => OpParam::Dty,
        }
    }

    /// The number of the node or size; 0 for others.
    pub open spec fn number(self) -> usize {
        match self {
            TermArg::Input(n) => n,
            TermArg::Expr(n) => n,
            TermArg::Str(_) => 0,
            TermArg::Dty(_) => 0,
        }
    }

    fn param(&self) -> (r: OpParam)
        ensures
            r == self.kind(),
    {
        match self {
            TermArg::Input(_) => OpParam::Input,
            TermArg::Expr(_) => OpParam::Expr,
            TermArg::Str(_) => OpParam::Str,
            TermArg::Dty(_) => OpParam::Dty,
        }
    }

    pub(crate) fn read_number(&self) -> (r: usize)
        ensures
            r == self.number(),
    {
        match self {
            TermArg::Input(n) => *n,
            TermArg::Expr(n) => *n,
            TermArg::Str(_) => 0,
            TermArg::Dty(_) => 0,
        }
    }
}

/// The arguments are for the parameters, one each.
pub open spec fn fills(args: Seq<TermArg>, params: Seq<OpParam>) -> bool {
    &&& args.len() == params.len()
    &&& forall|i: int| 0 <= i < args.len() ==> (#[trigger] args[i]).kind() == params[i]
}

/// Whether the arguments are for the parameters, one each.
pub(crate) fn fill(args: &Vec<TermArg>, params: &Vec<OpParam>) -> (r: bool)
    ensures
        r == fills(args@, params@),
{
    if args.len() != params.len() {
        return false;
    }
    let mut i: usize = 0;
    while i < args.len()
        invariant
            args@.len() == params@.len(),
            i <= args@.len(),
            forall|k: int| 0 <= k < i ==> (#[trigger] args@[k]).kind() == params@[k],
        decreases args@.len() - i,
    {
        if args[i].param() != params[i] {
            assert(args@[i as int].kind() != params@[i as int]);
            return false;
        }
        i = i + 1;
    }
    true
}

/// The product of sizes, where it fits at every step.
pub(crate) fn checked_product(a: Option<usize>, b: usize) -> (r: Option<usize>)
    ensures
        r == (match a {
            Some(n) => if n * b <= usize::MAX {
                Some((n * b) as usize)
            } else {
                None
            },
            None => None,
        }),
{
    match a {
        Some(n) => n.checked_mul(b),
        None => None,
    }
}

} // verus!
