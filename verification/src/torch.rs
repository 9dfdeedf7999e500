//! Graphs exported from PyTorch, read into programs of tensor operations.

use crate::parse::{parse_i32, parse_usize};
#[allow(unused_imports)]
use crate::parse::{signed_value, unsigned_value};
use crate::tensor::copy_dims;
#[allow(unused_imports)]
use crate::tensor::{lemma_product_step, product, product_fits};
#[allow(unused_imports)]
use crate::text::has_text;
use crate::text::{contains_text, same_text};
use vstd::prelude::*;

verus! {

/// A number in single precision, by its bits: 1.
pub const ONE_BITS: u32 = 1_065_353_216;

/// A number in single precision, by its bits: 0.00001.
pub const DEFAULT_EPS_BITS: u32 = 925_353_388;

/// An operation on tensors. Tensors are named by the step that makes them, and numbers
/// in single precision are given by their bits.
#[derive(Debug, Clone, Copy, PartialEq, Eq, Structural)]
pub enum TorchOp {
    /// A tensor that is given.
    Input,
    /// The tensor with whole numbers for elements.
    AsInt { input: usize },
    Add { left: usize, right: usize },
    Mul { left: usize, right: usize },
    AddScalar { input: usize, bits: u32 },
    MulScalar { input: usize, bits: u32 },
    /// Times a size.
    MulSize { input: usize, size: usize },
    /// Times a size, taken as a number in single precision.
    MulNumber { input: usize, number: usize },
    /// Divided by the square root of a size.
    ScaleByRoot { input: usize, size: usize },
    /// The numbers from 0 on.
    Arange,
    Transpose { input: usize, dim0: usize, dim1: usize },
    Matmul { left: usize, right: usize },
    ExpandDim { input: usize, axis: usize, size: usize },
    Unsqueeze { input: usize, axis: usize },
    Squeeze { input: usize, axis: usize },
    Slice { input: usize, axis: usize, start: usize, end: usize },
    LayerNorm { input: usize, axis: usize, eps_bits: u32 },
    Softmax { input: usize, axis: usize },
    Gelu { input: usize },
    Gather { input: usize, indices: usize },
    /// The stored elements in order, seen with other dimensions.
    Reinterpret { input: usize },
    /// The tensor, marked as an output.
    Output { input: usize },
}

/// An operation, and the dimensions of the tensor that it makes.
#[derive(Debug)]
pub struct Step {
    pub op: TorchOp,
    pub dims: Vec<usize>,
}

/// An operation and dimensions.
pub struct StepView {
    pub op: TorchOp,
    pub dims: Seq<usize>,
}

impl View for Step {
    type V = StepView;

    open spec fn view(&self) -> StepView {
        StepView { op: self.op, dims: self.dims@ }
    }
}

/// An argument of a node: its text, and the bits of the single-precision number that the
/// text stands for, if it stands for one.
#[derive(Debug)]
pub struct Arg {
    pub text: String,
    pub number: Option<u32>,
}

/// A keyword argument of a node.
#[derive(Debug)]
pub struct Keyword {
    pub key: String,
    pub value: Arg,
}

/// A node of an exported graph.
#[derive(Debug)]
pub struct PyTorchGraphNode {
    pub name: String,
    /// What kind of node it is: "placeholder", "call_function", "output" or "get_attr".
    pub op: String,
    /// The function that is called.
    pub target: String,
    pub args: Vec<Arg>,
    pub kwargs: Vec<Keyword>,
    pub shape: Vec<usize>,
    pub dtype: String,
    /// For a range of numbers that are not whole: how many it has.
    pub length: usize,
}

/// Why a node cannot be read.
#[derive(Debug, Clone, Copy, PartialEq, Eq, Structural)]
pub enum TorchError {
    TooFewArgs,
    /// No tensor has the name that the argument at this place gives.
    MissingTensor(usize),
    /// The argument at this place is not a number of the right kind.
    BadNumber(usize),
    /// A tensor has too few or too many axes.
    WrongRank,
    /// Dimensions do not go together.
    DimsMismatch,
    /// More than one dimension is to be inferred.
    TwoInferred,
    /// A dimension is neither positive nor to be inferred.
    BadDim,
    DimOutOfRange,
    /// The axis to be removed is not of size 1.
    NotUnit,
    /// A size is beyond the machine's.
    TooLarge,
    /// Only the approximation of GELU by the hyperbolic tangent is supported.
    ExactGelu,
    /// Only the parts of a split can be picked.
    NotASplit,
    /// The part begins after its end.
    BadRange,
    /// No keyword gives the axis to be indexed.
    MissingIndexDim,
    /// No keyword names the tensor of indices.
    MissingIndexTensor,
    /// The keyword names no tensor.
    UnknownIndexTensor,
    /// There is neither one index nor one for each place before the axis.
    UnsupportedIndices,
    /// The function is not supported.
    Unsupported,
}

/// The steps of a program, what names stand for, and the names of the outputs.
pub struct ProgramView {
    pub steps: Seq<StepView>,
    pub names: Map<Seq<char>, usize>,
    pub outputs: Seq<Seq<char>>,
}

/// A program of tensor operations.
#[derive(Debug)]
pub struct Program {
    pub steps: Vec<Step>,
    /// What names stand for: of two entries with the same name the later one counts.
    pub names: Vec<(String, usize)>,
    pub outputs: Vec<String>,
}

/// What a list of names and tensors comes to.
pub open spec fn names_of(entries: Seq<(String, usize)>) -> Map<Seq<char>, usize>
    decreases entries.len(),
{
    if entries.len() == 0 {
        Map::empty()
    } else {
        names_of(entries.drop_last()).insert(entries.last().0@, entries.last().1)
    }
}

impl View for Program {
    type V = ProgramView;

    open spec fn view(&self) -> ProgramView {
        ProgramView {
            steps: self.steps@.map_values(|s: Step| s@),
            names: names_of(self.names@),
            outputs: self.outputs@.map_values(|s: String| s@),
        }
    }
}

/// The operations' result: the program with more steps, and the tensor that came out, if
/// there is one.
pub type Made = Result<(ProgramView, Option<usize>), TorchError>;

/// Whether an operation uses only tensors of the first `n` steps.
pub open spec fn uses_below(op: TorchOp, n: int) -> bool {
    match op {
        TorchOp::Input | TorchOp::Arange => true,
        TorchOp::AsInt { input } => input < n,
        TorchOp::Add { left, right } => left < n && right < n,
        TorchOp::Mul { left, right } => left < n && right < n,
        TorchOp::AddScalar { input, .. } => input < n,
        TorchOp::MulScalar { input, .. } => input < n,
        TorchOp::MulSize { input, .. } => input < n,
        TorchOp::MulNumber { input, .. } => input < n,
        TorchOp::ScaleByRoot { input, .. } => input < n,
        TorchOp::Transpose { input, .. } => input < n,
        TorchOp::Matmul { left, right } => left < n && right < n,
        TorchOp::ExpandDim { input, .. } => input < n,
        TorchOp::Unsqueeze { input, .. } => input < n,
        TorchOp::Squeeze { input, .. } => input < n,
        TorchOp::Slice { input, .. } => input < n,
        TorchOp::LayerNorm { input, .. } => input < n,
        TorchOp::Softmax { input, .. } => input < n,
        TorchOp::Gelu { input } => input < n,
        TorchOp::Gather { input, indices } => input < n && indices < n,
        TorchOp::Reinterpret { input } => input < n,
        TorchOp::Output { input } => input < n,
    }
}

impl ProgramView {
    /// The tensor of a name.
    pub open spec fn find(self, name: Seq<char>) -> Option<usize> {
        if self.names.contains_key(name) {
            Some(self.names[name])
        } else {
            None
        }
    }

    /// The dimensions of a tensor.
    pub open spec fn dims(self, id: usize) -> Seq<usize> {
        self.steps[id as int].dims
    }

    /// The tensor that the next step makes.
    pub open spec fn next(self) -> usize {
        self.steps.len() as usize
    }

    /// With one more step.
    pub open spec fn with_step(self, op: TorchOp, dims: Seq<usize>) -> ProgramView {
        ProgramView { steps: self.steps.push(StepView { op, dims }), ..self }
    }

    /// With a name for a tensor.
    pub open spec fn with_name(self, name: Seq<char>, id: usize) -> ProgramView {
        ProgramView { names: self.names.insert(name, id), ..self }
    }

    /// Whether every step uses only tensors made before it, and names stand for tensors
    /// of the program.
    pub open spec fn wf(self) -> bool {
        &&& forall|i: int|
            0 <= i < self.steps.len() ==> uses_below(#[trigger] self.steps[i].op, i)
        &&& forall|name: Seq<char>|
            self.names.contains_key(name) ==> #[trigger] self.names[name] < self.steps.len()
    }
}

/// Whether an operation's outcome is the one wanted.
pub open spec fn is_made(r: Result<Option<usize>, TorchError>, after: ProgramView, want: Made) -> bool {
    match want {
        Ok((p, id)) => r == Ok::<Option<usize>, TorchError>(id) && after == p,
        Err(e) => r == Err::<Option<usize>, TorchError>(e),
    }
}

/// Where an operation succeeds, the program is in order, and the tensor that came out is
/// one of its.
pub open spec fn sound(r: Result<Option<usize>, TorchError>, after: ProgramView) -> bool {
    &&& r is Ok ==> after.wf()
    &&& r matches Ok(Some(id)) ==> id < after.steps.len()
}

impl Program {
    /// A program without steps.
    pub fn new() -> (r: Program)
        ensures
            r@ == (ProgramView {
                steps: Seq::empty(),
                names: Map::empty(),
                outputs: Seq::empty(),
            }),
            r@.wf(),
    {
        let r = Program { steps: Vec::new(), names: Vec::new(), outputs: Vec::new() };
        assert(r@.steps =~= Seq::empty());
        assert(r@.outputs =~= Seq::empty());
        r
    }

    fn push(&mut self, op: TorchOp, dims: Vec<usize>) -> (r: usize)
        requires
            old(self)@.wf(),
            uses_below(op, old(self)@.steps.len() as int),
        ensures
            final(self)@ == old(self)@.with_step(op, dims@),
            r == old(self)@.next(),
            r == old(self)@.steps.len(),
            final(self)@.wf(),
    {
        let id: usize = self.steps.len();
        self.steps.push(Step { op, dims });
        proof {
            let before = old(self)@;
            assert(self@.steps =~= before.steps.push(StepView { op, dims: dims@ }));
            assert forall|i: int| 0 <= i < self@.steps.len() implies uses_below(
                #[trigger] self@.steps[i].op,
                i,
            ) by {
                if i < before.steps.len() {
                    assert(self@.steps[i] == before.steps[i]);
                }
            }
            assert forall|n: Seq<char>| self@.names.contains_key(n) implies #[trigger] self@.names[n]
                < self@.steps.len() by {
                assert(before.names[n] < before.steps.len());
            }
        }
        id
    }

    fn name(&mut self, name: &String, id: usize)
        requires
            old(self)@.wf(),
            id < old(self)@.steps.len(),
        ensures
            final(self)@ == old(self)@.with_name(name@, id),
            final(self)@.wf(),
    {
        self.names.push((name.as_str().to_owned(), id));
        proof {
            assert(self.names@.drop_last() =~= old(self).names@);
            assert forall|n: Seq<char>| self@.names.contains_key(n) implies #[trigger] self@.names[n]
                < self@.steps.len() by {
                if n != name@ {
                    assert(old(self)@.names[n] < old(self)@.steps.len());
                }
            }
        }
    }

    fn find(&self, name: &str) -> (r: Option<usize>)
        requires
            self@.wf(),
        ensures
            r == self@.find(name@),
            r matches Some(id) ==> id < self.steps@.len(),
    {
        let mut i: usize = self.names.len();
        proof {
            assert(self.names@.take(i as int) =~= self.names@);
        }
        while i > 0
            invariant
                i <= self.names@.len(),
                self@.wf(),
                names_of(self.names@.take(i as int)).contains_key(name@)
                    == self@.names.contains_key(name@),
                self@.names.contains_key(name@) ==> names_of(self.names@.take(i as int))[name@]
                    == self@.names[name@],
            decreases i,
        {
            let ghost part = self.names@.take(i as int);
            proof {
                assert(part.drop_last() =~= self.names@.take(i - 1));
                assert(part.last() == self.names@[i - 1]);
            }
            if same_text(self.names[i - 1].0.as_str(), name) {
                return Some(self.names[i - 1].1);
            }
            i = i - 1;
        }
        proof {
            assert(self.names@.take(0) =~= Seq::<(String, usize)>::empty());
        }
        None
    }

    fn dims(&self, id: usize) -> (r: &Vec<usize>)
        requires
            id < self@.steps.len(),
        ensures
            r@ == self@.dims(id),
    {
        &self.steps[id].dims
    }
}

/// The sum or product of two tensors of the same dimensions.
pub open spec fn binary(p: ProgramView, mul: bool, left: usize, right: usize) -> Made {
    if p.dims(left) == p.dims(right) {
        Ok(
            (
                p.with_step(
                    if mul {
                        TorchOp::Mul { left, right }
                    } else {
                        TorchOp::Add { left, right }
                    },
                    p.dims(left),
                ),
                Some(p.next()),
            ),
        )
    } else {
        Err(TorchError::DimsMismatch)
    }
}

/// A tensor plus or times a number.
pub open spec fn with_scalar(p: ProgramView, mul: bool, input: usize, bits: u32) -> Made {
    Ok(
        (
            p.with_step(
                if mul {
                    TorchOp::MulScalar { input, bits }
                } else {
                    TorchOp::AddScalar { input, bits }
                },
                p.dims(input),
            ),
            Some(p.next()),
        ),
    )
}

/// Sum or product: of two tensors, or of a tensor and a number.
pub open spec fn arithmetic_made(p: ProgramView, args: Seq<Arg>, mul: bool) -> Made {
    if args.len() < 2 {
        Err(TorchError::TooFewArgs)
    } else {
        match (p.find(args[0].text@), p.find(args[1].text@)) {
            (Some(left), Some(right)) => binary(p, mul, left, right),
            (Some(tensor), None) => match args[1].number {
                Some(bits) => with_scalar(p, mul, tensor, bits),
                None => Err(TorchError::BadNumber(1)),
            },
            (None, Some(tensor)) => match args[0].number {
                Some(bits) => with_scalar(p, mul, tensor, bits),
                None => Err(TorchError::BadNumber(0)),
            },
            (None, None) => Err(TorchError::MissingTensor(0)),
        }
    }
}

/// The dimensions of a product of matrices, or of a row and a matrix.
pub open spec fn matmul_dims(a: Seq<usize>, b: Seq<usize>) -> Option<Seq<usize>> {
    if b.len() < 2 || a.len() < 1 || a.last() != b[b.len() - 2] {
        None
    } else if b.len() == 2 {
        Some(a.drop_last().push(b.last()))
    } else if a.len() == b.len() && a.take(a.len() - 2) == b.take(b.len() - 2) {
        Some(a.drop_last().push(b.last()))
    } else {
        None
    }
}

/// The product of two tensors as matrices.
pub open spec fn matmul_made(p: ProgramView, left: usize, right: usize) -> Made {
    match matmul_dims(p.dims(left), p.dims(right)) {
        Some(dims) => Ok(
            (p.with_step(TorchOp::Matmul { left, right }, dims), Some(p.next())),
        ),
        None => Err(TorchError::DimsMismatch),
    }
}

/// A tensor with a parameter added or multiplied, the parameter repeated along a new
/// first axis of the tensor's size.
pub open spec fn with_parameter(p: ProgramView, mul: bool, x: usize, parameter: usize) -> Made {
    let size = p.dims(x)[0];
    binary(
        p.with_step(
            TorchOp::ExpandDim { input: parameter, axis: 0, size },
            p.dims(parameter).insert(0, size),
        ),
        mul,
        x,
        p.next(),
    )
}

/// A linear layer.
pub open spec fn linear_made(p: ProgramView, args: Seq<Arg>) -> Made {
    if args.len() < 2 {
        Err(TorchError::TooFewArgs)
    } else {
        match (p.find(args[0].text@), p.find(args[1].text@)) {
            (None, _) => Err(TorchError::MissingTensor(0)),
            (_, None) => Err(TorchError::MissingTensor(1)),
            (Some(input), Some(weight)) => {
                let w = p.dims(weight);
                if w.len() != 2 {
                    Err(TorchError::WrongRank)
                } else {
                    let p1 = p.with_step(
                        TorchOp::Transpose { input: weight, dim0: 1, dim1: 0 },
                        seq![w[1], w[0]],
                    );
                    match matmul_made(p1, input, p.next()) {
                        Ok((p2, _)) => if args.len() >= 3 && p2.find(args[2].text@) is Some {
                            with_parameter(p2, false, p1.next(), p2.find(args[2].text@)->0)
                        } else {
                            Ok((p2, Some(p1.next())))
                        },
                        Err(e) => Err(e),
                    }
                }
            },
        }
    }
}

fn same_dims(a: &Vec<usize>, b: &Vec<usize>) -> (r: bool)
    ensures
        r == (a@ == b@),
{
    if a.len() != b.len() {
        return false;
    }
    let mut i: usize = 0;
    while i < a.len()
        invariant
            i <= a@.len() == b@.len(),
            forall|k: int| 0 <= k < i ==> a@[k] == b@[k],
        decreases a@.len() - i,
    {
        if a[i] != b[i] {
            return false;
        }
        i = i + 1;
    }
    assert(a@ =~= b@);
    true
}

impl Program {
    fn binary(&mut self, mul: bool, left: usize, right: usize) -> (r: Result<
        Option<usize>,
        TorchError,
    >)
        requires
            old(self)@.wf(),
            left < old(self)@.steps.len(),
            right < old(self)@.steps.len(),
        ensures
            is_made(r, final(self)@, binary(old(self)@, mul, left, right)),
            sound(r, final(self)@),
            r matches Ok(Some(id)) ==> final(self)@.dims(id) == old(self)@.dims(left),
    {
        if !same_dims(self.dims(left), self.dims(right)) {
            return Err(TorchError::DimsMismatch);
        }
        let dims = copy_dims(self.dims(left));
        let op = if mul {
            TorchOp::Mul { left, right }
        } else {
            TorchOp::Add { left, right }
        };
        let id: usize = self.push(op, dims);
        Ok(Some(id))
    }

    fn with_scalar(&mut self, mul: bool, input: usize, bits: u32) -> (r: Result<
        Option<usize>,
        TorchError,
    >)
        requires
            old(self)@.wf(),
            input < old(self)@.steps.len(),
        ensures
            is_made(r, final(self)@, with_scalar(old(self)@, mul, input, bits)),
            sound(r, final(self)@),
    {
        let dims = copy_dims(self.dims(input));
        let op = if mul {
            TorchOp::MulScalar { input, bits }
        } else {
            TorchOp::AddScalar { input, bits }
        };
        let id: usize = self.push(op, dims);
        Ok(Some(id))
    }

    /// Sum or product: of two tensors, or of a tensor and a number.
    pub fn arithmetic(&mut self, args: &Vec<Arg>, mul: bool) -> (r: Result<
        Option<usize>,
        TorchError,
    >)
        requires
            old(self)@.wf(),
        ensures
            is_made(r, final(self)@, arithmetic_made(old(self)@, args@, mul)),
            sound(r, final(self)@),
    {
        if args.len() < 2 {
            return Err(TorchError::TooFewArgs);
        }
        match (self.find(args[0].text.as_str()), self.find(args[1].text.as_str())) {
            (Some(left), Some(right)) => self.binary(mul, left, right),
            (Some(tensor), None) => match args[1].number {
                Some(bits) => self.with_scalar(mul, tensor, bits),
                None => Err(TorchError::BadNumber(1)),
            },
            (None, Some(tensor)) => match args[0].number {
                Some(bits) => self.with_scalar(mul, tensor, bits),
                None => Err(TorchError::BadNumber(0)),
            },
            (None, None) => Err(TorchError::MissingTensor(0)),
        }
    }

    fn matmul(&mut self, left: usize, right: usize) -> (r: Result<Option<usize>, TorchError>)
        requires
            old(self)@.wf(),
            left < old(self)@.steps.len(),
            right < old(self)@.steps.len(),
        ensures
            is_made(r, final(self)@, matmul_made(old(self)@, left, right)),
            r matches Ok(made) ==> made == Some(old(self)@.next()) && old(self)@.next()
                == old(self)@.steps.len(),
            sound(r, final(self)@),
    {
        let ghost a = self@.dims(left);
        let ghost b = self@.dims(right);
        let n: usize = self.steps[left].dims.len();
        let k: usize = self.steps[right].dims.len();
        if k < 2 || n < 1 || self.steps[left].dims[n - 1] != self.steps[right].dims[k - 2] {
            return Err(TorchError::DimsMismatch);
        }
        if k > 2 {
            if n != k {
                return Err(TorchError::DimsMismatch);
            }
            let mut i: usize = 0;
            while i < n - 2
                invariant
                    n == k,
                    n > 2,
                    i <= n - 2,
                    left < self.steps@.len(),
                    right < self.steps@.len(),
                    a == self.steps@[left as int].dims@,
                    b == self.steps@[right as int].dims@,
                    a.len() == n,
                    b.len() == k,
                    forall|q: int| 0 <= q < i ==> a[q] == b[q],
                decreases n - 2 - i,
            {
                if self.steps[left].dims[i] != self.steps[right].dims[i] {
                    assert(a.take(n - 2)[i as int] != b.take(n - 2)[i as int]);
                    return Err(TorchError::DimsMismatch);
                }
                i = i + 1;
            }
            assert(a.take(n - 2) =~= b.take(n - 2));
        }
        let mut dims = copy_dims(self.dims(left));
        let last: usize = self.steps[right].dims[k - 1];
        dims.set(n - 1, last);
        assert(dims@ =~= a.drop_last().push(b.last()));
        let id: usize = self.push(TorchOp::Matmul { left, right }, dims);
        Ok(Some(id))
    }

    fn with_parameter(&mut self, mul: bool, x: usize, parameter: usize) -> (r: Result<
        Option<usize>,
        TorchError,
    >)
        requires
            old(self)@.wf(),
            x < old(self)@.steps.len(),
            parameter < old(self)@.steps.len(),
            old(self)@.dims(x).len() > 0,
        ensures
            is_made(r, final(self)@, with_parameter(old(self)@, mul, x, parameter)),
            sound(r, final(self)@),
            r matches Ok(Some(id)) ==> final(self)@.dims(id) == old(self)@.dims(x),
    {
        let size: usize = self.steps[x].dims[0];
        let mut dims = copy_dims(self.dims(parameter));
        dims.insert(0, size);
        let id: usize = self.push(TorchOp::ExpandDim { input: parameter, axis: 0, size }, dims);
        self.binary(mul, x, id)
    }

    /// A linear layer.
    pub fn linear(&mut self, args: &Vec<Arg>) -> (r: Result<Option<usize>, TorchError>)
        requires
            old(self)@.wf(),
        ensures
            is_made(r, final(self)@, linear_made(old(self)@, args@)),
            sound(r, final(self)@),
    {
        if args.len() < 2 {
            return Err(TorchError::TooFewArgs);
        }
        let input: usize = match self.find(args[0].text.as_str()) {
            Some(id) => id,
            None => {
                return Err(TorchError::MissingTensor(0));
            },
        };
        let weight: usize = match self.find(args[1].text.as_str()) {
            Some(id) => id,
            None => {
                return Err(TorchError::MissingTensor(1));
            },
        };
        if self.steps[weight].dims.len() != 2 {
            return Err(TorchError::WrongRank);
        }
        let dims: Vec<usize> = vec![self.steps[weight].dims[1], self.steps[weight].dims[0]];
        proof {
            let w = self@.dims(weight);
            assert(dims@ =~= seq![w[1], w[0]]);
        }
        let flipped: usize = self.push(
            TorchOp::Transpose { input: weight, dim0: 1, dim1: 0 },
            dims,
        );
        match self.matmul(input, flipped) {
            Err(e) => Err(e),
            Ok(made) => {
                let output: usize = match made {
                    Some(id) => id,
                    None => {
                        return Ok(None);
                    },
                };
                if args.len() >= 3 {
                    if let Some(bias) = self.find(args[2].text.as_str()) {
                        assert(self@.steps[output as int].dims.len() > 0);
                        return self.with_parameter(false, output, bias);
                    }
                }
                Ok(Some(output))
            },
        }
    }
}

/// The product of some dimensions, where it fits at every step.
pub open spec fn size_of_dims(dims: Seq<usize>) -> Option<usize> {
    if product_fits(dims) {
        Some(product(dims) as usize)
    } else {
        None
    }
}

/// The whole number that an argument stands for.
pub open spec fn small_int(s: Seq<char>) -> Option<i32> {
    match signed_value(s) {
        Some(n) => if i32::MIN <= n <= i32::MAX {
            Some(n as i32)
        } else {
            None
        },
        None => None,
    }
}

/// The size that an argument stands for.
pub open spec fn size_value(s: Seq<char>) -> Option<usize> {
    match unsigned_value(s) {
        Some(n) => if n <= usize::MAX {
            Some(n as usize)
        } else {
            None
        },
        None => None,
    }
}

/// The numbers that the arguments after the first stand for, up to the one at `n`.
pub open spec fn wanted_dims(args: Seq<Arg>, n: int) -> Result<Seq<i32>, TorchError>
    decreases n,
{
    if n <= 1 {
        Ok(Seq::empty())
    } else {
        match wanted_dims(args, n - 1) {
            Ok(dims) => match small_int(args[n - 1].text@) {
                Some(d) => Ok(dims.push(d)),
                None => Err(TorchError::BadNumber((n - 1) as usize)),
            },
            Err(e) => Err(e),
        }
    }
}

/// What the first `n` wanted dimensions say: which is to be inferred, and the product of
/// the others.
pub open spec fn view_scan(target: Seq<i32>, n: int) -> Result<(Option<int>, int), TorchError>
    decreases n,
{
    if n <= 0 {
        Ok((None, 1))
    } else {
        match view_scan(target, n - 1) {
            Ok((inferred, known)) => {
                let d = target[n - 1];
                if d == -1 {
                    if inferred is Some {
                        Err(TorchError::TwoInferred)
                    } else {
                        Ok((Some(n - 1), known))
                    }
                } else if d > 0 {
                    if known * d <= usize::MAX {
                        Ok((inferred, known * d))
                    } else {
                        Err(TorchError::TooLarge)
                    }
                } else {
                    Err(TorchError::BadDim)
                }
            },
            Err(e) => Err(e),
        }
    }
}

/// The dimensions of a view: those wanted, with the one to be inferred such that the
/// number of elements stays the same.
pub open spec fn view_dims(total: int, target: Seq<i32>, inferred: Option<int>, known: int) -> Seq<
    usize,
> {
    Seq::new(
        target.len(),
        |i: int|
            if inferred == Some(i) {
                (total / known) as usize
            } else {
                target[i] as usize
            },
    )
}

/// A tensor with other dimensions.
pub open spec fn view_made(p: ProgramView, args: Seq<Arg>) -> Made {
    if args.len() < 2 {
        Err(TorchError::TooFewArgs)
    } else {
        match p.find(args[0].text@) {
            None => Err(TorchError::MissingTensor(0)),
            Some(input) => match wanted_dims(args, args.len() as int) {
                Err(e) => Err(e),
                Ok(target) => match size_of_dims(p.dims(input)) {
                    None => Err(TorchError::TooLarge),
                    Some(total) => match view_scan(target, target.len() as int) {
                        Err(e) => Err(e),
                        Ok((inferred, known)) => Ok(
                            (
                                p.with_step(
                                    TorchOp::Reinterpret { input },
                                    view_dims(total as int, target, inferred, known),
                                ),
                                Some(p.next()),
                            ),
                        ),
                    },
                },
            },
        }
    }
}

fn checked_size(v: &Vec<usize>, from: usize, to: usize) -> (r: Option<usize>)
    requires
        from <= to <= v@.len(),
    ensures
        r == size_of_dims(v@.subrange(from as int, to as int)),
{
    let ghost part = v@.subrange(from as int, to as int);
    let mut total: usize = 1;
    let mut i: usize = from;
    proof {
        assert(part.take(0) =~= Seq::<usize>::empty());
    }
    while i < to
        invariant
            from <= i <= to <= v@.len(),
            part == v@.subrange(from as int, to as int),
            total == product(part.take(i - from)),
            forall|r: int| 0 <= r <= i - from ==> #[trigger] product(part.take(r)) <= usize::MAX,
        decreases to - i,
    {
        proof {
            lemma_product_step(part, i + 1 - from);
            assert(part[i - from] == v@[i as int]);
        }
        match total.checked_mul(v[i]) {
            None => {
                proof {
                    assert(product(part.take(i + 1 - from)) > usize::MAX);
                }
                return None;
            },
            Some(next) => {
                total = next;
            },
        }
        i = i + 1;
    }
    proof {
        assert(part.take(i - from) =~= part);
    }
    Some(total)
}

/// The numbers that the arguments after the first stand for.
fn parse_wanted(args: &Vec<Arg>) -> (r: Result<Vec<i32>, TorchError>)
    requires
        args@.len() >= 1,
    ensures
        match wanted_dims(args@, args@.len() as int) {
            Ok(dims) => r matches Ok(v) && v@ == dims,
            Err(e) => r == Err::<Vec<i32>, TorchError>(e),
        },
{
    let mut target: Vec<i32> = Vec::new();
    let mut i: usize = 1;
    while i < args.len()
        invariant
            1 <= i <= args@.len(),
            wanted_dims(args@, i as int) == Ok::<Seq<i32>, TorchError>(target@),
        decreases args@.len() - i,
    {
        match parse_i32(args[i].text.as_str()) {
            Some(d) => {
                target.push(d);
            },
            None => {
                proof {
                    lemma_wanted_stays(args@, i + 1, args@.len() as int);
                }
                return Err(TorchError::BadNumber(i));
            },
        }
        i = i + 1;
    }
    Ok(target)
}

/// Which of the wanted dimensions is to be inferred, and the product of the others.
fn scan_view(target: &Vec<i32>) -> (r: Result<(Option<usize>, usize), TorchError>)
    ensures
        match view_scan(target@, target@.len() as int) {
            Ok((inferred, known)) => r matches Ok((at, n)) && n == known && n >= 1 && inferred == (
            match at {
                Some(q) => Some(q as int),
                None => None::<int>,
            }),
            Err(e) => r == Err::<(Option<usize>, usize), TorchError>(e),
        },
{
    let mut inferred: Option<usize> = None;
    let mut known: usize = 1;
    let mut k: usize = 0;
    let ghost mut at: Option<int> = None;
    while k < target.len()
        invariant
            k <= target@.len(),
            known >= 1,
            at == (match inferred {
                Some(q) => Some(q as int),
                None => None::<int>,
            }),
            view_scan(target@, k as int) == Ok::<(Option<int>, int), TorchError>(
                (at, known as int),
            ),
        decreases target@.len() - k,
    {
        let d: i32 = target[k];
        proof {
            if view_scan(target@, k + 1) is Err {
                lemma_scan_stays(target@, k + 1, target@.len() as int);
            }
        }
        if d == -1 {
            if inferred.is_some() {
                return Err(TorchError::TwoInferred);
            }
            inferred = Some(k);
            proof {
                at = Some(k as int);
            }
        } else if d > 0 {
            match known.checked_mul(d as usize) {
                Some(n) => {
                    proof {
                        let a = known as int;
                        let b = d as int;
                        assert(a * b >= 1) by (nonlinear_arith)
                            requires
                                a >= 1,
                                b >= 1,
                        ;
                    }
                    known = n;
                },
                None => {
                    return Err(TorchError::TooLarge);
                },
            }
        } else {
            return Err(TorchError::BadDim);
        }
        k = k + 1;
    }
    Ok((inferred, known))
}

fn fill_view(total: usize, target: &Vec<i32>, inferred: Option<usize>, known: usize) -> (r: Vec<usize>)
    requires
        known >= 1,
    ensures
        r@ == view_dims(
            total as int,
            target@,
            match inferred {
                Some(q) => Some(q as int),
                None => None::<int>,
            },
            known as int,
        ),
{
    let ghost at = match inferred {
        Some(q) => Some(q as int),
        None => None::<int>,
    };
    let ghost want = view_dims(total as int, target@, at, known as int);
    let mut dims: Vec<usize> = Vec::new();
    let mut j: usize = 0;
    while j < target.len()
        invariant
            j <= target@.len(),
            known >= 1,
            at == (match inferred {
                Some(q) => Some(q as int),
                None => None::<int>,
            }),
            want == view_dims(total as int, target@, at, known as int),
            dims@ == want.take(j as int),
        decreases target@.len() - j,
    {
        let is_inferred: bool = match inferred {
            Some(q) => q == j,
            None => false,
        };
        if is_inferred {
            dims.push(total / known);
        } else {
            let d: i32 = target[j];
            dims.push(#[verifier::truncate] (d as usize));
        }
        proof {
            assert(want.take(j + 1) =~= want.take(j as int).push(want[j as int]));
        }
        j = j + 1;
    }
    proof {
        assert(want.take(j as int) =~= want);
    }
    dims
}

impl Program {
    /// A tensor with other dimensions.
    pub fn view_tensor(&mut self, args: &Vec<Arg>) -> (r: Result<Option<usize>, TorchError>)
        requires
            old(self)@.wf(),
        ensures
            is_made(r, final(self)@, view_made(old(self)@, args@)),
            sound(r, final(self)@),
    {
        if args.len() < 2 {
            return Err(TorchError::TooFewArgs);
        }
        let input: usize = match self.find(args[0].text.as_str()) {
            Some(id) => id,
            None => {
                return Err(TorchError::MissingTensor(0));
            },
        };
        let target = match parse_wanted(args) {
            Ok(t) => t,
            Err(e) => {
                return Err(e);
            },
        };
        let rank: usize = self.steps[input].dims.len();
        proof {
            let d = self@.dims(input);
            assert(d.subrange(0, rank as int) =~= d);
        }
        let total: usize = match checked_size(self.dims(input), 0, rank) {
            Some(n) => n,
            None => {
                return Err(TorchError::TooLarge);
            },
        };
        let (inferred, known): (Option<usize>, usize) = match scan_view(&target) {
            Ok(found) => found,
            Err(e) => {
                return Err(e);
            },
        };
        let dims = fill_view(total, &target, inferred, known);
        let id: usize = self.push(TorchOp::Reinterpret { input }, dims);
        Ok(Some(id))
    }
}

proof fn lemma_wanted_stays(args: Seq<Arg>, n: int, k: int)
    requires
        n <= k,
        wanted_dims(args, n) is Err,
    ensures
        wanted_dims(args, k) == wanted_dims(args, n),
    decreases k - n,
{
    if n < k {
        lemma_wanted_stays(args, n, k - 1);
    }
}

proof fn lemma_scan_stays(target: Seq<i32>, n: int, k: int)
    requires
        n <= k,
        view_scan(target, n) is Err,
    ensures
        view_scan(target, k) == view_scan(target, n),
    decreases k - n,
{
    if n < k {
        lemma_scan_stays(target, n, k - 1);
    }
}

/// An axis of a tensor with `rank` axes; a negative number counts from the end.
pub open spec fn axis_of(d: int, rank: int) -> Option<usize> {
    let axis = if d < 0 {
        d + rank
    } else {
        d
    };
    if 0 <= axis < rank {
        Some(axis as usize)
    } else {
        None
    }
}

fn resolve_axis(d: i32, rank: usize) -> (r: Option<usize>)
    ensures
        r == axis_of(d as int, rank as int),
        r matches Some(axis) ==> axis < rank,
{
    if d >= 0 {
        let axis: usize = d as usize;
        if axis < rank {
            Some(axis)
        } else {
            None
        }
    } else {
        let back: u32 = (-(d as i64)) as u32;
        if back as u64 <= rank as u64 {
            Some(rank - back as usize)
        } else {
            None
        }
    }
}

/// Dimensions with two axes exchanged.
pub open spec fn swapped_dims(dims: Seq<usize>, a: int, b: int) -> Seq<usize> {
    dims.update(a, dims[b]).update(b, dims[a])
}

/// A tensor with two axes exchanged, times 1 so that its elements are stored in the new
/// order.
pub open spec fn transpose_made(p: ProgramView, args: Seq<Arg>) -> Made {
    if args.len() < 3 {
        Err(TorchError::TooFewArgs)
    } else {
        match p.find(args[0].text@) {
            None => Err(TorchError::MissingTensor(0)),
            Some(input) => match (small_int(args[1].text@), small_int(args[2].text@)) {
                (None, _) => Err(TorchError::BadNumber(1)),
                (_, None) => Err(TorchError::BadNumber(2)),
                (Some(a), Some(b)) => {
                    let rank = p.dims(input).len() as int;
                    match (axis_of(a as int, rank), axis_of(b as int, rank)) {
                        (Some(dim0), Some(dim1)) => with_scalar(
                            p.with_step(
                                TorchOp::Transpose { input, dim0, dim1 },
                                swapped_dims(p.dims(input), dim0 as int, dim1 as int),
                            ),
                            true,
                            p.next(),
                            ONE_BITS,
                        ),
                        _ => Err(TorchError::DimOutOfRange),
                    }
                },
            },
        }
    }
}

/// The tensor itself, where there is one.
pub open spec fn dropout_made(p: ProgramView, args: Seq<Arg>) -> Made {
    if args.len() >= 1 {
        Ok((p, p.find(args[0].text@)))
    } else {
        Ok((p, None))
    }
}

/// The tensor itself; `least` arguments are asked for.
pub open spec fn pass_through_made(p: ProgramView, args: Seq<Arg>, least: int) -> Made {
    if args.len() < least {
        Err(TorchError::TooFewArgs)
    } else {
        match p.find(args[0].text@) {
            None => Err(TorchError::MissingTensor(0)),
            Some(input) => Ok((p, Some(input))),
        }
    }
}

/// Where a keyword stands, from `i` on.
pub open spec fn keyword_from(kwargs: Seq<Keyword>, key: Seq<char>, i: int) -> Option<int>
    decreases kwargs.len() - i,
{
    if i >= kwargs.len() {
        None
    } else if kwargs[i].key@ == key {
        Some(i)
    } else {
        keyword_from(kwargs, key, i + 1)
    }
}

/// The value of a keyword.
pub open spec fn keyword(kwargs: Seq<Keyword>, key: Seq<char>) -> Option<Arg> {
    match keyword_from(kwargs, key, 0) {
        Some(i) => Some(kwargs[i].value),
        None => None,
    }
}

fn find_keyword<'a>(kwargs: &'a Vec<Keyword>, key: &str) -> (r: Option<&'a Arg>)
    ensures
        match keyword(kwargs@, key@) {
            Some(a) => r matches Some(b) && *b == a,
            None => r is None,
        },
{
    let mut i: usize = 0;
    while i < kwargs.len()
        invariant
            i <= kwargs@.len(),
            keyword_from(kwargs@, key@, 0) == keyword_from(kwargs@, key@, i as int),
        decreases kwargs@.len() - i,
    {
        if same_text(kwargs[i].key.as_str(), key) {
            return Some(&kwargs[i].value);
        }
        i = i + 1;
    }
    None
}

/// A tensor with the parameter that an argument names added or multiplied, where there
/// is one.
pub open spec fn with_optional(p: ProgramView, args: Seq<Arg>, at: int, mul: bool, x: usize) -> Made {
    if args.len() > at && args[at].text@ != "None"@ && p.find(args[at].text@) is Some {
        with_parameter(p, mul, x, p.find(args[at].text@)->0)
    } else {
        Ok((p, Some(x)))
    }
}

/// Layer normalization along the last axis, and then weight and bias.
pub open spec fn layer_norm_made(p: ProgramView, args: Seq<Arg>, kwargs: Seq<Keyword>) -> Made {
    if args.len() < 1 {
        Ok((p, None))
    } else {
        match p.find(args[0].text@) {
            None => Ok((p, None)),
            Some(input) => {
                let dims = p.dims(input);
                let eps_bits = match keyword(kwargs, "eps"@) {
                    Some(a) => match a.number {
                        Some(bits) => bits,
                        None => DEFAULT_EPS_BITS,
                    },
                    None => DEFAULT_EPS_BITS,
                };
                if dims.len() == 0 {
                    Err(TorchError::WrongRank)
                } else {
                    let p1 = p.with_step(
                        TorchOp::LayerNorm { input, axis: (dims.len() - 1) as usize, eps_bits },
                        dims,
                    );
                    match with_optional(p1, args, 2, true, p.next()) {
                        Ok((p2, Some(scaled))) => with_optional(p2, args, 3, false, scaled),
                        other => other,
                    }
                }
            },
        }
    }
}

/// Where the node of a name stands, from `i` on.
pub open spec fn node_from(nodes: Seq<PyTorchGraphNode>, name: Seq<char>, i: int) -> Option<int>
    decreases nodes.len() - i,
{
    if i >= nodes.len() {
        None
    } else if nodes[i].name@ == name {
        Some(i)
    } else {
        node_from(nodes, name, i + 1)
    }
}

fn find_node(nodes: &Vec<PyTorchGraphNode>, name: &str) -> (r: Option<usize>)
    ensures
        r == (match node_from(nodes@, name@, 0) {
            Some(i) => Some(i as usize),
            None => None,
        }),
        r matches Some(i) ==> i < nodes@.len() && node_from(nodes@, name@, 0) == Some(i as int),
{
    let mut i: usize = 0;
    while i < nodes.len()
        invariant
            i <= nodes@.len(),
            node_from(nodes@, name@, 0) == node_from(nodes@, name@, i as int),
        decreases nodes@.len() - i,
    {
        if same_text(nodes[i].name.as_str(), name) {
            return Some(i);
        }
        i = i + 1;
    }
    None
}

/// The part of a split: where it begins and ends along an axis of size `dim`.
pub open spec fn chunk(index: int, size: int, dim: int) -> (int, int) {
    let start = index * size;
    (
        start,
        if start + size < dim {
            start + size
        } else {
            dim
        },
    )
}

/// The part at `index` of a tensor that was split as the split's arguments say.
pub open spec fn chunk_made(p: ProgramView, container: usize, index: usize, split: Seq<Arg>) -> Made {
    let dims = p.dims(container);
    match size_value(split[1].text@) {
        None => Err(TorchError::BadNumber(1)),
        Some(size) => match (if split.len() >= 3 {
            small_int(split[2].text@)
        } else {
            Some(0i32)
        }) {
            None => Err(TorchError::BadNumber(2)),
            Some(d) => match axis_of(d as int, dims.len() as int) {
                None => Err(TorchError::DimOutOfRange),
                Some(axis) => {
                    let (start, end) = chunk(index as int, size as int, dims[axis as int] as int);
                    if start + size > usize::MAX {
                        Err(TorchError::TooLarge)
                    } else if start > end {
                        Err(TorchError::BadRange)
                    } else {
                        with_scalar(
                            p.with_step(
                                TorchOp::Slice {
                                    input: container,
                                    axis,
                                    start: start as usize,
                                    end: end as usize,
                                },
                                dims.update(axis as int, (end - start) as usize),
                            ),
                            true,
                            p.next(),
                            ONE_BITS,
                        )
                    }
                },
            },
        },
    }
}

/// A part of a tensor that was split, times 1 so that its elements are stored on their
/// own.
pub open spec fn getitem_made(p: ProgramView, nodes: Seq<PyTorchGraphNode>, args: Seq<Arg>) -> Made {
    if args.len() < 2 {
        Err(TorchError::TooFewArgs)
    } else {
        match (size_value(args[1].text@), p.find(args[0].text@)) {
            (None, _) => Err(TorchError::BadNumber(1)),
            (_, None) => Err(TorchError::MissingTensor(0)),
            (Some(index), Some(container)) => match node_from(nodes, args[0].text@, 0) {
                None => Err(TorchError::NotASplit),
                Some(k) => if nodes[k].target@ == "aten.split.Tensor"@ && nodes[k].args@.len() >= 2 {
                    chunk_made(p, container, index, nodes[k].args@)
                } else {
                    Err(TorchError::NotASplit)
                },
            },
        }
    }
}

impl Program {
    /// A tensor with two axes exchanged.
    pub fn transpose(&mut self, args: &Vec<Arg>) -> (r: Result<Option<usize>, TorchError>)
        requires
            old(self)@.wf(),
        ensures
            is_made(r, final(self)@, transpose_made(old(self)@, args@)),
            sound(r, final(self)@),
    {
        if args.len() < 3 {
            return Err(TorchError::TooFewArgs);
        }
        let input: usize = match self.find(args[0].text.as_str()) {
            Some(id) => id,
            None => {
                return Err(TorchError::MissingTensor(0));
            },
        };
        let a: i32 = match parse_i32(args[1].text.as_str()) {
            Some(d) => d,
            None => {
                return Err(TorchError::BadNumber(1));
            },
        };
        let b: i32 = match parse_i32(args[2].text.as_str()) {
            Some(d) => d,
            None => {
                return Err(TorchError::BadNumber(2));
            },
        };
        let rank: usize = self.steps[input].dims.len();
        match (resolve_axis(a, rank), resolve_axis(b, rank)) {
            (Some(dim0), Some(dim1)) => {
                let mut dims = copy_dims(self.dims(input));
                let first: usize = dims[dim0];
                let second: usize = dims[dim1];
                dims.set(dim0, second);
                dims.set(dim1, first);
                let id: usize = self.push(TorchOp::Transpose { input, dim0, dim1 }, dims);
                self.with_scalar(true, id, ONE_BITS)
            },
            _ => Err(TorchError::DimOutOfRange),
        }
    }

    /// Dropout, which does nothing.
    pub fn dropout(&mut self, args: &Vec<Arg>) -> (r: Result<Option<usize>, TorchError>)
        requires
            old(self)@.wf(),
        ensures
            is_made(r, final(self)@, dropout_made(old(self)@, args@)),
            sound(r, final(self)@),
    {
        if args.len() >= 1 {
            Ok(self.find(args[0].text.as_str()))
        } else {
            Ok(None)
        }
    }

    /// A tensor under another name.
    pub fn pass_through(&mut self, args: &Vec<Arg>, least: usize) -> (r: Result<
        Option<usize>,
        TorchError,
    >)
        requires
            old(self)@.wf(),
            least >= 1,
        ensures
            is_made(r, final(self)@, pass_through_made(old(self)@, args@, least as int)),
            sound(r, final(self)@),
    {
        if args.len() < least {
            return Err(TorchError::TooFewArgs);
        }
        match self.find(args[0].text.as_str()) {
            Some(id) => Ok(Some(id)),
            None => Err(TorchError::MissingTensor(0)),
        }
    }

    fn with_optional(&mut self, args: &Vec<Arg>, at: usize, mul: bool, x: usize) -> (r: Result<
        Option<usize>,
        TorchError,
    >)
        requires
            old(self)@.wf(),
            x < old(self)@.steps.len(),
            old(self)@.dims(x).len() > 0,
        ensures
            is_made(r, final(self)@, with_optional(old(self)@, args@, at as int, mul, x)),
            sound(r, final(self)@),
            r matches Ok(Some(id)) ==> final(self)@.dims(id) == old(self)@.dims(x),
            r is Ok ==> r->Ok_0 is Some,
    {
        if args.len() > at && !same_text(args[at].text.as_str(), "None") {
            if let Some(parameter) = self.find(args[at].text.as_str()) {
                return self.with_parameter(mul, x, parameter);
            }
        }
        Ok(Some(x))
    }

    /// Layer normalization along the last axis, and then weight and bias.
    pub fn layer_norm(&mut self, args: &Vec<Arg>, kwargs: &Vec<Keyword>) -> (r: Result<
        Option<usize>,
        TorchError,
    >)
        requires
            old(self)@.wf(),
        ensures
            is_made(r, final(self)@, layer_norm_made(old(self)@, args@, kwargs@)),
            sound(r, final(self)@),
    {
        if args.len() < 1 {
            return Ok(None);
        }
        let input: usize = match self.find(args[0].text.as_str()) {
            Some(id) => id,
            None => {
                return Ok(None);
            },
        };
        let eps_bits: u32 = match find_keyword(kwargs, "eps") {
            Some(a) => match a.number {
                Some(bits) => bits,
                None => DEFAULT_EPS_BITS,
            },
            None => DEFAULT_EPS_BITS,
        };
        let rank: usize = self.steps[input].dims.len();
        if rank == 0 {
            return Err(TorchError::WrongRank);
        }
        let dims = copy_dims(self.dims(input));
        let normed: usize = self.push(TorchOp::LayerNorm { input, axis: rank - 1, eps_bits }, dims);
        match self.with_optional(args, 2, true, normed) {
            Err(e) => Err(e),
            Ok(made) => match made {
                Some(scaled) => self.with_optional(args, 3, false, scaled),
                None => Ok(None),
            },
        }
    }

    fn chunk(&mut self, container: usize, index: usize, split: &Vec<Arg>) -> (r: Result<
        Option<usize>,
        TorchError,
    >)
        requires
            old(self)@.wf(),
            container < old(self)@.steps.len(),
            split@.len() >= 2,
        ensures
            is_made(r, final(self)@, chunk_made(old(self)@, container, index, split@)),
            sound(r, final(self)@),
    {
        let size: usize = match parse_usize(split[1].text.as_str()) {
            Some(n) => n,
            None => {
                return Err(TorchError::BadNumber(1));
            },
        };
        let d: i32 = if split.len() >= 3 {
            match parse_i32(split[2].text.as_str()) {
                Some(d) => d,
                None => {
                    return Err(TorchError::BadNumber(2));
                },
            }
        } else {
            0
        };
        let rank: usize = self.steps[container].dims.len();
        let axis: usize = match resolve_axis(d, rank) {
            Some(a) => a,
            None => {
                return Err(TorchError::DimOutOfRange);
            },
        };
        let dim: usize = self.steps[container].dims[axis];
        proof {
            assert(index * size >= 0) by (nonlinear_arith)
                requires
                    index >= 0,
                    size >= 0,
            ;
        }
        let start: usize = match index.checked_mul(size) {
            Some(n) => n,
            None => {
                return Err(TorchError::TooLarge);
            },
        };
        let stop: usize = match start.checked_add(size) {
            Some(n) => n,
            None => {
                return Err(TorchError::TooLarge);
            },
        };
        let end: usize = if stop < dim {
            stop
        } else {
            dim
        };
        if start > end {
            return Err(TorchError::BadRange);
        }
        let mut dims = copy_dims(self.dims(container));
        dims.set(axis, end - start);
        let id: usize = self.push(TorchOp::Slice { input: container, axis, start, end }, dims);
        self.with_scalar(true, id, ONE_BITS)
    }

    /// A part of a tensor that was split.
    pub fn getitem(&mut self, nodes: &Vec<PyTorchGraphNode>, args: &Vec<Arg>) -> (r: Result<
        Option<usize>,
        TorchError,
    >)
        requires
            old(self)@.wf(),
        ensures
            is_made(r, final(self)@, getitem_made(old(self)@, nodes@, args@)),
            sound(r, final(self)@),
    {
        if args.len() < 2 {
            return Err(TorchError::TooFewArgs);
        }
        let index: usize = match parse_usize(args[1].text.as_str()) {
            Some(n) => n,
            None => {
                return Err(TorchError::BadNumber(1));
            },
        };
        let container: usize = match self.find(args[0].text.as_str()) {
            Some(id) => id,
            None => {
                return Err(TorchError::MissingTensor(0));
            },
        };
        match find_node(nodes, args[0].text.as_str()) {
            None => Err(TorchError::NotASplit),
            Some(k) => {
                if same_text(nodes[k].target.as_str(), "aten.split.Tensor") && nodes[k].args.len()
                    >= 2 {
                    self.chunk(container, index, &nodes[k].args)
                } else {
                    Err(TorchError::NotASplit)
                }
            },
        }
    }
}

/// A tensor with a new axis of size 1.
pub open spec fn unsqueeze_made(p: ProgramView, args: Seq<Arg>) -> Made {
    if args.len() < 2 {
        Err(TorchError::TooFewArgs)
    } else {
        match (p.find(args[0].text@), small_int(args[1].text@)) {
            (None, _) => Err(TorchError::MissingTensor(0)),
            (_, None) => Err(TorchError::BadNumber(1)),
            (Some(input), Some(d)) => {
                let dims = p.dims(input);
                if dims.len() >= usize::MAX {
                    Err(TorchError::TooLarge)
                } else {
                    match axis_of(d as int, dims.len() as int + 1) {
                        None => Err(TorchError::DimOutOfRange),
                        Some(axis) => Ok(
                            (
                                p.with_step(
                                    TorchOp::Unsqueeze { input, axis },
                                    dims.insert(axis as int, 1),
                                ),
                                Some(p.next()),
                            ),
                        ),
                    }
                }
            },
        }
    }
}

/// A tensor without an axis of size 1.
pub open spec fn squeeze_made(p: ProgramView, args: Seq<Arg>) -> Made {
    if args.len() < 2 {
        Err(TorchError::TooFewArgs)
    } else {
        match (p.find(args[0].text@), small_int(args[1].text@)) {
            (None, _) => Err(TorchError::MissingTensor(0)),
            (_, None) => Err(TorchError::BadNumber(1)),
            (Some(input), Some(d)) => {
                let dims = p.dims(input);
                match axis_of(d as int, dims.len() as int) {
                    None => Err(TorchError::DimOutOfRange),
                    Some(axis) => if dims[axis as int] != 1 {
                        Err(TorchError::NotUnit)
                    } else {
                        Ok(
                            (
                                p.with_step(
                                    TorchOp::Squeeze { input, axis },
                                    dims.remove(axis as int),
                                ),
                                Some(p.next()),
                            ),
                        )
                    },
                }
            },
        }
    }
}

/// The numbers from 0 to before the argument.
pub open spec fn arange_made(p: ProgramView, args: Seq<Arg>) -> Made {
    if args.len() < 1 {
        Err(TorchError::TooFewArgs)
    } else {
        match size_value(args[0].text@) {
            None => Err(TorchError::BadNumber(0)),
            Some(end) => Ok((p.with_step(TorchOp::Arange, seq![end]), Some(p.next()))),
        }
    }
}

/// `length` numbers from the first argument on.
pub open spec fn arange_start_made(p: ProgramView, args: Seq<Arg>, length: usize) -> Made {
    if args.len() < 2 {
        Err(TorchError::TooFewArgs)
    } else {
        match (args[0].number, args[1].number) {
            (None, _) => Err(TorchError::BadNumber(0)),
            (_, None) => Err(TorchError::BadNumber(1)),
            (Some(start), Some(_)) => with_scalar(
                p.with_step(TorchOp::Arange, seq![length]),
                false,
                p.next(),
                start,
            ),
        }
    }
}

/// `length` numbers from the first argument on, the third argument apart.
pub open spec fn arange_step_made(p: ProgramView, args: Seq<Arg>, length: usize) -> Made {
    if args.len() < 3 {
        Err(TorchError::TooFewArgs)
    } else {
        match (args[0].number, args[1].number, args[2].number) {
            (None, _, _) => Err(TorchError::BadNumber(0)),
            (_, None, _) => Err(TorchError::BadNumber(1)),
            (_, _, None) => Err(TorchError::BadNumber(2)),
            (Some(start), Some(_), Some(step)) => {
                let p1 = p.with_step(TorchOp::Arange, seq![length]);
                let p2 = p1.with_step(
                    TorchOp::MulScalar { input: p.next(), bits: step },
                    seq![length],
                );
                with_scalar(p2, false, p1.next(), start)
            },
        }
    }
}

/// Attention: how much each query heeds each key, and the values taken accordingly.
pub open spec fn attention_made(p: ProgramView, args: Seq<Arg>) -> Made {
    if args.len() < 3 {
        Err(TorchError::TooFewArgs)
    } else {
        match (p.find(args[0].text@), p.find(args[1].text@), p.find(args[2].text@)) {
            (None, _, _) => Err(TorchError::MissingTensor(0)),
            (_, None, _) => Err(TorchError::MissingTensor(1)),
            (_, _, None) => Err(TorchError::MissingTensor(2)),
            (Some(query), Some(key), Some(value)) => {
                let rank = p.dims(key).len();
                if p.dims(query).len() == 0 || rank < 2 {
                    Err(TorchError::WrongRank)
                } else {
                    let p1 = p.with_step(
                        TorchOp::Transpose {
                            input: key,
                            dim0: (rank - 2) as usize,
                            dim1: (rank - 1) as usize,
                        },
                        swapped_dims(p.dims(key), rank - 2, rank - 1),
                    );
                    match matmul_made(p1, query, p.next()) {
                        Err(e) => Err(e),
                        Ok((p2, _)) => {
                            let scores = p1.next();
                            let dims = p2.dims(scores);
                            let p3 = p2.with_step(
                                TorchOp::ScaleByRoot {
                                    input: scores,
                                    size: p.dims(query).last(),
                                },
                                dims,
                            );
                            if rank > dims.len() {
                                Err(TorchError::WrongRank)
                            } else {
                                let p4 = p3.with_step(
                                    TorchOp::Softmax {
                                        input: p2.next(),
                                        axis: (rank - 1) as usize,
                                    },
                                    dims,
                                );
                                matmul_made(p4, p3.next(), value)
                            }
                        },
                    }
                }
            },
        }
    }
}

/// The activation GELU, in the approximation by the hyperbolic tangent.
pub open spec fn gelu_made(p: ProgramView, args: Seq<Arg>, kwargs: Seq<Keyword>) -> Made {
    let tanh = match keyword(kwargs, "approximate"@) {
        Some(a) => a.text@ == "tanh"@,
        None => false,
    };
    if !tanh {
        Err(TorchError::ExactGelu)
    } else if args.len() < 1 {
        Ok((p, None))
    } else {
        match p.find(args[0].text@) {
            None => Ok((p, None)),
            Some(input) => Ok(
                (p.with_step(TorchOp::Gelu { input }, p.dims(input)), Some(p.next())),
            ),
        }
    }
}

impl Program {
    /// A tensor with a new axis of size 1.
    pub fn unsqueeze(&mut self, args: &Vec<Arg>) -> (r: Result<Option<usize>, TorchError>)
        requires
            old(self)@.wf(),
        ensures
            is_made(r, final(self)@, unsqueeze_made(old(self)@, args@)),
            sound(r, final(self)@),
    {
        if args.len() < 2 {
            return Err(TorchError::TooFewArgs);
        }
        let input: usize = match self.find(args[0].text.as_str()) {
            Some(id) => id,
            None => {
                return Err(TorchError::MissingTensor(0));
            },
        };
        let d: i32 = match parse_i32(args[1].text.as_str()) {
            Some(d) => d,
            None => {
                return Err(TorchError::BadNumber(1));
            },
        };
        let rank: usize = self.steps[input].dims.len();
        if rank == usize::MAX {
            return Err(TorchError::TooLarge);
        }
        match resolve_axis(d, rank + 1) {
            None => Err(TorchError::DimOutOfRange),
            Some(axis) => {
                let mut dims = copy_dims(self.dims(input));
                dims.insert(axis, 1);
                let id: usize = self.push(TorchOp::Unsqueeze { input, axis }, dims);
                Ok(Some(id))
            },
        }
    }

    /// A tensor without an axis of size 1.
    pub fn squeeze(&mut self, args: &Vec<Arg>) -> (r: Result<Option<usize>, TorchError>)
        requires
            old(self)@.wf(),
        ensures
            is_made(r, final(self)@, squeeze_made(old(self)@, args@)),
            sound(r, final(self)@),
    {
        if args.len() < 2 {
            return Err(TorchError::TooFewArgs);
        }
        let input: usize = match self.find(args[0].text.as_str()) {
            Some(id) => id,
            None => {
                return Err(TorchError::MissingTensor(0));
            },
        };
        let d: i32 = match parse_i32(args[1].text.as_str()) {
            Some(d) => d,
            None => {
                return Err(TorchError::BadNumber(1));
            },
        };
        let rank: usize = self.steps[input].dims.len();
        match resolve_axis(d, rank) {
            None => Err(TorchError::DimOutOfRange),
            Some(axis) => {
                if self.steps[input].dims[axis] != 1 {
                    return Err(TorchError::NotUnit);
                }
                let mut dims = copy_dims(self.dims(input));
                dims.remove(axis);
                let id: usize = self.push(TorchOp::Squeeze { input, axis }, dims);
                Ok(Some(id))
            },
        }
    }

    fn push_arange(&mut self, length: usize) -> (r: usize)
        requires
            old(self)@.wf(),
        ensures
            final(self)@ == old(self)@.with_step(TorchOp::Arange, seq![length]),
            r == old(self)@.next(),
            r == old(self)@.steps.len(),
            final(self)@.wf(),
    {
        let dims: Vec<usize> = vec![length];
        assert(dims@ =~= seq![length]);
        self.push(TorchOp::Arange, dims)
    }

    /// The numbers from 0 to before the argument.
    pub fn arange(&mut self, args: &Vec<Arg>) -> (r: Result<Option<usize>, TorchError>)
        requires
            old(self)@.wf(),
        ensures
            is_made(r, final(self)@, arange_made(old(self)@, args@)),
            sound(r, final(self)@),
    {
        if args.len() < 1 {
            return Err(TorchError::TooFewArgs);
        }
        match parse_usize(args[0].text.as_str()) {
            None => Err(TorchError::BadNumber(0)),
            Some(end) => {
                let id: usize = self.push_arange(end);
                Ok(Some(id))
            },
        }
    }

    /// `length` numbers from the first argument on.
    pub fn arange_start(&mut self, args: &Vec<Arg>, length: usize) -> (r: Result<
        Option<usize>,
        TorchError,
    >)
        requires
            old(self)@.wf(),
        ensures
            is_made(r, final(self)@, arange_start_made(old(self)@, args@, length)),
            sound(r, final(self)@),
    {
        if args.len() < 2 {
            return Err(TorchError::TooFewArgs);
        }
        match (args[0].number, args[1].number) {
            (None, _) => Err(TorchError::BadNumber(0)),
            (_, None) => Err(TorchError::BadNumber(1)),
            (Some(start), Some(_)) => {
                let id: usize = self.push_arange(length);
                self.with_scalar(false, id, start)
            },
        }
    }

    /// `length` numbers from the first argument on, the third argument apart.
    pub fn arange_step(&mut self, args: &Vec<Arg>, length: usize) -> (r: Result<
        Option<usize>,
        TorchError,
    >)
        requires
            old(self)@.wf(),
        ensures
            is_made(r, final(self)@, arange_step_made(old(self)@, args@, length)),
            sound(r, final(self)@),
    {
        if args.len() < 3 {
            return Err(TorchError::TooFewArgs);
        }
        match (args[0].number, args[1].number, args[2].number) {
            (None, _, _) => Err(TorchError::BadNumber(0)),
            (_, None, _) => Err(TorchError::BadNumber(1)),
            (_, _, None) => Err(TorchError::BadNumber(2)),
            (Some(start), Some(_), Some(step)) => {
                let id: usize = self.push_arange(length);
                let dims: Vec<usize> = vec![length];
                assert(dims@ =~= seq![length]);
                let scaled: usize = self.push(TorchOp::MulScalar { input: id, bits: step }, dims);
                self.with_scalar(false, scaled, start)
            },
        }
    }

    /// Attention.
    pub fn attention(&mut self, args: &Vec<Arg>) -> (r: Result<Option<usize>, TorchError>)
        requires
            old(self)@.wf(),
        ensures
            is_made(r, final(self)@, attention_made(old(self)@, args@)),
            sound(r, final(self)@),
    {
        if args.len() < 3 {
            return Err(TorchError::TooFewArgs);
        }
        let query: usize = match self.find(args[0].text.as_str()) {
            Some(id) => id,
            None => {
                return Err(TorchError::MissingTensor(0));
            },
        };
        let key: usize = match self.find(args[1].text.as_str()) {
            Some(id) => id,
            None => {
                return Err(TorchError::MissingTensor(1));
            },
        };
        let value: usize = match self.find(args[2].text.as_str()) {
            Some(id) => id,
            None => {
                return Err(TorchError::MissingTensor(2));
            },
        };
        let query_rank: usize = self.steps[query].dims.len();
        let rank: usize = self.steps[key].dims.len();
        if query_rank == 0 || rank < 2 {
            return Err(TorchError::WrongRank);
        }
        let head_dim: usize = self.steps[query].dims[query_rank - 1];
        let mut dims = copy_dims(self.dims(key));
        let first: usize = dims[rank - 2];
        let second: usize = dims[rank - 1];
        dims.set(rank - 2, second);
        dims.set(rank - 1, first);
        let flipped: usize = self.push(
            TorchOp::Transpose { input: key, dim0: rank - 2, dim1: rank - 1 },
            dims,
        );
        let scores: usize = match self.matmul(query, flipped) {
            Err(e) => {
                return Err(e);
            },
            Ok(made) => match made {
                Some(id) => id,
                None => {
                    return Ok(None);
                },
            },
        };
        let score_dims = copy_dims(self.dims(scores));
        let score_rank: usize = score_dims.len();
        let soft_dims = copy_dims(&score_dims);
        let scaled: usize = self.push(
            TorchOp::ScaleByRoot { input: scores, size: head_dim },
            score_dims,
        );
        if rank > score_rank {
            return Err(TorchError::WrongRank);
        }
        let weights: usize = self.push(TorchOp::Softmax { input: scaled, axis: rank - 1 }, soft_dims);
        self.matmul(weights, value)
    }

    /// The activation GELU, in the approximation by the hyperbolic tangent.
    pub fn gelu(&mut self, args: &Vec<Arg>, kwargs: &Vec<Keyword>) -> (r: Result<
        Option<usize>,
        TorchError,
    >)
        requires
            old(self)@.wf(),
        ensures
            is_made(r, final(self)@, gelu_made(old(self)@, args@, kwargs@)),
            sound(r, final(self)@),
    {
        let tanh: bool = match find_keyword(kwargs, "approximate") {
            Some(a) => same_text(a.text.as_str(), "tanh"),
            None => false,
        };
        if !tanh {
            return Err(TorchError::ExactGelu);
        }
        if args.len() < 1 {
            return Ok(None);
        }
        match self.find(args[0].text.as_str()) {
            None => Ok(None),
            Some(input) => {
                let dims = copy_dims(self.dims(input));
                let id: usize = self.push(TorchOp::Gelu { input }, dims);
                Ok(Some(id))
            },
        }
    }
}

/// A tensor repeated along new first axes, of the first `n` of the given sizes.
pub open spec fn expanded_front(p: ProgramView, id: usize, sizes: Seq<usize>, n: nat) -> (
    ProgramView,
    usize,
)
    decreases n,
{
    if n == 0 {
        (p, id)
    } else {
        let (q, last) = expanded_front(p, id, sizes, (n - 1) as nat);
        let size = sizes[n - 1];
        (
            q.with_step(
                TorchOp::ExpandDim { input: last, axis: (n - 1) as usize, size },
                q.dims(last).insert(n - 1, size),
            ),
            q.next(),
        )
    }
}

/// The rows of a table, `size` long, at the places that a tensor of numbers gives.
pub open spec fn rows_made(p: ProgramView, table: usize, rows: usize, size: usize) -> Made {
    let dims = p.dims(rows);
    let p1 = p.with_step(TorchOp::MulSize { input: rows, size }, dims);
    let p2 = p1.with_step(
        TorchOp::ExpandDim { input: p.next(), axis: dims.len() as usize, size },
        dims.push(size),
    );
    let p3 = p2.with_step(TorchOp::Arange, seq![size]);
    let (p4, offset) = expanded_front(p3, p2.next(), dims, dims.len());
    match binary(p4, false, p1.next(), offset) {
        Ok((p5, _)) => Ok(
            (
                p5.with_step(
                    TorchOp::Gather { input: table, indices: p4.next() },
                    p5.dims(p4.next()),
                ),
                Some(p5.next()),
            ),
        ),
        Err(e) => Err(e),
    }
}

/// The rows of a weight that the indices pick.
pub open spec fn embedding_made(p: ProgramView, args: Seq<Arg>) -> Made {
    if args.len() < 2 {
        Err(TorchError::TooFewArgs)
    } else {
        match (p.find(args[0].text@), p.find(args[1].text@)) {
            (None, _) => Err(TorchError::MissingTensor(0)),
            (_, None) => Err(TorchError::MissingTensor(1)),
            (Some(weight), Some(indices)) => if p.dims(weight).len() < 2 {
                Err(TorchError::WrongRank)
            } else {
                rows_made(p, weight, indices, p.dims(weight)[1])
            },
        }
    }
}

/// A tensor without `n` axes of size 1 that stand behind its first.
pub open spec fn dropped_behind_first(p: ProgramView, id: usize, n: nat) -> (ProgramView, usize)
    decreases n,
{
    if n == 0 {
        (p, id)
    } else {
        let (q, last) = dropped_behind_first(p, id, (n - 1) as nat);
        (
            q.with_step(TorchOp::Squeeze { input: last, axis: 1 }, q.dims(last).remove(1)),
            q.next(),
        )
    }
}

/// One index for each of `prefix` places: the indices as they are, or one index repeated
/// along an axis that takes the place of all that it has.
pub open spec fn spread_indices(p: ProgramView, indices: usize, prefix: usize) -> Made {
    let (p1, idx) = if p.dims(indices).len() == 0 {
        (p.with_step(TorchOp::Unsqueeze { input: indices, axis: 0 }, seq![1usize]), p.next())
    } else {
        (p, indices)
    };
    match size_of_dims(p1.dims(idx)) {
        None => Err(TorchError::TooLarge),
        Some(n) => if n == 1 {
            let (p2, spread) = if prefix != 1 {
                (
                    p1.with_step(
                        TorchOp::ExpandDim { input: idx, axis: 0, size: prefix },
                        p1.dims(idx).insert(0, prefix),
                    ),
                    p1.next(),
                )
            } else {
                (p1, idx)
            };
            let (p3, last) = dropped_behind_first(
                p2,
                spread,
                (p2.dims(spread).len() - 1) as nat,
            );
            Ok((p3, Some(last)))
        } else if n != prefix {
            Err(TorchError::UnsupportedIndices)
        } else {
            Ok((p1, Some(idx)))
        },
    }
}

/// A tensor of whose axis `axis` one place is picked for every place before it.
pub open spec fn picked_made(p: ProgramView, input: usize, axis: usize, indices: usize) -> Made {
    let dims = p.dims(input);
    match (size_of_dims(dims.take(axis as int)), size_of_dims(dims.skip(axis + 1))) {
        (Some(prefix), Some(suffix)) => {
            let indexed = dims[axis as int];
            if prefix * indexed > usize::MAX {
                Err(TorchError::TooLarge)
            } else {
                let p1 = p.with_step(
                    TorchOp::Reinterpret { input },
                    seq![(prefix * indexed) as usize, suffix],
                );
                match spread_indices(p1, indices, prefix) {
                    Ok((p2, Some(idx))) => {
                        let p3 = p2.with_step(TorchOp::Arange, seq![prefix]);
                        let p4 = p3.with_step(
                            TorchOp::MulNumber { input: p2.next(), number: indexed },
                            seq![prefix],
                        );
                        match binary(p4, false, p3.next(), idx) {
                            Ok((p5, _)) => match rows_made(p5, p.next(), p4.next(), suffix) {
                                Ok((p6, Some(rows))) => Ok(
                                    (
                                        p6.with_step(
                                            TorchOp::Reinterpret { input: rows },
                                            dims.update(axis as int, 1),
                                        ),
                                        Some(p6.next()),
                                    ),
                                ),
                                other => other,
                            },
                            Err(e) => Err(e),
                        }
                    },
                    other => other,
                }
            }
        },
        _ => Err(TorchError::TooLarge),
    }
}

/// Indexing along one axis by a tensor of whole numbers. Which axis and which tensor the
/// keywords say.
pub open spec fn index_made(p: ProgramView, args: Seq<Arg>, kwargs: Seq<Keyword>) -> Made {
    if args.len() < 1 {
        Err(TorchError::TooFewArgs)
    } else {
        match p.find(args[0].text@) {
            None => Err(TorchError::MissingTensor(0)),
            Some(input) => match (match keyword(kwargs, "index_dim"@) {
                Some(a) => size_value(a.text@),
                None => None,
            }) {
                None => Err(TorchError::MissingIndexDim),
                Some(axis) => match keyword(kwargs, "index_tensor"@) {
                    None => Err(TorchError::MissingIndexTensor),
                    Some(a) => match p.find(a.text@) {
                        None => Err(TorchError::UnknownIndexTensor),
                        Some(indices) => if axis >= p.dims(input).len() {
                            Err(TorchError::DimOutOfRange)
                        } else {
                            picked_made(p, input, axis, indices)
                        },
                    },
                },
            },
        }
    }
}

proof fn lemma_expanded_len(p: ProgramView, id: usize, sizes: Seq<usize>, n: nat)
    ensures
        expanded_front(p, id, sizes, n).0.steps.len() == p.steps.len() + n,
    decreases n,
{
    if n > 0 {
        lemma_expanded_len(p, id, sizes, (n - 1) as nat);
    }
}

impl Program {
    fn expand_front(&mut self, id: usize, sizes: &Vec<usize>) -> (r: usize)
        requires
            old(self)@.wf(),
            id < old(self)@.steps.len(),
        ensures
            (final(self)@, r) == expanded_front(old(self)@, id, sizes@, sizes@.len()),
            final(self)@.wf(),
            r < final(self)@.steps.len(),
            final(self)@.steps.len() == old(self)@.steps.len() + sizes@.len(),
    {
        let ghost p = self@;
        let mut cur: usize = id;
        let mut i: usize = 0;
        let n: usize = self.steps[id].dims.len();
        while i < sizes.len()
            invariant
                i <= sizes@.len(),
                self@.wf(),
                cur < self@.steps.len(),
                self@.dims(cur).len() == n + i,
                (self@, cur) == expanded_front(p, id, sizes@, i as nat),
            decreases sizes@.len() - i,
        {
            let mut dims = copy_dims(self.dims(cur));
            let size: usize = sizes[i];
            dims.insert(i, size);
            cur = self.push(TorchOp::ExpandDim { input: cur, axis: i, size }, dims);
            i = i + 1;
        }
        proof {
            lemma_expanded_len(p, id, sizes@, sizes@.len());
        }
        cur
    }

    fn rows(&mut self, table: usize, rows: usize, size: usize) -> (r: Result<
        Option<usize>,
        TorchError,
    >)
        requires
            old(self)@.wf(),
            table < old(self)@.steps.len(),
            rows < old(self)@.steps.len(),
        ensures
            is_made(r, final(self)@, rows_made(old(self)@, table, rows, size)),
            sound(r, final(self)@),
            r is Ok ==> r->Ok_0 is Some,
    {
        let ghost p = self@;
        let dims = copy_dims(self.dims(rows));
        let rank: usize = dims.len();
        let scaled_dims = copy_dims(&dims);
        let mut wide = copy_dims(&dims);
        wide.push(size);
        let scaled: usize = self.push(TorchOp::MulSize { input: rows, size }, scaled_dims);
        let expanded: usize = self.push(
            TorchOp::ExpandDim { input: scaled, axis: rank, size },
            wide,
        );
        let numbers: usize = self.push_arange(size);
        let offset: usize = self.expand_front(numbers, &dims);
        match self.binary(false, expanded, offset) {
            Err(e) => Err(e),
            Ok(made) => match made {
                Some(places) => {
                    let out = copy_dims(self.dims(places));
                    let id: usize = self.push(
                        TorchOp::Gather { input: table, indices: places },
                        out,
                    );
                    Ok(Some(id))
                },
                None => Err(TorchError::DimsMismatch),
            },
        }
    }

    /// The rows of a weight that the indices pick.
    pub fn embedding(&mut self, args: &Vec<Arg>) -> (r: Result<Option<usize>, TorchError>)
        requires
            old(self)@.wf(),
        ensures
            is_made(r, final(self)@, embedding_made(old(self)@, args@)),
            sound(r, final(self)@),
    {
        if args.len() < 2 {
            return Err(TorchError::TooFewArgs);
        }
        let weight: usize = match self.find(args[0].text.as_str()) {
            Some(id) => id,
            None => {
                return Err(TorchError::MissingTensor(0));
            },
        };
        let indices: usize = match self.find(args[1].text.as_str()) {
            Some(id) => id,
            None => {
                return Err(TorchError::MissingTensor(1));
            },
        };
        if self.steps[weight].dims.len() < 2 {
            return Err(TorchError::WrongRank);
        }
        let size: usize = self.steps[weight].dims[1];
        self.rows(weight, indices, size)
    }

    fn drop_behind_first(&mut self, id: usize) -> (r: usize)
        requires
            old(self)@.wf(),
            id < old(self)@.steps.len(),
            old(self)@.dims(id).len() > 0,
        ensures
            (final(self)@, r) == dropped_behind_first(
                old(self)@,
                id,
                (old(self)@.dims(id).len() - 1) as nat,
            ),
            final(self)@.wf(),
            r < final(self)@.steps.len(),
            final(self)@.steps.len() >= old(self)@.steps.len(),
    {
        let ghost p = self@;
        let axes: usize = self.steps[id].dims.len();
        let mut last: usize = id;
        let mut k: usize = 1;
        while k < axes
            invariant
                1 <= k <= axes,
                axes == p.dims(id).len(),
                self@.wf(),
                last < self@.steps.len(),
                self@.steps.len() >= p.steps.len(),
                (self@, last) == dropped_behind_first(p, id, (k - 1) as nat),
                self@.dims(last).len() == axes - (k - 1),
            decreases axes - k,
        {
            let ghost q = self@;
            let mut dims = copy_dims(self.dims(last));
            dims.remove(1);
            last = self.push(TorchOp::Squeeze { input: last, axis: 1 }, dims);
            k = k + 1;
        }
        last
    }

    fn spread_indices(&mut self, indices: usize, prefix: usize) -> (r: Result<
        Option<usize>,
        TorchError,
    >)
        requires
            old(self)@.wf(),
            indices < old(self)@.steps.len(),
        ensures
            is_made(r, final(self)@, spread_indices(old(self)@, indices, prefix)),
            sound(r, final(self)@),
            r is Ok ==> r->Ok_0 is Some && final(self)@.steps.len() >= old(self)@.steps.len(),
    {
        let idx: usize = if self.steps[indices].dims.len() == 0 {
            let one: Vec<usize> = vec![1];
            assert(one@ =~= seq![1usize]);
            self.push(TorchOp::Unsqueeze { input: indices, axis: 0 }, one)
        } else {
            indices
        };
        assert(idx < self@.steps.len() && self@.steps.len() == self.steps@.len());
        let rank: usize = self.steps[idx].dims.len();
        proof {
            let d = self@.dims(idx);
            assert(d.subrange(0, rank as int) =~= d);
        }
        let n: usize = match checked_size(self.dims(idx), 0, rank) {
            Some(n) => n,
            None => {
                return Err(TorchError::TooLarge);
            },
        };
        if n == 1 {
            let spread: usize = if prefix != 1 {
                let mut dims = copy_dims(self.dims(idx));
                dims.insert(0, prefix);
                self.push(TorchOp::ExpandDim { input: idx, axis: 0, size: prefix }, dims)
            } else {
                idx
            };
            Ok(Some(self.drop_behind_first(spread)))
        } else if n != prefix {
            Err(TorchError::UnsupportedIndices)
        } else {
            Ok(Some(idx))
        }
    }

    fn picked(&mut self, input: usize, axis: usize, indices: usize) -> (r: Result<
        Option<usize>,
        TorchError,
    >)
        requires
            old(self)@.wf(),
            input < old(self)@.steps.len(),
            indices < old(self)@.steps.len(),
            axis < old(self)@.dims(input).len(),
        ensures
            is_made(r, final(self)@, picked_made(old(self)@, input, axis, indices)),
            sound(r, final(self)@),
    {
        let in_dims = copy_dims(self.dims(input));
        let rank: usize = in_dims.len();
        proof {
            assert(in_dims@.subrange(0, axis as int) =~= in_dims@.take(axis as int));
            assert(in_dims@.subrange(axis + 1, rank as int) =~= in_dims@.skip(axis + 1));
        }
        let prefix: usize = match checked_size(&in_dims, 0, axis) {
            Some(n) => n,
            None => {
                return Err(TorchError::TooLarge);
            },
        };
        let indexed: usize = in_dims[axis];
        let suffix: usize = match checked_size(&in_dims, axis + 1, rank) {
            Some(n) => n,
            None => {
                return Err(TorchError::TooLarge);
            },
        };
        let flat: usize = match prefix.checked_mul(indexed) {
            Some(n) => n,
            None => {
                return Err(TorchError::TooLarge);
            },
        };
        let table_dims: Vec<usize> = vec![flat, suffix];
        assert(table_dims@ =~= seq![flat, suffix]);
        let table: usize = self.push(TorchOp::Reinterpret { input }, table_dims);
        let idx: usize = match self.spread_indices(indices, prefix) {
            Err(e) => {
                return Err(e);
            },
            Ok(made) => match made {
                Some(id) => id,
                None => {
                    return Ok(None);
                },
            },
        };
        let numbers: usize = self.push_arange(prefix);
        let base_dims: Vec<usize> = vec![prefix];
        assert(base_dims@ =~= seq![prefix]);
        let base: usize = self.push(
            TorchOp::MulNumber { input: numbers, number: indexed },
            base_dims,
        );
        let row: usize = match self.binary(false, base, idx) {
            Err(e) => {
                return Err(e);
            },
            Ok(made) => match made {
                Some(id) => id,
                None => {
                    return Ok(None);
                },
            },
        };
        match self.rows(table, row, suffix) {
            Err(e) => Err(e),
            Ok(made) => match made {
                None => Ok(None),
                Some(gathered) => {
                    let mut out = in_dims;
                    out.set(axis, 1);
                    let id: usize = self.push(TorchOp::Reinterpret { input: gathered }, out);
                    Ok(Some(id))
                },
            },
        }
    }

    /// Indexing along one axis by a tensor of whole numbers.
    pub fn index(&mut self, args: &Vec<Arg>, kwargs: &Vec<Keyword>) -> (r: Result<
        Option<usize>,
        TorchError,
    >)
        requires
            old(self)@.wf(),
        ensures
            is_made(r, final(self)@, index_made(old(self)@, args@, kwargs@)),
            sound(r, final(self)@),
    {
        if args.len() < 1 {
            return Err(TorchError::TooFewArgs);
        }
        let input: usize = match self.find(args[0].text.as_str()) {
            Some(id) => id,
            None => {
                return Err(TorchError::MissingTensor(0));
            },
        };
        let axis: usize = match find_keyword(kwargs, "index_dim") {
            None => {
                return Err(TorchError::MissingIndexDim);
            },
            Some(a) => match parse_usize(a.text.as_str()) {
                Some(n) => n,
                None => {
                    return Err(TorchError::MissingIndexDim);
                },
            },
        };
        let indices: usize = match find_keyword(kwargs, "index_tensor") {
            None => {
                return Err(TorchError::MissingIndexTensor);
            },
            Some(a) => match self.find(a.text.as_str()) {
                Some(id) => id,
                None => {
                    return Err(TorchError::UnknownIndexTensor);
                },
            },
        };
        if axis >= self.steps[input].dims.len() {
            return Err(TorchError::DimOutOfRange);
        }
        self.picked(input, axis, indices)
    }
}

/// The dimensions of a given tensor: those of the node, as long as there are one to four
/// of them, and otherwise a single 1.
pub open spec fn given_dims(shape: Seq<usize>) -> Seq<usize> {
    if 1 <= shape.len() <= 4 {
        shape
    } else {
        seq![1usize]
    }
}

/// Whether the elements of a type are whole numbers.
pub open spec fn is_int_type(dtype: Seq<char>) -> bool {
    has_text(dtype, "int"@) || has_text(dtype, "long"@)
}

/// A program with an input, whose elements are whole numbers where the type says so.
pub open spec fn placeholder_made(p: ProgramView, node: PyTorchGraphNode) -> ProgramView {
    let dims = given_dims(node.shape@);
    let p1 = p.with_step(TorchOp::Input, dims);
    if is_int_type(node.dtype@) {
        p1.with_step(TorchOp::AsInt { input: p.next() }, dims).with_name(node.name@, p1.next())
    } else {
        p1.with_name(node.name@, p.next())
    }
}

/// A program with a parameter.
pub open spec fn parameter_made(p: ProgramView, node: PyTorchGraphNode) -> ProgramView {
    p.with_step(TorchOp::Input, given_dims(node.shape@)).with_name(node.name@, p.next())
}

/// A program in which the tensors that the first `n` arguments name are outputs. Names
/// without a tensor, and "None", are passed over.
pub open spec fn outputs_made(p: ProgramView, args: Seq<Arg>, n: int) -> ProgramView
    decreases n,
{
    if n <= 0 {
        p
    } else {
        let q = outputs_made(p, args, n - 1);
        let name = args[n - 1].text@;
        if name == "None"@ {
            q
        } else {
            match q.find(name) {
                None => q,
                Some(input) => {
                    let marked = q.with_step(TorchOp::Output { input }, q.dims(input)).with_name(
                        name,
                        q.next(),
                    );
                    ProgramView { outputs: q.outputs.push(name), ..marked }
                },
            }
        }
    }
}

/// What the call of a function makes.
pub open spec fn call_made(p: ProgramView, nodes: Seq<PyTorchGraphNode>, node: PyTorchGraphNode) -> Made {
    let target = node.target@;
    let args = node.args@;
    if target == "aten.add.Tensor"@ || target == "aten.add"@ {
        arithmetic_made(p, args, false)
    } else if target == "aten.mul.Tensor"@ || target == "aten.mul"@ {
        arithmetic_made(p, args, true)
    } else if target == "aten.linear.default"@ {
        linear_made(p, args)
    } else if target == "aten.view.default"@ {
        view_made(p, args)
    } else if target == "aten.transpose.int"@ {
        transpose_made(p, args)
    } else if target == "aten.dropout.default"@ {
        dropout_made(p, args)
    } else if target == "aten.lift_fresh_copy.default"@ {
        pass_through_made(p, args, 1)
    } else if target == "aten.layer_norm.default"@ {
        layer_norm_made(p, args, node.kwargs@)
    } else if target == "aten.split.Tensor"@ {
        pass_through_made(p, args, 2)
    } else if target == "<built-in function getitem>"@ || target == "operator.getitem"@ || target
        == "getitem"@ {
        getitem_made(p, nodes, args)
    } else if target == "aten.unsqueeze.default"@ {
        unsqueeze_made(p, args)
    } else if target == "aten.squeeze.dim"@ {
        squeeze_made(p, args)
    } else if target == "aten.arange.default"@ {
        arange_made(p, args)
    } else if target == "aten.arange.start"@ {
        arange_start_made(p, args, node.length)
    } else if target == "aten.arange.start_step"@ {
        arange_step_made(p, args, node.length)
    } else if target == "aten.scaled_dot_product_attention.default"@ {
        attention_made(p, args)
    } else if target == "aten.gelu.default"@ {
        gelu_made(p, args, node.kwargs@)
    } else if target == "aten.embedding.default"@ {
        embedding_made(p, args)
    } else if target == "aten.index.Tensor"@ {
        index_made(p, args, node.kwargs@)
    } else {
        Err(TorchError::Unsupported)
    }
}

/// What a node makes of a program.
pub open spec fn node_made(p: ProgramView, nodes: Seq<PyTorchGraphNode>, node: PyTorchGraphNode) -> Result<
    ProgramView,
    TorchError,
> {
    if node.op@ == "placeholder"@ {
        Ok(placeholder_made(p, node))
    } else if node.op@ == "call_function"@ {
        match call_made(p, nodes, node) {
            Ok((q, Some(id))) => Ok(q.with_name(node.name@, id)),
            Ok((q, None)) => Ok(q),
            Err(e) => Err(e),
        }
    } else if node.op@ == "output"@ {
        Ok(outputs_made(p, node.args@, node.args@.len() as int))
    } else if node.op@ == "get_attr"@ {
        Ok(parameter_made(p, node))
    } else {
        Ok(p)
    }
}

/// The program without steps.
pub open spec fn no_steps() -> ProgramView {
    ProgramView { steps: Seq::empty(), names: Map::empty(), outputs: Seq::empty() }
}

/// What the first `n` nodes make; or the first node that cannot be read, and why.
pub open spec fn compiled(nodes: Seq<PyTorchGraphNode>, n: int) -> Result<
    ProgramView,
    (usize, TorchError),
>
    decreases n,
{
    if n <= 0 {
        Ok(no_steps())
    } else {
        match compiled(nodes, n - 1) {
            Err(e) => Err(e),
            Ok(p) => match node_made(p, nodes, nodes[n - 1]) {
                Ok(q) => Ok(q),
                Err(e) => Err(((n - 1) as usize, e)),
            },
        }
    }
}

proof fn lemma_failure_stays(nodes: Seq<PyTorchGraphNode>, n: int, k: int)
    requires
        n <= k,
        compiled(nodes, n) is Err,
    ensures
        compiled(nodes, k) == compiled(nodes, n),
    decreases k - n,
{
    if n < k {
        lemma_failure_stays(nodes, n, k - 1);
    }
}

impl Program {
    fn given(&mut self, shape: &Vec<usize>) -> (r: usize)
        requires
            old(self)@.wf(),
        ensures
            final(self)@ == old(self)@.with_step(TorchOp::Input, given_dims(shape@)),
            r == old(self)@.next(),
            r == old(self)@.steps.len(),
            final(self)@.wf(),
    {
        let dims: Vec<usize> = if 1 <= shape.len() && shape.len() <= 4 {
            copy_dims(shape)
        } else {
            vec![1]
        };
        assert(dims@ =~= given_dims(shape@));
        self.push(TorchOp::Input, dims)
    }

    /// An input.
    pub fn placeholder(&mut self, node: &PyTorchGraphNode)
        requires
            old(self)@.wf(),
        ensures
            final(self)@ == placeholder_made(old(self)@, *node),
            final(self)@.wf(),
    {
        let mut id: usize = self.given(&node.shape);
        if contains_text(node.dtype.as_str(), "int") || contains_text(node.dtype.as_str(), "long") {
            let dims = copy_dims(self.dims(id));
            id = self.push(TorchOp::AsInt { input: id }, dims);
        }
        self.name(&node.name, id);
    }

    /// A parameter.
    pub fn parameter(&mut self, node: &PyTorchGraphNode)
        requires
            old(self)@.wf(),
        ensures
            final(self)@ == parameter_made(old(self)@, *node),
            final(self)@.wf(),
    {
        let id: usize = self.given(&node.shape);
        self.name(&node.name, id);
    }

    /// The tensors that the arguments name become outputs.
    pub fn mark_outputs(&mut self, args: &Vec<Arg>)
        requires
            old(self)@.wf(),
        ensures
            final(self)@ == outputs_made(old(self)@, args@, args@.len() as int),
            final(self)@.wf(),
    {
        let ghost p = self@;
        let mut i: usize = 0;
        while i < args.len()
            invariant
                i <= args@.len(),
                self@.wf(),
                self@ == outputs_made(p, args@, i as int),
            decreases args@.len() - i,
        {
            let ghost q = self@;
            let name: &String = &args[i].text;
            if !same_text(name.as_str(), "None") {
                if let Some(input) = self.find(name.as_str()) {
                    let dims = copy_dims(self.dims(input));
                    let id: usize = self.push(TorchOp::Output { input }, dims);
                    self.name(name, id);
                    let ghost marked = self@;
                    self.outputs.push(name.as_str().to_owned());
                    proof {
                        assert(self@.outputs =~= q.outputs.push(name@));
                        assert(self@.steps =~= marked.steps);
                        assert(self@ == outputs_made(p, args@, i + 1));
                    }
                }
            }
            i = i + 1;
        }
    }

    /// The call of a function.
    pub fn call(&mut self, nodes: &Vec<PyTorchGraphNode>, node: &PyTorchGraphNode) -> (r: Result<
        Option<usize>,
        TorchError,
    >)
        requires
            old(self)@.wf(),
        ensures
            is_made(r, final(self)@, call_made(old(self)@, nodes@, *node)),
            sound(r, final(self)@),
    {
        let target = node.target.as_str();
        let args = &node.args;
        if same_text(target, "aten.add.Tensor") || same_text(target, "aten.add") {
            self.arithmetic(args, false)
        } else if same_text(target, "aten.mul.Tensor") || same_text(target, "aten.mul") {
            self.arithmetic(args, true)
        } else if same_text(target, "aten.linear.default") {
            self.linear(args)
        } else if same_text(target, "aten.view.default") {
            self.view_tensor(args)
        } else if same_text(target, "aten.transpose.int") {
            self.transpose(args)
        } else if same_text(target, "aten.dropout.default") {
            self.dropout(args)
        } else if same_text(target, "aten.lift_fresh_copy.default") {
            self.pass_through(args, 1)
        } else if same_text(target, "aten.layer_norm.default") {
            self.layer_norm(args, &node.kwargs)
        } else if same_text(target, "aten.split.Tensor") {
            self.pass_through(args, 2)
        } else if same_text(target, "<built-in function getitem>") || same_text(
            target,
            "operator.getitem",
        ) || same_text(target, "getitem") {
            self.getitem(nodes, args)
        } else if same_text(target, "aten.unsqueeze.default") {
            self.unsqueeze(args)
        } else if same_text(target, "aten.squeeze.dim") {
            self.squeeze(args)
        } else if same_text(target, "aten.arange.default") {
            self.arange(args)
        } else if same_text(target, "aten.arange.start") {
            self.arange_start(args, node.length)
        } else if same_text(target, "aten.arange.start_step") {
            self.arange_step(args, node.length)
        } else if same_text(target, "aten.scaled_dot_product_attention.default") {
            self.attention(args)
        } else if same_text(target, "aten.gelu.default") {
            self.gelu(args, &node.kwargs)
        } else if same_text(target, "aten.embedding.default") {
            self.embedding(args)
        } else if same_text(target, "aten.index.Tensor") {
            self.index(args, &node.kwargs)
        } else {
            Err(TorchError::Unsupported)
        }
    }

    /// A node of the graph.
    pub fn read_node(&mut self, nodes: &Vec<PyTorchGraphNode>, node: &PyTorchGraphNode) -> (r: Result<
        (),
        TorchError,
    >)
        requires
            old(self)@.wf(),
        ensures
            match node_made(old(self)@, nodes@, *node) {
                Ok(p) => r is Ok && final(self)@ == p && p.wf(),
                Err(e) => r == Err::<(), TorchError>(e),
            },
    {
        let op = node.op.as_str();
        if same_text(op, "placeholder") {
            self.placeholder(node);
        } else if same_text(op, "call_function") {
            match self.call(nodes, node) {
                Err(e) => {
                    return Err(e);
                },
                Ok(made) => {
                    if let Some(id) = made {
                        self.name(&node.name, id);
                    }
                },
            }
        } else if same_text(op, "output") {
            self.mark_outputs(&node.args);
        } else if same_text(op, "get_attr") {
            self.parameter(node);
        }
        Ok(())
    }
}

/// What is told while a graph is read.
#[derive(Debug, Clone, Copy, PartialEq, Eq, Structural)]
pub enum Notice {
    /// There are so many nodes.
    Loading(usize),
    /// The node at this place is one of them.
    Node(usize),
    /// The node at this place was read.
    Read(usize),
}

/// How many nodes were read.
pub open spec fn nodes_read(nodes: Seq<PyTorchGraphNode>) -> nat {
    match compiled(nodes, nodes.len() as int) {
        Ok(_) => nodes.len(),
        Err(e) => e.0 as nat,
    }
}

/// What is told of so many nodes, of which so many were read; nothing unless it is wanted.
pub open spec fn notices(verbose: bool, count: nat, read: nat) -> Seq<Notice> {
    if verbose {
        seq![Notice::Loading(count as usize)] + Seq::new(count, |i: int| Notice::Node(i as usize))
            + Seq::new(read, |i: int| Notice::Read(i as usize))
    } else {
        Seq::empty()
    }
}

/// Read an exported graph into a program; or the first node that cannot be read, and
/// why. Every step uses only tensors made before it. Beside it, what is told of it where
/// `verbose` asks for that; the outcome is the same whether it does or not.
pub fn compile(nodes: &Vec<PyTorchGraphNode>, verbose: bool) -> (r: (
    Result<Program, (usize, TorchError)>,
    Vec<Notice>,
))
    ensures
        match compiled(nodes@, nodes@.len() as int) {
            Ok(p) => r.0 matches Ok(program) && program@ == p && p.wf(),
            Err(e) => r.0 matches Err(f) && f == e,
        },
        r.1@ == notices(verbose, nodes@.len(), nodes_read(nodes@)),
{
    let mut told: Vec<Notice> = Vec::new();
    if verbose {
        told.push(Notice::Loading(nodes.len()));
        let mut i: usize = 0;
        assert(told@ =~= seq![Notice::Loading(nodes@.len() as usize)] + Seq::new(
            0,
            |i: int| Notice::Node(i as usize),
        ));
        while i < nodes.len()
            invariant
                i <= nodes@.len(),
                told@ == seq![Notice::Loading(nodes@.len() as usize)] + Seq::new(
                    i as nat,
                    |i: int| Notice::Node(i as usize),
                ),
            decreases nodes@.len() - i,
        {
            told.push(Notice::Node(i));
            i = i + 1;
            assert(told@ =~= seq![Notice::Loading(nodes@.len() as usize)] + Seq::new(
                i as nat,
                |i: int| Notice::Node(i as usize),
            ));
        }
    }
    let mut program = Program::new();
    let mut i: usize = 0;
    assert(told@ =~= notices(verbose, nodes@.len(), 0));
    while i < nodes.len()
        invariant
            i <= nodes@.len(),
            program@.wf(),
            compiled(nodes@, i as int) == Ok::<ProgramView, (usize, TorchError)>(program@),
            told@ == notices(verbose, nodes@.len(), i as nat),
        decreases nodes@.len() - i,
    {
        match program.read_node(nodes, &nodes[i]) {
            Ok(_) => {},
            Err(e) => {
                proof {
                    assert(compiled(nodes@, i + 1) == Err::<ProgramView, (usize, TorchError)>((i, e)));
                    lemma_failure_stays(nodes@, i + 1, nodes@.len() as int);
                }
                return (Err((i, e)), told);
            },
        }
        if verbose {
            told.push(Notice::Read(i));
        }
        i = i + 1;
        assert(told@ =~= notices(verbose, nodes@.len(), i as nat));
    }
    (Ok(program), told)
}

/// Where one dimension of a view is to be inferred, and the others divide the number of
/// elements, the view has as many elements as the tensor.
pub proof fn law_view_keeps_size(total: usize, target: Seq<i32>)
    requires
        view_scan(target, target.len() as int) matches Ok((Some(_), known)) && total as int % known == 0,
    ensures
        view_scan(target, target.len() as int) matches Ok((inferred, known)) && product(
            view_dims(total as int, target, inferred, known),
        ) == total,
{
    let n = target.len() as int;
    let (inferred, known) = view_scan(target, n)->Ok_0;
    let dims = view_dims(total as int, target, inferred, known);
    lemma_scan_known(target, n);
    lemma_view_product(total, target, n, inferred, known, n);
    assert(dims.take(n) =~= dims);
    vstd::arithmetic::div_mod::lemma_fundamental_div_mod(total as int, known);
}

/// The product of the known dimensions is positive.
proof fn lemma_scan_known(target: Seq<i32>, n: int)
    requires
        0 <= n <= target.len(),
        view_scan(target, n) is Ok,
    ensures
        view_scan(target, n)->Ok_0.1 >= 1,
        view_scan(target, n)->Ok_0.0 matches Some(q) ==> 0 <= q < n,
    decreases n,
{
    if n > 0 {
        lemma_scan_known(target, n - 1);
        let known = view_scan(target, n - 1)->Ok_0.1;
        let d = target[n - 1] as int;
        if d > 0 {
            assert(known * d >= 1) by (nonlinear_arith)
                requires
                    known >= 1,
                    d >= 1,
            ;
        }
    }
}

proof fn lemma_view_product(
    total: usize,
    target: Seq<i32>,
    n: int,
    inferred: Option<int>,
    known: int,
    k: int,
)
    requires
        n == target.len(),
        view_scan(target, n) == Ok::<(Option<int>, int), TorchError>((inferred, known)),
        inferred is Some,
        0 <= k <= n,
    ensures
        view_scan(target, k) is Ok,
        product(view_dims(total as int, target, inferred, known).take(k)) == if k > inferred->0 {
            view_scan(target, k)->Ok_0.1 * (total as int / known)
        } else {
            view_scan(target, k)->Ok_0.1
        },
        view_scan(target, k)->Ok_0.0 == if k > inferred->0 {
            inferred
        } else {
            None
        },
    decreases k,
{
    let dims = view_dims(total as int, target, inferred, known);
    if view_scan(target, k) is Err {
        lemma_scan_stays(target, k, n);
    }
    lemma_scan_known(target, n);
    lemma_scan_first(target, n, inferred->0);
    if k == 0 {
        assert(dims.take(0) =~= Seq::<usize>::empty());
    } else {
        lemma_view_product(total, target, n, inferred, known, k - 1);
        lemma_product_step(dims, k);
        let q = inferred->0;
        let before = view_scan(target, k - 1)->Ok_0.1;
        let each = total as int / known;
        if k - 1 == q {
            assert(target[k - 1] == -1);
            assert(dims[k - 1] == each) by {
                vstd::arithmetic::div_mod::lemma_div_is_ordered_by_denominator(
                    total as int,
                    1,
                    known,
                );
                vstd::arithmetic::div_mod::lemma_div_pos_is_pos(total as int, known);
            }
        } else {
            let d = target[k - 1] as int;
            assert(d != -1) by {
                if d == -1 {
                    lemma_scan_first(target, n, k - 1);
                }
            }
            assert(d > 0);
            assert(dims[k - 1] == d);
            if k > q {
                assert((before * each) * d == (before * d) * each) by (nonlinear_arith);
            }
        }
    }
}

/// The dimension that is to be inferred is the one that is given as -1.
proof fn lemma_scan_first(target: Seq<i32>, n: int, q: int)
    requires
        0 <= q < n <= target.len(),
        view_scan(target, n) is Ok,
    ensures
        (target[q] == -1) == (view_scan(target, n)->Ok_0.0 == Some(q)),
    decreases n,
{
    if n - 1 > q {
        lemma_scan_first(target, n - 1, q);
        lemma_scan_known(target, n - 1);
    } else {
        lemma_scan_known(target, n - 1);
    }
}

/// The parts of a split follow on one another and end where the axis ends.
pub proof fn law_chunks_follow(index: int, size: int, dim: int)
    requires
        0 <= index,
        0 < size,
        0 <= dim,
        index * size <= dim,
    ensures
        chunk(0, size, dim).0 == 0,
        chunk(index, size, dim).1 == if (index + 1) * size < dim {
            chunk(index + 1, size, dim).0
        } else {
            dim
        },
        chunk(index, size, dim).0 <= chunk(index, size, dim).1 <= dim,
        chunk(index, size, dim).1 - chunk(index, size, dim).0 <= size,
{
    assert((index + 1) * size == index * size + size) by (nonlinear_arith);
    assert(0 * size == 0);
}

} // verus!
