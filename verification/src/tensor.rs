//! Tensor programs: a graph to which tensor operations are added one by one. Every
//! operation makes a new tensor whose dimensions are known at once and whose elements
//! are defined by those of the tensors it is made from.

use vstd::prelude::*;

verus! {

/// A tensor operation. Tensors are named by their position in the graph.
#[derive(Debug)]
pub enum Op {
    /// A tensor that is given.
    Tensor { name: String },
    /// Zeros before and after along every axis.
    Pad { input: usize, before: Vec<usize>, after: Vec<usize> },
    /// All windows: first the axes along which the window moves, and after them the axes
    /// of the window.
    Unfold { input: usize, kernel: Vec<usize>, stride: Vec<usize>, dilation: Vec<usize> },
    /// The axes in another order.
    Permute { input: usize, order: Vec<usize> },
    /// Without an axis of size 1.
    Squeeze { input: usize, axis: usize },
    /// Repeated along a new axis.
    ExpandDim { input: usize, axis: usize, size: usize },
    /// An axis split in two, the second of the given size.
    SplitDims { input: usize, axis: usize, size: usize },
    /// An axis and the one after it made one.
    MergeDims { input: usize, axis: usize },
    /// A part along an axis.
    Slice { input: usize, axis: usize, start: usize, end: usize },
    /// One after the other along an axis.
    Concat { left: usize, right: usize, axis: usize },
    /// Element by element.
    Add { left: usize, right: usize },
    /// Element by element.
    Mul { left: usize, right: usize },
    /// Summed up along an axis.
    Sum { input: usize, axis: usize },
}

/// A tensor of a graph.
#[derive(Debug, Clone, Copy, PartialEq, Eq, Structural)]
pub struct GraphTensor {
    pub id: usize,
}

/// An operation of a graph, and the dimensions of the tensor that it makes.
#[derive(Debug)]
pub struct TensorNode {
    pub op: Op,
    pub dims: Vec<usize>,
}

/// An operation and dimensions.
pub struct NodeView {
    pub op: Op,
    pub dims: Seq<usize>,
}

impl View for TensorNode {
    type V = NodeView;

    open spec fn view(&self) -> NodeView {
        NodeView { op: self.op, dims: self.dims@ }
    }
}

/// A tensor program.
#[derive(Debug)]
pub struct Graph {
    pub nodes: Vec<TensorNode>,
}

impl View for Graph {
    type V = Seq<NodeView>;

    open spec fn view(&self) -> Seq<NodeView> {
        self.nodes@.map_values(|n: TensorNode| n@)
    }
}

/// A way to compute: the elements of the given tensors, and arithmetic on elements.
/// Elements are told apart by integers, and nothing is asked of the arithmetic, so that
/// it may be that of any type of numbers, floating-point numbers included.
pub struct Model {
    pub given: spec_fn(int, Seq<int>) -> int,
    pub zero: int,
    pub plus: spec_fn(int, int) -> int,
    pub times: spec_fn(int, int) -> int,
}

/// The sum of the first `n` terms, from the first to the last.
pub open spec fn sum_to(m: Model, n: nat, term: spec_fn(int) -> int) -> int
    decreases n,
{
    if n == 0 {
        m.zero
    } else {
        (m.plus)(sum_to(m, (n - 1) as nat, term), term(n - 1))
    }
}

/// Whether a tensor of these dimensions has an element at this place.
pub open spec fn inside(idx: Seq<int>, dims: Seq<usize>) -> bool {
    idx.len() == dims.len() && forall|q: int| 0 <= q < dims.len() ==> 0 <= #[trigger] idx[q] < dims[q]
}

/// A place moved back along every axis.
pub open spec fn moved_back(idx: Seq<int>, by: Seq<usize>) -> Seq<int> {
    Seq::new(idx.len(), |q: int| idx[q] - by[q])
}

/// The place that a place in a window and the window's place come to.
pub open spec fn window_place(idx: Seq<int>, rank: nat, stride: Seq<usize>, dilation: Seq<usize>) -> Seq<
    int,
> {
    Seq::new(rank, |q: int| idx[q] * stride[q] + idx[rank + q] * dilation[q])
}

/// Where a number stands in a sequence.
pub open spec fn place_of(order: Seq<usize>, q: int) -> int {
    choose|i: int| 0 <= i < order.len() && order[i] == q
}

/// The place before the axes were put in another order.
pub open spec fn unpermuted(order: Seq<usize>, idx: Seq<int>) -> Seq<int> {
    Seq::new(order.len(), |q: int| idx[place_of(order, q)])
}

/// The place before an axis was split.
pub open spec fn unsplit(idx: Seq<int>, axis: int, size: int) -> Seq<int> {
    idx.remove(axis + 1).update(axis, idx[axis] * size + idx[axis + 1])
}

/// The place before two axes were made one.
pub open spec fn unmerged(idx: Seq<int>, axis: int, size: int) -> Seq<int> {
    idx.update(axis, idx[axis] / size).insert(axis + 1, idx[axis] % size)
}

/// The place with another coordinate along an axis.
pub open spec fn shifted(idx: Seq<int>, axis: int, by: int) -> Seq<int> {
    idx.update(axis, idx[axis] + by)
}

/// The element of a tensor at a place. For an operation on a tensor that does not come
/// before it, 0.
pub open spec fn element(g: Seq<NodeView>, i: int, m: Model, idx: Seq<int>) -> int
    decreases i, 0nat,
{
    match g[i].op {
        Op::Tensor { .. } => (m.given)(i, idx),
        Op::Pad { input, before, .. } => if input < i {
            let from = moved_back(idx, before@);
            if inside(from, g[input as int].dims) {
                element(g, input as int, m, from)
            } else {
                m.zero
            }
        } else {
            0
        },
        Op::Unfold { input, kernel, stride, dilation } => if input < i {
            element(g, input as int, m, window_place(idx, kernel@.len(), stride@, dilation@))
        } else {
            0
        },
        Op::Permute { input, order } => if input < i {
            element(g, input as int, m, unpermuted(order@, idx))
        } else {
            0
        },
        Op::Squeeze { input, axis } => if input < i {
            element(g, input as int, m, idx.insert(axis as int, 0))
        } else {
            0
        },
        Op::ExpandDim { input, axis, .. } => if input < i {
            element(g, input as int, m, idx.remove(axis as int))
        } else {
            0
        },
        Op::SplitDims { input, axis, size } => if input < i {
            element(g, input as int, m, unsplit(idx, axis as int, size as int))
        } else {
            0
        },
        Op::MergeDims { input, axis } => if input < i {
            element(
                g,
                input as int,
                m,
                unmerged(idx, axis as int, g[input as int].dims[axis + 1] as int),
            )
        } else {
            0
        },
        Op::Slice { input, axis, start, .. } => if input < i {
            element(g, input as int, m, shifted(idx, axis as int, start as int))
        } else {
            0
        },
        Op::Concat { left, right, axis } => if left < i && right < i {
            let first = g[left as int].dims[axis as int];
            if idx[axis as int] < first {
                element(g, left as int, m, idx)
            } else {
                element(g, right as int, m, shifted(idx, axis as int, -first))
            }
        } else {
            0
        },
        Op::Add { left, right } => if left < i && right < i {
            (m.plus)(element(g, left as int, m, idx), element(g, right as int, m, idx))
        } else {
            0
        },
        Op::Mul { left, right } => if left < i && right < i {
            (m.times)(element(g, left as int, m, idx), element(g, right as int, m, idx))
        } else {
            0
        },
        Op::Sum { input, axis } => if input < i {
            axis_sum(
                g,
                input as int,
                axis as int,
                g[input as int].dims[axis as int] as nat,
                m,
                idx,
            )
        } else {
            0
        },
    }
}

/// The sum of the first `n` elements along an axis.
pub open spec fn axis_sum(
    g: Seq<NodeView>,
    i: int,
    axis: int,
    n: nat,
    m: Model,
    idx: Seq<int>,
) -> int
    decreases i, n + 1,
{
    if n == 0 {
        m.zero
    } else {
        (m.plus)(
            axis_sum(g, i, axis, (n - 1) as nat, m, idx),
            element(g, i, m, idx.insert(axis, n - 1)),
        )
    }
}

/// The sum along an axis is the sum of the elements there.
pub proof fn lemma_axis_sum(
    g: Seq<NodeView>,
    i: int,
    axis: int,
    n: nat,
    m: Model,
    idx: Seq<int>,
    term: spec_fn(int) -> int,
)
    requires
        forall|k: int| 0 <= k < n ==> #[trigger] term(k) == element(g, i, m, idx.insert(axis, k)),
    ensures
        axis_sum(g, i, axis, n, m, idx) == sum_to(m, n, term),
    decreases n,
{
    if n > 0 {
        lemma_axis_sum(g, i, axis, (n - 1) as nat, m, idx, term);
        assert(term(n - 1) == element(g, i, m, idx.insert(axis, n - 1)));
    }
}

/// Sums of equal terms are equal.
pub proof fn lemma_sum_same(m: Model, n: nat, a: spec_fn(int) -> int, b: spec_fn(int) -> int)
    requires
        forall|k: int| 0 <= k < n ==> #[trigger] a(k) == b(k),
    ensures
        sum_to(m, n, a) == sum_to(m, n, b),
    decreases n,
{
    if n > 0 {
        lemma_sum_same(m, (n - 1) as nat, a, b);
    }
}

/// A tensor's elements do not change when operations are added.
pub proof fn lemma_element_kept(g: Seq<NodeView>, h: Seq<NodeView>, i: int, m: Model, idx: Seq<int>)
    requires
        0 <= i < g.len(),
        g.len() <= h.len(),
        forall|j: int| 0 <= j < g.len() ==> g[j] == h[j],
    ensures
        element(g, i, m, idx) == element(h, i, m, idx),
    decreases i, 0nat,
{
    match g[i].op {
        Op::Tensor { .. } => {},
        Op::Pad { input, before, .. } => {
            if input < i {
                lemma_element_kept(g, h, input as int, m, moved_back(idx, before@));
            }
        },
        Op::Unfold { input, kernel, stride, dilation } => {
            if input < i {
                lemma_element_kept(
                    g,
                    h,
                    input as int,
                    m,
                    window_place(idx, kernel@.len(), stride@, dilation@),
                );
            }
        },
        Op::Permute { input, order } => {
            if input < i {
                lemma_element_kept(g, h, input as int, m, unpermuted(order@, idx));
            }
        },
        Op::Squeeze { input, axis } => {
            if input < i {
                lemma_element_kept(g, h, input as int, m, idx.insert(axis as int, 0));
            }
        },
        Op::ExpandDim { input, axis, .. } => {
            if input < i {
                lemma_element_kept(g, h, input as int, m, idx.remove(axis as int));
            }
        },
        Op::SplitDims { input, axis, size } => {
            if input < i {
                lemma_element_kept(
                    g,
                    h,
                    input as int,
                    m,
                    unsplit(idx, axis as int, size as int),
                );
            }
        },
        Op::MergeDims { input, axis } => {
            if input < i {
                lemma_element_kept(
                    g,
                    h,
                    input as int,
                    m,
                    unmerged(idx, axis as int, g[input as int].dims[axis + 1] as int),
                );
            }
        },
        Op::Slice { input, axis, start, .. } => {
            if input < i {
                lemma_element_kept(g, h, input as int, m, shifted(idx, axis as int, start as int));
            }
        },
        Op::Concat { left, right, axis } => {
            if left < i && right < i {
                let first = g[left as int].dims[axis as int];
                lemma_element_kept(g, h, left as int, m, idx);
                lemma_element_kept(g, h, right as int, m, shifted(idx, axis as int, -first));
            }
        },
        Op::Add { left, right } => {
            if left < i && right < i {
                lemma_element_kept(g, h, left as int, m, idx);
                lemma_element_kept(g, h, right as int, m, idx);
            }
        },
        Op::Mul { left, right } => {
            if left < i && right < i {
                lemma_element_kept(g, h, left as int, m, idx);
                lemma_element_kept(g, h, right as int, m, idx);
            }
        },
        Op::Sum { input, axis } => {
            if input < i {
                lemma_axis_sum_kept(
                    g,
                    h,
                    input as int,
                    axis as int,
                    g[input as int].dims[axis as int] as nat,
                    m,
                    idx,
                );
            }
        },
    }
}

proof fn lemma_axis_sum_kept(
    g: Seq<NodeView>,
    h: Seq<NodeView>,
    i: int,
    axis: int,
    n: nat,
    m: Model,
    idx: Seq<int>,
)
    requires
        0 <= i < g.len(),
        g.len() <= h.len(),
        forall|j: int| 0 <= j < g.len() ==> g[j] == h[j],
    ensures
        axis_sum(g, i, axis, n, m, idx) == axis_sum(h, i, axis, n, m, idx),
    decreases i, n + 1,
{
    if n > 0 {
        lemma_axis_sum_kept(g, h, i, axis, (n - 1) as nat, m, idx);
        lemma_element_kept(g, h, i, m, idx.insert(axis, n - 1));
    }
}

/// `h` is `g` with operations added; the tensors of `g` have kept their elements.
pub open spec fn extends(g: Seq<NodeView>, h: Seq<NodeView>) -> bool {
    &&& g.len() <= h.len()
    &&& forall|j: int| 0 <= j < g.len() ==> #[trigger] h[j] == g[j]
    &&& forall|j: int, m: Model, idx: Seq<int>|
        0 <= j < g.len() ==> #[trigger] element(h, j, m, idx) == element(g, j, m, idx)
}

/// Dimensions with more before and after.
pub open spec fn padded_dims(dims: Seq<usize>, before: Seq<usize>, after: Seq<usize>) -> Seq<usize> {
    Seq::new(dims.len(), |q: int| (dims[q] + before[q] + after[q]) as usize)
}

/// How far a window reaches.
pub open spec fn reach_of(kernel: int, dilation: int) -> int {
    dilation * (kernel - 1) + 1
}

/// How many places a window has.
pub open spec fn windows(dim: int, kernel: int, stride: int, dilation: int) -> int {
    if dim < reach_of(kernel, dilation) {
        0
    } else {
        (dim - reach_of(kernel, dilation)) / stride + 1
    }
}

/// The dimensions of all windows.
pub open spec fn unfolded_dims(
    dims: Seq<usize>,
    kernel: Seq<usize>,
    stride: Seq<usize>,
    dilation: Seq<usize>,
) -> Seq<usize> {
    Seq::new(
        dims.len(),
        |q: int|
            windows(
                dims[q] as int,
                kernel[q] as int,
                stride[q] as int,
                dilation[q] as int,
            ) as usize,
    ) + kernel
}

/// Whether `order` holds every number below `n` once.
pub open spec fn is_order(order: Seq<usize>, n: nat) -> bool {
    &&& order.len() == n
    &&& forall|i: int| 0 <= i < n ==> #[trigger] order[i] < n
    &&& order.no_duplicates()
}

/// Dimensions in another order.
pub open spec fn permuted_dims(dims: Seq<usize>, order: Seq<usize>) -> Seq<usize> {
    Seq::new(order.len(), |i: int| dims[order[i] as int])
}

/// Whether two tensors can stand one after the other along an axis.
pub open spec fn same_but(a: Seq<usize>, b: Seq<usize>, axis: int) -> bool {
    &&& a.len() == b.len()
    &&& forall|q: int| 0 <= q < a.len() && q != axis ==> #[trigger] a[q] == b[q]
}

proof fn lemma_push_extends(g: Seq<NodeView>, n: NodeView)
    ensures
        extends(g, g.push(n)),
{
    assert forall|j: int, m: Model, idx: Seq<int>| 0 <= j < g.len() implies #[trigger] element(
        g.push(n),
        j,
        m,
        idx,
    ) == element(g, j, m, idx) by {
        lemma_element_kept(g, g.push(n), j, m, idx);
    }
}

/// A copy of dimensions.
pub fn copy_dims(v: &Vec<usize>) -> (r: Vec<usize>)
    ensures
        r@ == v@,
{
    let mut r: Vec<usize> = Vec::new();
    let mut i: usize = 0;
    while i < v.len()
        invariant
            i <= v@.len(),
            r@ == v@.take(i as int),
        decreases v@.len() - i,
    {
        r.push(v[i]);
        proof {
            assert(v@.take(i + 1) =~= v@.take(i as int).push(v@[i as int]));
        }
        i = i + 1;
    }
    proof {
        assert(v@.take(i as int) =~= v@);
    }
    r
}

impl Graph {
    /// The dimensions of a tensor.
    pub open spec fn shape(self, t: GraphTensor) -> Seq<usize> {
        self@[t.id as int].dims
    }

    /// Whether a tensor is one of this graph.
    pub open spec fn has(self, t: GraphTensor) -> bool {
        t.id < self@.len()
    }

    /// A graph without operations.
    pub fn new() -> (r: Graph)
        ensures
            r@ == Seq::<NodeView>::empty(),
    {
        let r = Graph { nodes: Vec::new() };
        assert(r@ =~= Seq::<NodeView>::empty());
        r
    }

    fn push(&mut self, op: Op, dims: Vec<usize>) -> (r: GraphTensor)
        ensures
            final(self)@ == old(self)@.push(NodeView { op, dims: dims@ }),
            extends(old(self)@, final(self)@),
            r.id == old(self)@.len(),
    {
        let id: usize = self.nodes.len();
        self.nodes.push(TensorNode { op, dims });
        proof {
            let n = NodeView { op, dims: dims@ };
            assert(self@ =~= old(self)@.push(n));
            lemma_push_extends(old(self)@, n);
        }
        GraphTensor { id }
    }

    /// The dimensions of a tensor.
    pub fn dims(&self, t: GraphTensor) -> (r: &Vec<usize>)
        requires
            self.has(t),
        ensures
            r@ == self.shape(t),
    {
        &self.nodes[t.id].dims
    }

    /// A tensor that is given.
    pub fn named_tensor(&mut self, name: &str, dims: Vec<usize>) -> (r: GraphTensor)
        ensures
            extends(old(self)@, final(self)@),
            final(self)@.len() == old(self)@.len() + 1,
            r.id == old(self)@.len(),
            final(self).shape(r) == dims@,
            final(self)@[r.id as int].op matches Op::Tensor { name: n } && n@ == name@,
            forall|m: Model, idx: Seq<int>| #[trigger]
                element(final(self)@, r.id as int, m, idx) == (m.given)(r.id as int, idx),
    {
        self.push(Op::Tensor { name: name.to_owned() }, dims)
    }

    /// With zeros before and after along every axis.
    pub fn pad(&mut self, t: GraphTensor, before: Vec<usize>, after: Vec<usize>) -> (r: GraphTensor)
        requires
            old(self).has(t),
            before@.len() == old(self).shape(t).len(),
            after@.len() == old(self).shape(t).len(),
            forall|q: int|
                0 <= q < before@.len() ==> old(self).shape(t)[q] + #[trigger] before@[q] + after@[q]
                    <= usize::MAX,
        ensures
            extends(old(self)@, final(self)@),
            final(self)@ == old(self)@.push(
                NodeView {
                    op: Op::Pad { input: t.id, before, after },
                    dims: padded_dims(old(self).shape(t), before@, after@),
                },
            ),
            r.id == old(self)@.len(),
            forall|m: Model, idx: Seq<int>| #[trigger]
                element(final(self)@, r.id as int, m, idx) == if inside(
                    moved_back(idx, before@),
                    old(self).shape(t),
                ) {
                    element(old(self)@, t.id as int, m, moved_back(idx, before@))
                } else {
                    m.zero
                },
    {
        let ghost dims = self.shape(t);
        let mut new: Vec<usize> = Vec::new();
        let mut q: usize = 0;
        let n: usize = self.nodes[t.id].dims.len();
        while q < n
            invariant
                *self == *old(self),
                self.has(t),
                dims == self.shape(t),
                q <= n == dims.len(),
                before@.len() == n,
                after@.len() == n,
                forall|q: int|
                    0 <= q < before@.len() ==> dims[q] + #[trigger] before@[q] + after@[q]
                        <= usize::MAX,
                new@ == padded_dims(dims, before@, after@).take(q as int),
            decreases n - q,
        {
            assert(dims[q as int] + before@[q as int] + after@[q as int] <= usize::MAX);
            let d: usize = self.nodes[t.id].dims[q];
            new.push(d + before[q] + after[q]);
            proof {
                let all = padded_dims(dims, before@, after@);
                assert(all.take(q + 1) =~= all.take(q as int).push(all[q as int]));
            }
            q = q + 1;
        }
        proof {
            let all = padded_dims(dims, before@, after@);
            assert(all.take(q as int) =~= all);
        }
        let ghost before_push = self@;
        let r = self.push(Op::Pad { input: t.id, before, after }, new);
        proof {
            assert forall|m: Model, idx: Seq<int>|
                #![trigger element(self@, r.id as int, m, idx)]
                element(self@, r.id as int, m, idx) == if inside(moved_back(idx, before@), dims) {
                    element(before_push, t.id as int, m, moved_back(idx, before@))
                } else {
                    m.zero
                } by {
                assert(element(self@, t.id as int, m, moved_back(idx, before@)) == element(before_push, t.id as int, m, moved_back(idx, before@)));
            }
        }
        r
    }

    /// All windows of a tensor.
    pub fn unfold(
        &mut self,
        t: GraphTensor,
        kernel: Vec<usize>,
        stride: Vec<usize>,
        dilation: Vec<usize>,
    ) -> (r: GraphTensor)
        requires
            old(self).has(t),
            kernel@.len() == old(self).shape(t).len(),
            stride@.len() == old(self).shape(t).len(),
            dilation@.len() == old(self).shape(t).len(),
            forall|q: int| 0 <= q < kernel@.len() ==> #[trigger] kernel@[q] >= 1,
            forall|q: int| 0 <= q < stride@.len() ==> #[trigger] stride@[q] >= 1,
        ensures
            extends(old(self)@, final(self)@),
            final(self)@ == old(self)@.push(
                NodeView {
                    op: Op::Unfold { input: t.id, kernel, stride, dilation },
                    dims: unfolded_dims(old(self).shape(t), kernel@, stride@, dilation@),
                },
            ),
            r.id == old(self)@.len(),
            forall|m: Model, idx: Seq<int>| #[trigger]
                element(final(self)@, r.id as int, m, idx) == element(
                    old(self)@,
                    t.id as int,
                    m,
                    window_place(idx, kernel@.len(), stride@, dilation@),
                ),
    {
        let ghost dims = self.shape(t);
        let mut new: Vec<usize> = Vec::new();
        let mut q: usize = 0;
        let n: usize = self.nodes[t.id].dims.len();
        while q < n
            invariant
                *self == *old(self),
                self.has(t),
                dims == self.shape(t),
                q <= n == dims.len(),
                kernel@.len() == n,
                stride@.len() == n,
                dilation@.len() == n,
                forall|q: int| 0 <= q < kernel@.len() ==> #[trigger] kernel@[q] >= 1,
                forall|q: int| 0 <= q < stride@.len() ==> #[trigger] stride@[q] >= 1,
                new@ == unfolded_dims(dims, kernel@, stride@, dilation@).take(q as int),
            decreases n - q,
        {
            let d: usize = self.nodes[t.id].dims[q];
            let w = window_count(d, kernel[q], stride[q], dilation[q]);
            new.push(w);
            proof {
                let all = unfolded_dims(dims, kernel@, stride@, dilation@);
                assert(all.take(q + 1) =~= all.take(q as int).push(all[q as int]));
            }
            q = q + 1;
        }
        let ks = copy_dims(&kernel);
        let mut i: usize = 0;
        let ghost first = new@;
        while i < ks.len()
            invariant
                i <= ks@.len(),
                new@ == first + ks@.take(i as int),
            decreases ks@.len() - i,
        {
            new.push(ks[i]);
            proof {
                assert(ks@.take(i + 1) =~= ks@.take(i as int).push(ks@[i as int]));
                assert(first + ks@.take(i + 1) =~= (first + ks@.take(i as int)).push(
                    ks@[i as int],
                ));
            }
            i = i + 1;
        }
        proof {
            assert(ks@.take(i as int) =~= ks@);
            assert(new@ =~= unfolded_dims(dims, kernel@, stride@, dilation@));
        }
        let ghost before_push = self@;
        let r = self.push(Op::Unfold { input: t.id, kernel, stride, dilation }, new);
        proof {
            assert forall|m: Model, idx: Seq<int>|
                #![trigger element(self@, r.id as int, m, idx)]
                element(self@, r.id as int, m, idx) == element(before_push, t.id as int, m, window_place(idx, kernel@.len(), stride@, dilation@)) by {
                assert(element(self@, t.id as int, m, window_place(idx, kernel@.len(), stride@, dilation@)) == element(before_push, t.id as int, m, window_place(idx, kernel@.len(), stride@, dilation@)));
            }
        }
        r
    }

    /// With the axes in another order.
    pub fn permute(&mut self, t: GraphTensor, order: Vec<usize>) -> (r: GraphTensor)
        requires
            old(self).has(t),
            is_order(order@, old(self).shape(t).len()),
        ensures
            extends(old(self)@, final(self)@),
            final(self)@ == old(self)@.push(
                NodeView {
                    op: Op::Permute { input: t.id, order },
                    dims: permuted_dims(old(self).shape(t), order@),
                },
            ),
            r.id == old(self)@.len(),
            forall|m: Model, idx: Seq<int>| #[trigger]
                element(final(self)@, r.id as int, m, idx) == element(
                    old(self)@,
                    t.id as int,
                    m,
                    unpermuted(order@, idx),
                ),
    {
        let ghost dims = self.shape(t);
        let mut new: Vec<usize> = Vec::new();
        let mut i: usize = 0;
        while i < order.len()
            invariant
                *self == *old(self),
                self.has(t),
                dims == self.shape(t),
                is_order(order@, dims.len()),
                i <= order@.len(),
                new@ == permuted_dims(dims, order@).take(i as int),
            decreases order@.len() - i,
        {
            let q: usize = order[i];
            let d: usize = self.nodes[t.id].dims[q];
            new.push(d);
            proof {
                let all = permuted_dims(dims, order@);
                assert(all.take(i + 1) =~= all.take(i as int).push(all[i as int]));
            }
            i = i + 1;
        }
        proof {
            let all = permuted_dims(dims, order@);
            assert(all.take(i as int) =~= all);
        }
        let ghost before_push = self@;
        let r = self.push(Op::Permute { input: t.id, order }, new);
        proof {
            assert forall|m: Model, idx: Seq<int>|
                #![trigger element(self@, r.id as int, m, idx)]
                element(self@, r.id as int, m, idx) == element(before_push, t.id as int, m, unpermuted(order@, idx)) by {
                assert(element(self@, t.id as int, m, unpermuted(order@, idx)) == element(before_push, t.id as int, m, unpermuted(order@, idx)));
            }
        }
        r
    }

    /// Without an axis of size 1.
    pub fn squeeze(&mut self, t: GraphTensor, axis: usize) -> (r: GraphTensor)
        requires
            old(self).has(t),
            axis < old(self).shape(t).len(),
            old(self).shape(t)[axis as int] == 1,
        ensures
            extends(old(self)@, final(self)@),
            final(self)@ == old(self)@.push(
                NodeView {
                    op: Op::Squeeze { input: t.id, axis },
                    dims: old(self).shape(t).remove(axis as int),
                },
            ),
            r.id == old(self)@.len(),
            forall|m: Model, idx: Seq<int>| #[trigger]
                element(final(self)@, r.id as int, m, idx) == element(
                    old(self)@,
                    t.id as int,
                    m,
                    idx.insert(axis as int, 0),
                ),
    {
        let mut new = copy_dims(self.dims(t));
        new.remove(axis);
        let ghost before_push = self@;
        let r = self.push(Op::Squeeze { input: t.id, axis }, new);
        proof {
            assert forall|m: Model, idx: Seq<int>|
                #![trigger element(self@, r.id as int, m, idx)]
                element(self@, r.id as int, m, idx) == element(before_push, t.id as int, m, idx.insert(axis as int, 0)) by {
                assert(element(self@, t.id as int, m, idx.insert(axis as int, 0)) == element(before_push, t.id as int, m, idx.insert(axis as int, 0)));
            }
        }
        r
    }

    /// Repeated along a new axis.
    pub fn expand_dim(&mut self, t: GraphTensor, axis: usize, size: usize) -> (r: GraphTensor)
        requires
            old(self).has(t),
            axis <= old(self).shape(t).len(),
        ensures
            extends(old(self)@, final(self)@),
            final(self)@ == old(self)@.push(
                NodeView {
                    op: Op::ExpandDim { input: t.id, axis, size },
                    dims: old(self).shape(t).insert(axis as int, size),
                },
            ),
            r.id == old(self)@.len(),
            forall|m: Model, idx: Seq<int>| #[trigger]
                element(final(self)@, r.id as int, m, idx) == element(
                    old(self)@,
                    t.id as int,
                    m,
                    idx.remove(axis as int),
                ),
    {
        let mut new = copy_dims(self.dims(t));
        new.insert(axis, size);
        let ghost before_push = self@;
        let r = self.push(Op::ExpandDim { input: t.id, axis, size }, new);
        proof {
            assert forall|m: Model, idx: Seq<int>|
                #![trigger element(self@, r.id as int, m, idx)]
                element(self@, r.id as int, m, idx) == element(before_push, t.id as int, m, idx.remove(axis as int)) by {
                assert(element(self@, t.id as int, m, idx.remove(axis as int)) == element(before_push, t.id as int, m, idx.remove(axis as int)));
            }
        }
        r
    }

    /// An axis split in two, the second of the given size.
    pub fn split_dims(&mut self, t: GraphTensor, axis: usize, size: usize) -> (r: GraphTensor)
        requires
            old(self).has(t),
            axis < old(self).shape(t).len(),
            size > 0,
            old(self).shape(t)[axis as int] % size == 0,
        ensures
            extends(old(self)@, final(self)@),
            final(self)@ == old(self)@.push(
                NodeView {
                    op: Op::SplitDims { input: t.id, axis, size },
                    dims: old(self).shape(t).update(
                        axis as int,
                        (old(self).shape(t)[axis as int] / size),
                    ).insert(axis + 1, size),
                },
            ),
            r.id == old(self)@.len(),
            forall|m: Model, idx: Seq<int>| #[trigger]
                element(final(self)@, r.id as int, m, idx) == element(
                    old(self)@,
                    t.id as int,
                    m,
                    unsplit(idx, axis as int, size as int),
                ),
    {
        let mut new = copy_dims(self.dims(t));
        assert(axis < new.len());
        let d: usize = new[axis];
        new.set(axis, d / size);
        let next: usize = axis + 1;
        new.insert(next, size);
        let ghost before_push = self@;
        let r = self.push(Op::SplitDims { input: t.id, axis, size }, new);
        proof {
            assert forall|m: Model, idx: Seq<int>|
                #![trigger element(self@, r.id as int, m, idx)]
                element(self@, r.id as int, m, idx) == element(before_push, t.id as int, m, unsplit(idx, axis as int, size as int)) by {
                assert(element(self@, t.id as int, m, unsplit(idx, axis as int, size as int)) == element(before_push, t.id as int, m, unsplit(idx, axis as int, size as int)));
            }
        }
        r
    }

    /// An axis and the one after it made one.
    pub fn merge_dims(&mut self, t: GraphTensor, axis: usize) -> (r: GraphTensor)
        requires
            old(self).has(t),
            axis + 1 < old(self).shape(t).len(),
            old(self).shape(t)[axis as int] * old(self).shape(t)[axis + 1] <= usize::MAX,
        ensures
            extends(old(self)@, final(self)@),
            final(self)@ == old(self)@.push(
                NodeView {
                    op: Op::MergeDims { input: t.id, axis },
                    dims: old(self).shape(t).remove(axis + 1).update(
                        axis as int,
                        (old(self).shape(t)[axis as int] * old(self).shape(t)[axis + 1]) as usize,
                    ),
                },
            ),
            r.id == old(self)@.len(),
            forall|m: Model, idx: Seq<int>| #[trigger]
                element(final(self)@, r.id as int, m, idx) == element(
                    old(self)@,
                    t.id as int,
                    m,
                    unmerged(idx, axis as int, old(self).shape(t)[axis + 1] as int),
                ),
    {
        let mut new = copy_dims(self.dims(t));
        assert(axis < new.len());
        let second: usize = new.remove(axis + 1);
        let first: usize = new[axis];
        new.set(axis, first * second);
        let ghost before_push = self@;
        let r = self.push(Op::MergeDims { input: t.id, axis }, new);
        proof {
            assert forall|m: Model, idx: Seq<int>|
                #![trigger element(self@, r.id as int, m, idx)]
                element(self@, r.id as int, m, idx) == element(before_push, t.id as int, m, unmerged(idx, axis as int, before_push[t.id as int].dims[axis + 1] as int)) by {
                assert(element(self@, t.id as int, m, unmerged(idx, axis as int, before_push[t.id as int].dims[axis + 1] as int)) == element(before_push, t.id as int, m, unmerged(idx, axis as int, before_push[t.id as int].dims[axis + 1] as int)));
            }
        }
        r
    }

    /// The part from `start` to before `end` along an axis.
    pub fn slice_along(&mut self, t: GraphTensor, start: usize, end: usize, axis: usize) -> (r:
        GraphTensor)
        requires
            old(self).has(t),
            axis < old(self).shape(t).len(),
            start <= end <= old(self).shape(t)[axis as int],
        ensures
            extends(old(self)@, final(self)@),
            final(self)@ == old(self)@.push(
                NodeView {
                    op: Op::Slice { input: t.id, axis, start, end },
                    dims: old(self).shape(t).update(axis as int, (end - start) as usize),
                },
            ),
            r.id == old(self)@.len(),
            forall|m: Model, idx: Seq<int>| #[trigger]
                element(final(self)@, r.id as int, m, idx) == element(
                    old(self)@,
                    t.id as int,
                    m,
                    shifted(idx, axis as int, start as int),
                ),
    {
        let mut new = copy_dims(self.dims(t));
        new.set(axis, end - start);
        let ghost before_push = self@;
        let r = self.push(Op::Slice { input: t.id, axis, start, end }, new);
        proof {
            assert forall|m: Model, idx: Seq<int>|
                #![trigger element(self@, r.id as int, m, idx)]
                element(self@, r.id as int, m, idx) == element(before_push, t.id as int, m, shifted(idx, axis as int, start as int)) by {
                assert(element(self@, t.id as int, m, shifted(idx, axis as int, start as int)) == element(before_push, t.id as int, m, shifted(idx, axis as int, start as int)));
            }
        }
        r
    }

    /// One tensor after the other along an axis.
    pub fn concat_along(&mut self, a: GraphTensor, b: GraphTensor, axis: usize) -> (r: GraphTensor)
        requires
            old(self).has(a),
            old(self).has(b),
            axis < old(self).shape(a).len(),
            same_but(old(self).shape(a), old(self).shape(b), axis as int),
            old(self).shape(a)[axis as int] + old(self).shape(b)[axis as int] <= usize::MAX,
        ensures
            extends(old(self)@, final(self)@),
            final(self)@ == old(self)@.push(
                NodeView {
                    op: Op::Concat { left: a.id, right: b.id, axis },
                    dims: old(self).shape(a).update(
                        axis as int,
                        (old(self).shape(a)[axis as int] + old(self).shape(b)[axis as int]) as usize,
                    ),
                },
            ),
            r.id == old(self)@.len(),
            forall|m: Model, idx: Seq<int>| #[trigger]
                element(final(self)@, r.id as int, m, idx) == if idx[axis as int] < old(self).shape(
                    a,
                )[axis as int] {
                    element(old(self)@, a.id as int, m, idx)
                } else {
                    element(
                        old(self)@,
                        b.id as int,
                        m,
                        shifted(idx, axis as int, -old(self).shape(a)[axis as int]),
                    )
                },
    {
        let mut new = copy_dims(self.dims(a));
        let first: usize = new[axis];
        let second: usize = self.nodes[b.id].dims[axis];
        new.set(axis, first + second);
        let ghost before_push = self@;
        let r = self.push(Op::Concat { left: a.id, right: b.id, axis }, new);
        proof {
            assert forall|m: Model, idx: Seq<int>|
                #![trigger element(self@, r.id as int, m, idx)]
                element(self@, r.id as int, m, idx) == if idx[axis as int] < before_push[a.id as int].dims[axis as int] {
                    element(before_push, a.id as int, m, idx)
                } else {
                    element(before_push, b.id as int, m, shifted(idx, axis as int, -before_push[a.id as int].dims[axis as int]))
                } by {
                let back = shifted(idx, axis as int, -before_push[a.id as int].dims[axis as int]);
                assert(element(self@, a.id as int, m, idx) == element(before_push, a.id as int, m, idx));
                assert(element(self@, b.id as int, m, back) == element(before_push, b.id as int, m, back));
            }
        }
        r
    }

    /// The sum of two tensors, element by element.
    pub fn plus(&mut self, a: GraphTensor, b: GraphTensor) -> (r: GraphTensor)
        requires
            old(self).has(a),
            old(self).has(b),
            old(self).shape(a) == old(self).shape(b),
        ensures
            extends(old(self)@, final(self)@),
            final(self)@ == old(self)@.push(
                NodeView {
                    op: Op::Add { left: a.id, right: b.id },
                    dims: old(self).shape(a),
                },
            ),
            r.id == old(self)@.len(),
            forall|m: Model, idx: Seq<int>| #[trigger]
                element(final(self)@, r.id as int, m, idx) == (m.plus)(
                    element(old(self)@, a.id as int, m, idx),
                    element(old(self)@, b.id as int, m, idx),
                ),
    {
        let new = copy_dims(self.dims(a));
        let ghost before_push = self@;
        let r = self.push(Op::Add { left: a.id, right: b.id }, new);
        proof {
            assert forall|m: Model, idx: Seq<int>|
                #![trigger element(self@, r.id as int, m, idx)]
                element(self@, r.id as int, m, idx) == (m.plus)(element(before_push, a.id as int, m, idx), element(before_push, b.id as int, m, idx)) by {
                assert(element(self@, a.id as int, m, idx) == element(before_push, a.id as int, m, idx));
                assert(element(self@, b.id as int, m, idx) == element(before_push, b.id as int, m, idx));
            }
        }
        r
    }

    /// The product of two tensors, element by element.
    pub fn times(&mut self, a: GraphTensor, b: GraphTensor) -> (r: GraphTensor)
        requires
            old(self).has(a),
            old(self).has(b),
            old(self).shape(a) == old(self).shape(b),
        ensures
            extends(old(self)@, final(self)@),
            final(self)@ == old(self)@.push(
                NodeView {
                    op: Op::Mul { left: a.id, right: b.id },
                    dims: old(self).shape(a),
                },
            ),
            r.id == old(self)@.len(),
            forall|m: Model, idx: Seq<int>| #[trigger]
                element(final(self)@, r.id as int, m, idx) == (m.times)(
                    element(old(self)@, a.id as int, m, idx),
                    element(old(self)@, b.id as int, m, idx),
                ),
    {
        let new = copy_dims(self.dims(a));
        let ghost before_push = self@;
        let r = self.push(Op::Mul { left: a.id, right: b.id }, new);
        proof {
            assert forall|m: Model, idx: Seq<int>|
                #![trigger element(self@, r.id as int, m, idx)]
                element(self@, r.id as int, m, idx) == (m.times)(element(before_push, a.id as int, m, idx), element(before_push, b.id as int, m, idx)) by {
                assert(element(self@, a.id as int, m, idx) == element(before_push, a.id as int, m, idx));
                assert(element(self@, b.id as int, m, idx) == element(before_push, b.id as int, m, idx));
            }
        }
        r
    }

    /// Summed up along an axis.
    pub fn sum(&mut self, t: GraphTensor, axis: usize) -> (r: GraphTensor)
        requires
            old(self).has(t),
            axis < old(self).shape(t).len(),
        ensures
            extends(old(self)@, final(self)@),
            final(self)@ == old(self)@.push(
                NodeView {
                    op: Op::Sum { input: t.id, axis },
                    dims: old(self).shape(t).remove(axis as int),
                },
            ),
            r.id == old(self)@.len(),
            forall|m: Model, idx: Seq<int>| #[trigger]
                element(final(self)@, r.id as int, m, idx) == sum_to(
                    m,
                    old(self).shape(t)[axis as int] as nat,
                    |k: int| element(old(self)@, t.id as int, m, idx.insert(axis as int, k)),
                ),
    {
        let mut new = copy_dims(self.dims(t));
        new.remove(axis);
        let ghost before = self@;
        let ghost n = self.shape(t)[axis as int] as nat;
        let r = self.push(Op::Sum { input: t.id, axis }, new);
        proof {
            assert forall|m: Model, idx: Seq<int>| #[trigger]
                element(self@, r.id as int, m, idx) == sum_to(
                    m,
                    n,
                    |k: int| element(before, t.id as int, m, idx.insert(axis as int, k)),
                ) by {
                lemma_axis_sum(
                    self@,
                    t.id as int,
                    axis as int,
                    n,
                    m,
                    idx,
                    |k: int| element(before, t.id as int, m, idx.insert(axis as int, k)),
                );
            }
        }
        r
    }
}

/// The sum of a function over all places of a tensor of these dimensions, summed up
/// along the last axis first.
pub open spec fn nested_sum(m: Model, dims: Seq<usize>, f: spec_fn(Seq<int>) -> int) -> int
    decreases dims.len(),
{
    if dims.len() == 0 {
        f(Seq::empty())
    } else {
        nested_sum(
            m,
            dims.drop_last(),
            |t: Seq<int>| sum_to(m, dims.last() as nat, |k: int| f(t.push(k))),
        )
    }
}

/// The sum of the elements whose places begin with `idx`, over the axes that follow.
pub open spec fn tail_sum(
    g: Seq<NodeView>,
    i: int,
    tail: Seq<usize>,
    m: Model,
    idx: Seq<int>,
) -> int {
    nested_sum(m, tail, |p: Seq<int>| element(g, i, m, idx + p))
}

/// Sums of equal terms are equal.
pub proof fn lemma_nested_same(
    m: Model,
    dims: Seq<usize>,
    a: spec_fn(Seq<int>) -> int,
    b: spec_fn(Seq<int>) -> int,
)
    requires
        forall|t: Seq<int>| inside(t, dims) ==> #[trigger] a(t) == b(t),
    ensures
        nested_sum(m, dims, a) == nested_sum(m, dims, b),
    decreases dims.len(),
{
    if dims.len() == 0 {
        assert(inside(Seq::empty(), dims));
    } else {
        let n = dims.last() as nat;
        let a1 = |t: Seq<int>| sum_to(m, n, |k: int| a(t.push(k)));
        let b1 = |t: Seq<int>| sum_to(m, n, |k: int| b(t.push(k)));
        assert forall|t: Seq<int>| inside(t, dims.drop_last()) implies #[trigger] a1(t) == b1(t) by {
            let at = |k: int| a(t.push(k));
            let bt = |k: int| b(t.push(k));
            assert forall|k: int| 0 <= k < n implies #[trigger] at(k) == bt(k) by {
                assert forall|q: int| 0 <= q < dims.len() implies 0 <= #[trigger] t.push(k)[q]
                    < dims[q] by {
                    if q < t.len() {
                        assert(t.push(k)[q] == t[q]);
                        assert(dims.drop_last()[q] == dims[q]);
                    }
                }
                assert(inside(t.push(k), dims));
            }
            lemma_sum_same(m, n, at, bt);
        }
        lemma_nested_same(m, dims.drop_last(), a1, b1);
    }
}

impl Graph {
    /// Repeated along new axes before all others: as many as the first `n` of `dims`,
    /// and of their sizes.
    pub fn expand_lhs(&mut self, t: GraphTensor, dims: &Vec<usize>, n: usize) -> (r: GraphTensor)
        requires
            old(self).has(t),
            n <= dims@.len(),
        ensures
            extends(old(self)@, final(self)@),
            final(self).has(r),
            final(self).shape(r) == dims@.take(n as int) + old(self).shape(t),
            forall|m: Model, idx: Seq<int>|
                idx.len() >= n ==> #[trigger] element(final(self)@, r.id as int, m, idx) == element(
                    old(self)@,
                    t.id as int,
                    m,
                    idx.skip(n as int),
                ),
    {
        let ghost g0 = self@;
        let ghost shape0 = self.shape(t);
        let mut cur = t;
        let mut i: usize = 0;
        proof {
            assert(dims@.take(0) + shape0 =~= shape0);
            assert forall|m: Model, idx: Seq<int>|
                idx.len() >= 0 implies #[trigger] element(self@, cur.id as int, m, idx) == element(
                g0,
                t.id as int,
                m,
                idx.skip(0),
            ) by {
                assert(idx.skip(0) =~= idx);
            }
        }
        while i < n
            invariant
                i <= n <= dims@.len(),
                extends(g0, self@),
                self.has(cur),
                self.shape(cur) == dims@.take(i as int) + shape0,
                forall|m: Model, idx: Seq<int>|
                    idx.len() >= i ==> #[trigger] element(self@, cur.id as int, m, idx) == element(
                        g0,
                        t.id as int,
                        m,
                        idx.skip(i as int),
                    ),
            decreases n - i,
        {
            let ghost before = self@;
            let ghost last = cur;
            cur = self.expand_dim(cur, i, dims[i]);
            proof {
                assert((dims@.take(i as int) + shape0).insert(i as int, dims@[i as int])
                    =~= dims@.take(i + 1) + shape0);
                assert forall|m: Model, idx: Seq<int>|
                    idx.len() >= i + 1 implies #[trigger] element(self@, cur.id as int, m, idx)
                    == element(g0, t.id as int, m, idx.skip(i + 1)) by {
                    assert(element(self@, cur.id as int, m, idx) == element(
                        before,
                        last.id as int,
                        m,
                        idx.remove(i as int),
                    ));
                    assert(idx.remove(i as int).skip(i as int) =~= idx.skip(i + 1));
                }
            }
            i = i + 1;
        }
        cur
    }

    /// Repeated along new axes after all others, of the sizes in `dims` from the one at
    /// `from` on.
    pub fn expand_rhs(&mut self, t: GraphTensor, dims: &Vec<usize>, from: usize) -> (r: GraphTensor)
        requires
            old(self).has(t),
            from <= dims@.len(),
            old(self).shape(t).len() + dims@.len() - from <= usize::MAX,
        ensures
            extends(old(self)@, final(self)@),
            final(self).has(r),
            final(self).shape(r) == old(self).shape(t) + dims@.skip(from as int),
            forall|m: Model, idx: Seq<int>|
                idx.len() == old(self).shape(t).len() + dims@.len() - from ==> #[trigger] element(
                    final(self)@,
                    r.id as int,
                    m,
                    idx,
                ) == element(old(self)@, t.id as int, m, idx.take(old(self).shape(t).len() as int)),
    {
        let ghost g0 = self@;
        let ghost shape0 = self.shape(t);
        let rank: usize = self.nodes[t.id].dims.len();
        let mut cur = t;
        let mut i: usize = from;
        proof {
            assert(shape0 + dims@.subrange(from as int, from as int) =~= shape0);
            assert forall|m: Model, idx: Seq<int>| idx.len() == rank implies #[trigger] element(
                self@,
                cur.id as int,
                m,
                idx,
            ) == element(g0, t.id as int, m, idx.take(rank as int)) by {
                assert(idx.take(rank as int) =~= idx);
            }
        }
        while i < dims.len()
            invariant
                from <= i <= dims@.len(),
                rank == shape0.len(),
                rank + dims@.len() - from <= usize::MAX,
                extends(g0, self@),
                self.has(cur),
                self.shape(cur) == shape0 + dims@.subrange(from as int, i as int),
                forall|m: Model, idx: Seq<int>|
                    idx.len() == rank + i - from ==> #[trigger] element(
                        self@,
                        cur.id as int,
                        m,
                        idx,
                    ) == element(g0, t.id as int, m, idx.take(rank as int)),
            decreases dims@.len() - i,
        {
            let ghost before = self@;
            let ghost last = cur;
            let axis: usize = rank + (i - from);
            cur = self.expand_dim(cur, axis, dims[i]);
            proof {
                assert((shape0 + dims@.subrange(from as int, i as int)).insert(
                    axis as int,
                    dims@[i as int],
                ) =~= shape0 + dims@.subrange(from as int, i + 1));
                assert forall|m: Model, idx: Seq<int>|
                    idx.len() == rank + i + 1 - from implies #[trigger] element(
                    self@,
                    cur.id as int,
                    m,
                    idx,
                ) == element(g0, t.id as int, m, idx.take(rank as int)) by {
                    assert(element(self@, cur.id as int, m, idx) == element(
                        before,
                        last.id as int,
                        m,
                        idx.remove(axis as int),
                    ));
                    assert(idx.remove(axis as int).take(rank as int) =~= idx.take(rank as int));
                }
            }
            i = i + 1;
        }
        proof {
            assert(dims@.subrange(from as int, i as int) =~= dims@.skip(from as int));
        }
        cur
    }

    /// Summed up along the last axes, `count` of them.
    pub fn sum_last(&mut self, t: GraphTensor, count: usize) -> (r: GraphTensor)
        requires
            old(self).has(t),
            count <= old(self).shape(t).len(),
        ensures
            extends(old(self)@, final(self)@),
            final(self).has(r),
            final(self).shape(r) == old(self).shape(t).take(old(self).shape(t).len() - count),
            forall|m: Model, idx: Seq<int>|
                idx.len() == old(self).shape(t).len() - count ==> #[trigger] element(
                    final(self)@,
                    r.id as int,
                    m,
                    idx,
                ) == tail_sum(
                    old(self)@,
                    t.id as int,
                    old(self).shape(t).skip(old(self).shape(t).len() - count),
                    m,
                    idx,
                ),
    {
        let ghost g0 = self@;
        let ghost shape0 = self.shape(t);
        let rank: usize = self.nodes[t.id].dims.len();
        let ghost keep = rank - count;
        let ghost tail = shape0.skip(keep);
        let mut cur = t;
        let mut left: usize = count;
        proof {
            assert(shape0.take(rank as int) =~= shape0);
            assert(tail.take(count as int) =~= tail);
        }
        while left > 0
            invariant
                left <= count <= rank == shape0.len(),
                keep == rank - count,
                tail == shape0.skip(keep),
                extends(g0, self@),
                self.has(cur),
                self.shape(cur) == shape0.take(keep + left),
                forall|m: Model, idx: Seq<int>|
                    idx.len() == keep ==> #[trigger] tail_sum(g0, t.id as int, tail, m, idx) == nested_sum(
                        m,
                        tail.take(left as int),
                        |p: Seq<int>| element(self@, cur.id as int, m, idx + p),
                    ),
            decreases left,
        {
            let ghost before = self@;
            let ghost last = cur;
            let axis: usize = rank - count + left - 1;
            cur = self.sum(cur, axis);
            proof {
                assert(shape0.take(keep + left).remove(axis as int) =~= shape0.take(
                    keep + left - 1,
                ));
                assert(tail.take(left as int).drop_last() =~= tail.take(left - 1));
                assert(tail.take(left as int).last() == shape0[axis as int]);
                assert forall|m: Model, idx: Seq<int>| idx.len() == keep implies #[trigger]
                    tail_sum(g0, t.id as int, tail, m, idx) == nested_sum(
                        m,
                        tail.take(left - 1),
                        |p: Seq<int>| element(self@, cur.id as int, m, idx + p),
                    ) by {
                    let f = |p: Seq<int>| element(before, last.id as int, m, idx + p);
                    let n = tail.take(left as int).last() as nat;
                    let a = |p: Seq<int>| sum_to(m, n, |k: int| f(p.push(k)));
                    let b = |p: Seq<int>| element(self@, cur.id as int, m, idx + p);
                    assert forall|p: Seq<int>| inside(p, tail.take(left - 1)) implies #[trigger] a(
                        p,
                    ) == b(p) by {
                        let fk = |k: int| f(p.push(k));
                        let ek = |k: int|
                            element(before, last.id as int, m, (idx + p).insert(axis as int, k));
                        assert forall|k: int| 0 <= k < n implies #[trigger] fk(k) == ek(k) by {
                            assert((idx + p).insert(axis as int, k) =~= idx + p.push(k));
                        }
                        lemma_sum_same(m, n, fk, ek);
                        assert(element(self@, cur.id as int, m, idx + p) == sum_to(m, n, ek));
                    }
                    lemma_nested_same(m, tail.take(left - 1), a, b);
                }
            }
            left = left - 1;
        }
        proof {
            assert(tail.take(0) =~= Seq::<usize>::empty());
            assert forall|m: Model, idx: Seq<int>| idx.len() == keep implies #[trigger] element(
                self@,
                cur.id as int,
                m,
                idx,
            ) == tail_sum(g0, t.id as int, tail, m, idx) by {
                assert(idx + Seq::<int>::empty() =~= idx);
                assert(tail_sum(g0, t.id as int, tail, m, idx) == nested_sum(
                    m,
                    tail.take(0),
                    |p: Seq<int>| element(self@, cur.id as int, m, idx + p),
                ));
            }
        }
        cur
    }
}

/// How many places a window has.
pub fn window_count(dim: usize, kernel: usize, stride: usize, dilation: usize) -> (r: usize)
    requires
        kernel >= 1,
        stride >= 1,
    ensures
        r == windows(dim as int, kernel as int, stride as int, dilation as int),
{
    if dim == 0 {
        proof {
            assert(dilation * (kernel - 1) >= 0) by (nonlinear_arith)
                requires
                    kernel >= 1,
                    dilation >= 0,
            ;
        }
        return 0;
    }
    proof {
        assert(dilation * (kernel - 1) >= 0) by (nonlinear_arith)
            requires
                kernel >= 1,
                dilation >= 0,
        ;
    }
    match dilation.checked_mul(kernel - 1) {
        None => 0,
        Some(span) => {
            if span > dim - 1 {
                0
            } else {
                let free: usize = dim - 1 - span;
                proof {
                    assert(free / stride <= free) by (nonlinear_arith)
                        requires
                            stride >= 1,
                            free >= 0,
                    ;
                }
                free / stride + 1
            }
        },
    }
}

/// The product of all numbers.
pub open spec fn product(s: Seq<usize>) -> int
    decreases s.len(),
{
    if s.len() == 0 {
        1
    } else {
        product(s.drop_last()) * s.last()
    }
}

/// The product of the first numbers, one more of them at a time.
pub proof fn lemma_product_step(s: Seq<usize>, r: int)
    requires
        0 < r <= s.len(),
    ensures
        product(s.take(r)) == product(s.take(r - 1)) * s[r - 1],
{
    assert(s.take(r).drop_last() =~= s.take(r - 1));
    assert(s.take(r).last() == s[r - 1]);
}

/// The product of positive numbers is positive.
pub proof fn lemma_product_positive(s: Seq<usize>)
    requires
        forall|q: int| 0 <= q < s.len() ==> #[trigger] s[q] >= 1,
    ensures
        product(s) >= 1,
    decreases s.len(),
{
    if s.len() > 0 {
        let d = s.drop_last();
        assert forall|q: int| 0 <= q < d.len() implies #[trigger] d[q] >= 1 by {
            assert(d[q] == s[q]);
        }
        lemma_product_positive(d);
        let a = product(d);
        let b = s.last() as int;
        assert(s[s.len() - 1] >= 1);
        assert(a * b >= 1) by (nonlinear_arith)
            requires
                a >= 1,
                b >= 1,
        ;
    }
}

/// Whether the numbers can be multiplied one after the other.
pub open spec fn product_fits(s: Seq<usize>) -> bool {
    forall|r: int| 0 <= r <= s.len() ==> #[trigger] product(s.take(r)) <= usize::MAX
}

pub(crate) fn product_of(v: &Vec<usize>) -> (r: usize)
    requires
        product_fits(v@),
    ensures
        r == product(v@),
{
    let mut p: usize = 1;
    let mut i: usize = 0;
    assert(v@.take(0) =~= Seq::<usize>::empty());
    while i < v.len()
        invariant
            i <= v@.len(),
            product_fits(v@),
            p == product(v@.take(i as int)),
        decreases v@.len() - i,
    {
        proof {
            lemma_product_step(v@, i + 1);
            assert(product(v@.take(i + 1)) <= usize::MAX);
        }
        p = p * v[i];
        i = i + 1;
    }
    assert(v@.take(i as int) =~= v@);
    p
}

/// Windows are complete and no more than fit: there is one at a place if and only if its last
/// element lies within the axis.
pub proof fn law_windows_are_those_that_fit(
    dim: int,
    kernel: int,
    stride: int,
    dilation: int,
    i: int,
)
    requires
        0 <= dim,
        1 <= kernel,
        1 <= stride,
        0 <= dilation,
        0 <= i,
    ensures
        i < windows(dim, kernel, stride, dilation) <==> i * stride + (kernel - 1) * dilation < dim,
{
    let reach = dilation * (kernel - 1) + 1;
    assert(dilation * (kernel - 1) == (kernel - 1) * dilation) by (nonlinear_arith);
    assert((kernel - 1) * dilation >= 0) by (nonlinear_arith)
        requires
            kernel >= 1,
            dilation >= 0,
    ;
    assert(i * stride >= 0) by (nonlinear_arith)
        requires
            i >= 0,
            stride >= 1,
    ;
    if dim >= reach {
        let free = dim - reach;
        let last = free / stride;
        vstd::arithmetic::div_mod::lemma_fundamental_div_mod(free, stride);
        let left = free % stride;
        assert(free == stride * last + left && 0 <= left < stride);
        if i <= last {
            assert(i * stride <= stride * last) by (nonlinear_arith)
                requires
                    i <= last,
                    stride >= 1,
            ;
        } else {
            assert(i * stride >= stride * last + stride) by (nonlinear_arith)
                requires
                    i >= last + 1,
                    stride >= 1,
            ;
        }
    }
}

/// The last window fits, and one more would not.
pub proof fn law_windows_are_complete(dim: int, kernel: int, stride: int, dilation: int)
    requires
        0 <= dim,
        1 <= kernel,
        1 <= stride,
        0 <= dilation,
    ensures
        0 <= windows(dim, kernel, stride, dilation) <= dim,
        dim > (kernel - 1) * dilation ==> windows(dim, kernel, stride, dilation) >= 1 && (windows(
            dim,
            kernel,
            stride,
            dilation,
        ) - 1) * stride + (kernel - 1) * dilation < dim <= windows(dim, kernel, stride, dilation)
            * stride + (kernel - 1) * dilation,
        dim <= (kernel - 1) * dilation ==> windows(dim, kernel, stride, dilation) == 0,
{
    let w = windows(dim, kernel, stride, dilation);
    assert(dilation * (kernel - 1) == (kernel - 1) * dilation) by (nonlinear_arith);
    assert((kernel - 1) * dilation >= 0) by (nonlinear_arith)
        requires
            kernel >= 1,
            dilation >= 0,
    ;
    if dim >= reach_of(kernel, dilation) {
        let free = dim - reach_of(kernel, dilation);
        vstd::arithmetic::div_mod::lemma_div_pos_is_pos(free, stride);
    }
    assert(0 * stride == 0);
    law_windows_are_those_that_fit(dim, kernel, stride, dilation, 0);
    law_windows_are_those_that_fit(dim, kernel, stride, dilation, w);
    if w > 0 {
        law_windows_are_those_that_fit(dim, kernel, stride, dilation, w - 1);
        assert((w - 1) * stride >= w - 1) by (nonlinear_arith)
            requires
                w >= 1,
                stride >= 1,
        ;
    }
}

/// A padded tensor holds each element as far on as there is padding before it, and zeros
/// everywhere else.
pub proof fn law_padding_is_of_zeros(
    g: Seq<NodeView>,
    i: int,
    input: usize,
    before: Vec<usize>,
    after: Vec<usize>,
    m: Model,
    idx: Seq<int>,
)
    requires
        input < i < g.len(),
        g[i].op == (Op::Pad { input, before, after }),
        before@.len() == g[input as int].dims.len(),
        idx.len() == before@.len(),
    ensures
        inside(idx, g[input as int].dims) ==> element(
            g,
            i,
            m,
            Seq::new(idx.len(), |q: int| idx[q] + before@[q]),
        ) == element(g, input as int, m, idx),
        (exists|q: int|
            0 <= q < idx.len() && (#[trigger] idx[q] < before@[q] || idx[q] >= before@[q]
                + g[input as int].dims[q])) ==> element(g, i, m, idx) == m.zero,
{
    let there = Seq::new(idx.len(), |q: int| idx[q] + before@[q]);
    assert(moved_back(there, before@) =~= idx);
    let from = moved_back(idx, before@);
    if exists|q: int|
        0 <= q < idx.len() && (#[trigger] idx[q] < before@[q] || idx[q] >= before@[q]
            + g[input as int].dims[q]) {
        let q = choose|q: int|
            0 <= q < idx.len() && (#[trigger] idx[q] < before@[q] || idx[q] >= before@[q]
                + g[input as int].dims[q]);
        assert(from[q] == idx[q] - before@[q]);
        assert(!inside(from, g[input as int].dims));
    }
}

/// The sizes of a padded tensor, of all windows and of a tensor with its axes in another order.
pub proof fn law_sizes_of_operations(
    dims: Seq<usize>,
    before: Seq<usize>,
    after: Seq<usize>,
    kernel: Seq<usize>,
    stride: Seq<usize>,
    dilation: Seq<usize>,
    order: Seq<usize>,
    q: int,
)
    requires
        0 <= q < dims.len(),
        dims[q] + before[q] + after[q] <= usize::MAX,
        kernel.len() == dims.len(),
        kernel[q] >= 1,
        stride[q] >= 1,
        is_order(order, dims.len()),
    ensures
        padded_dims(dims, before, after).len() == dims.len(),
        padded_dims(dims, before, after)[q] == dims[q] + before[q] + after[q],
        unfolded_dims(dims, kernel, stride, dilation).len() == 2 * dims.len(),
        unfolded_dims(dims, kernel, stride, dilation)[dims.len() + q] == kernel[q],
        forall|i: int|
            0 <= i ==> (i < unfolded_dims(dims, kernel, stride, dilation)[q] <==> #[trigger] (i
                * stride[q]) + (kernel[q] - 1) * dilation[q] < dims[q]),
        permuted_dims(dims, order).len() == dims.len(),
        permuted_dims(dims, order)[q] == dims[order[q] as int],
{
    let (d, k, s, l) = (dims[q] as int, kernel[q] as int, stride[q] as int, dilation[q] as int);
    law_windows_are_complete(d, k, s, l);
    let unfolded = unfolded_dims(dims, kernel, stride, dilation);
    assert(unfolded[q] == windows(d, k, s, l));
    assert forall|i: int| 0 <= i implies (i < unfolded[q] <==> #[trigger] (i * stride[q]) + (kernel[q]
        - 1) * dilation[q] < dims[q]) by {
        law_windows_are_those_that_fit(d, k, s, l, i);
    }
}

/// A window holds, at each of its places, the element that lies so many dilations behind its
/// start, and it starts so many strides behind the start of the tensor.
pub proof fn law_windows_hold_elements(
    g: Seq<NodeView>,
    i: int,
    input: usize,
    kernel: Vec<usize>,
    stride: Vec<usize>,
    dilation: Vec<usize>,
    m: Model,
    at: Seq<int>,
    within: Seq<int>,
)
    requires
        input < i < g.len(),
        g[i].op == (Op::Unfold { input, kernel, stride, dilation }),
        at.len() == kernel@.len(),
        within.len() == kernel@.len(),
    ensures
        element(g, i, m, at + within) == element(
            g,
            input as int,
            m,
            Seq::new(at.len(), |q: int| at[q] * stride@[q] + within[q] * dilation@[q]),
        ),
{
    assert(window_place(at + within, kernel@.len(), stride@, dilation@) =~= Seq::new(
        at.len(),
        |q: int| at[q] * stride@[q] + within[q] * dilation@[q],
    ));
}

/// With the axes in another order, an element lies where its coordinates are in that order.
pub proof fn law_axes_in_another_order(
    g: Seq<NodeView>,
    i: int,
    input: usize,
    order: Vec<usize>,
    m: Model,
    idx: Seq<int>,
)
    requires
        input < i < g.len(),
        g[i].op == (Op::Permute { input, order }),
        is_order(order@, idx.len()),
    ensures
        element(g, i, m, Seq::new(idx.len(), |q: int| idx[order@[q] as int])) == element(
            g,
            input as int,
            m,
            idx,
        ),
{
    let there = Seq::new(idx.len(), |q: int| idx[order@[q] as int]);
    let back = unpermuted(order@, there);
    assert(back =~= idx) by {
        assert forall|q: int| 0 <= q < idx.len() implies back[q] == idx[q] by {
            assert(order.len() == order@.len());
            lemma_in_order(order@, idx.len(), q as usize);
            let p = place_of(order@, q);
            assert(0 <= p < order@.len() && order@[p] == q);
        }
    }
}

/// An order of the numbers below `n` holds each of them.
proof fn lemma_in_order(order: Seq<usize>, n: nat, q: usize)
    requires
        is_order(order, n),
        q < n,
    ensures
        exists|i: int| 0 <= i < order.len() && #[trigger] order[i] == q,
{
    if !order.contains(q) {
        let ints = order.map_values(|x: usize| x as int);
        let all = vstd::set_lib::set_int_range(0, n as int).remove(q as int);
        vstd::set_lib::lemma_int_range(0, n as int);
        assert(ints.no_duplicates()) by {
            assert forall|a: int, b: int|
                0 <= a < ints.len() && 0 <= b < ints.len() && a != b implies ints[a] != ints[b] by {
                assert(order[a] != order[b]);
            }
        }
        ints.unique_seq_to_set();
        assert(ints.to_set().subset_of(all)) by {
            assert forall|v: int| ints.to_set().contains(v) implies all.contains(v) by {
                let k = choose|k: int| 0 <= k < ints.len() && ints[k] == v;
                assert(order[k] < n);
                assert(order.contains(order[k]));
            }
        }
        vstd::set_lib::lemma_len_subset(ints.to_set(), all);
    }
}

/// An axis that is split in two and made one again, or the other way round, leaves every
/// element where it was.
pub proof fn law_split_and_merge(idx: Seq<int>, axis: int, size: int)
    requires
        size > 0,
        0 <= axis,
    ensures
        axis < idx.len() ==> unsplit(unmerged(idx, axis, size), axis, size) == idx,
        axis + 1 < idx.len() && 0 <= idx[axis + 1] < size ==> unmerged(
            unsplit(idx, axis, size),
            axis,
            size,
        ) == idx,
{
    if axis < idx.len() {
        let two = unmerged(idx, axis, size);
        vstd::arithmetic::div_mod::lemma_fundamental_div_mod(idx[axis], size);
        assert(two[axis] == idx[axis] / size && two[axis + 1] == idx[axis] % size);
        assert(size * (idx[axis] / size) == (idx[axis] / size) * size) by (nonlinear_arith);
        assert(unsplit(two, axis, size) =~= idx);
    }
    if axis + 1 < idx.len() && 0 <= idx[axis + 1] < size {
        let one = unsplit(idx, axis, size);
        let (a, b) = (idx[axis], idx[axis + 1]);
        assert(a * size == size * a) by (nonlinear_arith);
        vstd::arithmetic::div_mod::lemma_fundamental_div_mod_converse(a * size + b, size, a, b);
        assert(one[axis] == a * size + b);
        assert(unmerged(one, axis, size) =~= idx);
    }
}

/// Without an axis of size 1, repeated along a new axis, with one axis split or two made one:
/// which element lies at a place.
pub proof fn law_axes_come_and_go(
    g: Seq<NodeView>,
    i: int,
    input: usize,
    axis: usize,
    size: usize,
    m: Model,
    idx: Seq<int>,
    k: int,
)
    requires
        input < i < g.len(),
        axis <= idx.len(),
    ensures
        g[i].op == (Op::Squeeze { input, axis }) ==> element(g, i, m, idx) == element(
            g,
            input as int,
            m,
            idx.insert(axis as int, 0),
        ),
        g[i].op == (Op::ExpandDim { input, axis, size }) ==> element(
            g,
            i,
            m,
            idx.insert(axis as int, k),
        ) == element(g, input as int, m, idx),
        g[i].op == (Op::SplitDims { input, axis, size }) && axis < idx.len() && size > 0
            ==> element(
            g,
            i,
            m,
            idx.update(axis as int, idx[axis as int] / size as int).insert(
                axis + 1,
                idx[axis as int] % size as int,
            ),
        ) == element(g, input as int, m, idx),
        g[i].op == (Op::MergeDims { input, axis }) && axis + 1 < idx.len() && 0 <= idx[axis + 1]
            < g[input as int].dims[axis + 1] ==> element(
            g,
            i,
            m,
            idx.remove(axis + 1).update(
                axis as int,
                idx[axis as int] * g[input as int].dims[axis + 1] + idx[axis + 1],
            ),
        ) == element(g, input as int, m, idx),
{
    assert(idx.insert(axis as int, k).remove(axis as int) =~= idx);
    if g[i].op == (Op::SplitDims { input, axis, size }) && axis < idx.len() && size > 0 {
        law_split_and_merge(idx, axis as int, size as int);
    }
    if g[i].op == (Op::MergeDims { input, axis }) && axis + 1 < idx.len() && 0 <= idx[axis + 1]
        < g[input as int].dims[axis + 1] {
        law_split_and_merge(idx, axis as int, g[input as int].dims[axis + 1] as int);
    }
}

/// A slice and what is put behind another tensor are found so much further back or on along
/// the axis; sums and products are taken element by element.
pub proof fn law_parts_and_wholes(
    g: Seq<NodeView>,
    i: int,
    a: usize,
    b: usize,
    axis: usize,
    start: usize,
    end: usize,
    m: Model,
    idx: Seq<int>,
)
    requires
        a < i < g.len(),
        b < i,
        axis < idx.len(),
    ensures
        g[i].op == (Op::Slice { input: a, axis, start, end }) ==> element(g, i, m, idx) == element(
            g,
            a as int,
            m,
            idx.update(axis as int, idx[axis as int] + start),
        ),
        g[i].op == (Op::Concat { left: a, right: b, axis }) && idx[axis as int]
            < g[a as int].dims[axis as int] ==> element(g, i, m, idx) == element(g, a as int, m, idx),
        g[i].op == (Op::Concat { left: a, right: b, axis }) && idx[axis as int] >= 0 ==> element(
            g,
            i,
            m,
            idx.update(axis as int, idx[axis as int] + g[a as int].dims[axis as int]),
        ) == element(g, b as int, m, idx),
        g[i].op == (Op::Add { left: a, right: b }) ==> element(g, i, m, idx) == (m.plus)(
            element(g, a as int, m, idx),
            element(g, b as int, m, idx),
        ),
        g[i].op == (Op::Mul { left: a, right: b }) ==> element(g, i, m, idx) == (m.times)(
            element(g, a as int, m, idx),
            element(g, b as int, m, idx),
        ),
{
    let first = g[a as int].dims[axis as int];
    let on = idx.update(axis as int, idx[axis as int] + first);
    assert(shifted(on, axis as int, -first) =~= idx);
}

/// A sum along an axis takes every element there: where one is one and the others are zero,
/// it is one for whole numbers, and it grows by what is added to an element.
pub proof fn law_sums_take_every_term(
    m: Model,
    n: nat,
    a: spec_fn(int) -> int,
    b: spec_fn(int) -> int,
    k: int,
)
    requires
        m.zero == 0,
        forall|x: int, y: int| #[trigger] (m.plus)(x, y) == x + y,
        0 <= k < n,
        forall|j: int| 0 <= j < n && j != k ==> #[trigger] a(j) == b(j),
    ensures
        sum_to(m, n, a) - sum_to(m, n, b) == a(k) - b(k),
        (forall|j: int| 0 <= j < n ==> #[trigger] b(j) == 0) ==> sum_to(m, n, b) == 0,
    decreases n,
{
    if k < n - 1 {
        law_sums_take_every_term(m, (n - 1) as nat, a, b, k);
        assert(a(n - 1) == b(n - 1));
    } else {
        lemma_sum_same(m, (n - 1) as nat, a, b);
    }
    lemma_sum_of_zeros(m, n, b);
}

proof fn lemma_sum_of_zeros(m: Model, n: nat, b: spec_fn(int) -> int)
    requires
        m.zero == 0,
        forall|x: int, y: int| #[trigger] (m.plus)(x, y) == x + y,
    ensures
        (forall|j: int| 0 <= j < n ==> #[trigger] b(j) == 0) ==> sum_to(m, n, b) == 0,
    decreases n,
{
    if n > 0 {
        lemma_sum_of_zeros(m, (n - 1) as nat, b);
    }
}

/// The sum along an axis is that of the elements there, from the first to the last.
pub proof fn law_sum_along_an_axis(
    g: Seq<NodeView>,
    i: int,
    input: usize,
    axis: usize,
    m: Model,
    idx: Seq<int>,
)
    requires
        input < i < g.len(),
        g[i].op == (Op::Sum { input, axis }),
    ensures
        element(g, i, m, idx) == sum_to(
            m,
            g[input as int].dims[axis as int] as nat,
            |k: int| element(g, input as int, m, idx.insert(axis as int, k)),
        ),
{
    let n = g[input as int].dims[axis as int] as nat;
    lemma_axis_sum(
        g,
        input as int,
        axis as int,
        n,
        m,
        idx,
        |k: int| element(g, input as int, m, idx.insert(axis as int, k)),
    );
}

} // verus!
