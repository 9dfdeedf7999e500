//! What the steps of a program compute, element by element, and in which order the
//! elements are stored.

#[allow(unused_imports)]
use crate::tensor::{inside, product, shifted};
#[allow(unused_imports)]
use crate::torch::{
    axis_of, binary, call_made, chunk, compiled, dropped_behind_first, expanded_front,
    getitem_made, is_int_type, no_steps, node_from, node_made, outputs_made, pass_through_made,
    picked_made, rows_made, size_of_dims, size_value, small_int, spread_indices, swapped_dims,
    transpose_made, uses_below, with_scalar, Arg, Made, ProgramView, PyTorchGraphNode, StepView,
    TorchError, TorchOp, ONE_BITS,
};
use vstd::prelude::*;

verus! {

/// A way to compute: what the given tensors hold, and arithmetic on elements. Elements are
/// told apart by integers, and nothing is asked of the arithmetic, so that it may be that
/// of floating-point numbers.
pub struct Arithmetic {
    /// What an input step holds, number by number as it is stored.
    pub given: spec_fn(int, int) -> int,
    /// The whole number that an element becomes.
    pub whole: spec_fn(int) -> int,
    pub plus: spec_fn(int, int) -> int,
    pub times: spec_fn(int, int) -> int,
    /// The number with these bits in single precision.
    pub scalar: spec_fn(u32) -> int,
    /// A size as an element.
    pub size: spec_fn(int) -> int,
    /// A size as a number in single precision.
    pub number: spec_fn(int) -> int,
    /// One divided by the square root of a size.
    pub inverse_root: spec_fn(int) -> int,
    /// The sum of the products of two rows.
    pub dot: spec_fn(Seq<int>, Seq<int>) -> int,
    /// The element at a place of a normalised row.
    pub normed: spec_fn(Seq<int>, u32, int) -> int,
    /// The element at a place of the softmax of a row.
    pub softmax: spec_fn(Seq<int>, int) -> int,
    pub gelu: spec_fn(int) -> int,
    /// The place that an element stands for as an index.
    pub index: spec_fn(int) -> int,
}

/// The number of a place when rows are counted through, the last axis fastest.
pub open spec fn flat(idx: Seq<int>, dims: Seq<usize>) -> int
    decreases dims.len(),
{
    if dims.len() == 0 {
        0
    } else {
        flat(idx.drop_last(), dims.drop_last()) * dims.last() + idx.last()
    }
}

/// The place with a number.
pub open spec fn place(k: int, dims: Seq<usize>) -> Seq<int>
    decreases dims.len(),
{
    if dims.len() == 0 {
        Seq::empty()
    } else {
        place(k / (dims.last() as int), dims.drop_last()).push(k % (dims.last() as int))
    }
}

/// A place with two coordinates exchanged.
pub open spec fn swapped(idx: Seq<int>, a: int, b: int) -> Seq<int> {
    idx.update(a, idx[b]).update(b, idx[a])
}

/// The tensor that an operation shows in another way: it stores nothing itself.
pub open spec fn seen_in(op: TorchOp) -> Option<usize> {
    match op {
        TorchOp::Transpose { input, .. } => Some(input),
        TorchOp::ExpandDim { input, .. } => Some(input),
        TorchOp::Unsqueeze { input, .. } => Some(input),
        TorchOp::Squeeze { input, .. } => Some(input),
        TorchOp::Slice { input, .. } => Some(input),
        TorchOp::Reinterpret { input } => Some(input),
        TorchOp::Output { input } => Some(input),
        _ => None,
    }
}

/// The `k`-th number that is stored for a tensor. What shows another tensor shares what
/// that one stores; any other stores its elements row by row. For an operation on a tensor
/// that does not come before it, 0.
pub open spec fn stored(g: Seq<StepView>, i: int, m: Arithmetic, k: int) -> int
    decreases i, 1nat, 0nat,
{
    match seen_in(g[i].op) {
        Some(input) => if input < i {
            stored(g, input as int, m, k)
        } else {
            0
        },
        None => element(g, i, m, place(k, g[i].dims)),
    }
}

/// The element of a tensor at a place. For an operation on a tensor that does not come
/// before it, 0.
pub open spec fn element(g: Seq<StepView>, i: int, m: Arithmetic, idx: Seq<int>) -> int
    decreases i, 0nat, 0nat,
{
    match g[i].op {
        TorchOp::Input => (m.given)(i, flat(idx, g[i].dims)),
        TorchOp::AsInt { input } => if input < i {
            (m.whole)(element(g, input as int, m, idx))
        } else {
            0
        },
        TorchOp::Add { left, right } => if left < i && right < i {
            (m.plus)(element(g, left as int, m, idx), element(g, right as int, m, idx))
        } else {
            0
        },
        TorchOp::Mul { left, right } => if left < i && right < i {
            (m.times)(element(g, left as int, m, idx), element(g, right as int, m, idx))
        } else {
            0
        },
        TorchOp::AddScalar { input, bits } => if input < i {
            (m.plus)(element(g, input as int, m, idx), (m.scalar)(bits))
        } else {
            0
        },
        TorchOp::MulScalar { input, bits } => if input < i {
            (m.times)(element(g, input as int, m, idx), (m.scalar)(bits))
        } else {
            0
        },
        TorchOp::MulSize { input, size } => if input < i {
            (m.times)(element(g, input as int, m, idx), (m.size)(size as int))
        } else {
            0
        },
        TorchOp::MulNumber { input, number } => if input < i {
            (m.times)(element(g, input as int, m, idx), (m.number)(number as int))
        } else {
            0
        },
        TorchOp::ScaleByRoot { input, size } => if input < i {
            (m.times)(element(g, input as int, m, idx), (m.inverse_root)(size as int))
        } else {
            0
        },
        TorchOp::Arange => (m.size)(idx[0]),
        TorchOp::Transpose { input, dim0, dim1 } => if input < i {
            element(g, input as int, m, swapped(idx, dim0 as int, dim1 as int))
        } else {
            0
        },
        TorchOp::Matmul { left, right } => if left < i && right < i {
            let n = g[left as int].dims.last() as nat;
            let front = idx.drop_last();
            let before = if g[right as int].dims.len() == 2 {
                Seq::empty()
            } else {
                front.drop_last()
            };
            (m.dot)(
                line(g, left as int, m, front, Seq::empty(), n),
                line(g, right as int, m, before, seq![idx.last()], n),
            )
        } else {
            0
        },
        TorchOp::ExpandDim { input, axis, .. } => if input < i {
            element(g, input as int, m, idx.remove(axis as int))
        } else {
            0
        },
        TorchOp::Unsqueeze { input, axis } => if input < i {
            element(g, input as int, m, idx.remove(axis as int))
        } else {
            0
        },
        TorchOp::Squeeze { input, axis } => if input < i {
            element(g, input as int, m, idx.insert(axis as int, 0))
        } else {
            0
        },
        TorchOp::Slice { input, axis, start, .. } => if input < i {
            element(g, input as int, m, shifted(idx, axis as int, start as int))
        } else {
            0
        },
        TorchOp::LayerNorm { input, axis, eps_bits } => if input < i {
            (m.normed)(
                line(
                    g,
                    input as int,
                    m,
                    idx.take(axis as int),
                    idx.skip(axis + 1),
                    g[i].dims[axis as int] as nat,
                ),
                eps_bits,
                idx[axis as int],
            )
        } else {
            0
        },
        TorchOp::Softmax { input, axis } => if input < i {
            (m.softmax)(
                line(
                    g,
                    input as int,
                    m,
                    idx.take(axis as int),
                    idx.skip(axis + 1),
                    g[i].dims[axis as int] as nat,
                ),
                idx[axis as int],
            )
        } else {
            0
        },
        TorchOp::Gelu { input } => if input < i {
            (m.gelu)(element(g, input as int, m, idx))
        } else {
            0
        },
        TorchOp::Gather { input, indices } => if input < i && indices < i {
            element(
                g,
                input as int,
                m,
                place((m.index)(element(g, indices as int, m, idx)), g[input as int].dims),
            )
        } else {
            0
        },
        TorchOp::Reinterpret { input } => if input < i {
            stored(g, input as int, m, flat(idx, g[i].dims))
        } else {
            0
        },
        TorchOp::Output { input } => if input < i {
            element(g, input as int, m, idx)
        } else {
            0
        },
    }
}

/// The first `n` elements along a line, whose places have the same coordinates before and
/// after.
pub open spec fn line(
    g: Seq<StepView>,
    i: int,
    m: Arithmetic,
    before: Seq<int>,
    after: Seq<int>,
    n: nat,
) -> Seq<int>
    decreases i, 1nat, n,
{
    if n == 0 {
        Seq::empty()
    } else {
        line(g, i, m, before, after, (n - 1) as nat).push(
            element(g, i, m, before.push(n - 1) + after),
        )
    }
}

/// How many numbers are stored for a tensor.
pub open spec fn stored_len(g: Seq<StepView>, i: int) -> nat
    decreases i,
{
    match seen_in(g[i].op) {
        Some(input) => if input < i {
            stored_len(g, input as int)
        } else {
            0
        },
        None => product(g[i].dims) as nat,
    }
}

/// What is read back for a tensor: all that is stored for it.
pub open spec fn data(g: Seq<StepView>, i: int, m: Arithmetic) -> Seq<int> {
    Seq::new(stored_len(g, i), |k: int| stored(g, i, m, k))
}

/// The elements of a tensor row by row.
pub open spec fn rows(g: Seq<StepView>, i: int, m: Arithmetic) -> Seq<int> {
    Seq::new(product(g[i].dims) as nat, |k: int| element(g, i, m, place(k, g[i].dims)))
}

/// A product of sizes is not negative.
pub proof fn lemma_product_not_negative(s: Seq<usize>)
    ensures
        product(s) >= 0,
    decreases s.len(),
{
    if s.len() > 0 {
        lemma_product_not_negative(s.drop_last());
        let (a, b) = (product(s.drop_last()), s.last() as int);
        assert(a * b >= 0) by (nonlinear_arith)
            requires
                a >= 0,
                b >= 0,
        ;
    }
}

/// Every number below the product of the dimensions has a place, and the place that number.
pub proof fn lemma_place(k: int, dims: Seq<usize>)
    requires
        0 <= k < product(dims),
    ensures
        inside(place(k, dims), dims),
        flat(place(k, dims), dims) == k,
    decreases dims.len(),
{
    if dims.len() > 0 {
        let d = dims.last() as int;
        let front = dims.drop_last();
        let n = product(front);
        assert(d > 0) by (nonlinear_arith)
            requires
                0 <= k < n * d,
                0 <= d,
        ;
        vstd::arithmetic::div_mod::lemma_fundamental_div_mod(k, d);
        vstd::arithmetic::div_mod::lemma_div_pos_is_pos(k, d);
        assert(k / d < n) by (nonlinear_arith)
            requires
                0 <= k < n * d,
                d > 0,
                k == d * (k / d) + k % d,
                0 <= k % d,
        ;
        lemma_place(k / d, front);
        let at = place(k, dims);
        let head = place(k / d, front);
        assert(at.drop_last() =~= head);
        assert(at.last() == k % d);
        assert(flat(at, dims) == flat(head, front) * d + k % d);
        assert((k / d) * d == d * (k / d)) by (nonlinear_arith);
        assert forall|q: int| 0 <= q < dims.len() implies 0 <= #[trigger] at[q] < dims[q] by {
            if q < front.len() {
                assert(at[q] == head[q]);
                assert(front[q] == dims[q]);
            }
        }
    }
}

/// Every place has a number below the product of the dimensions, and the number that place.
pub proof fn lemma_flat(idx: Seq<int>, dims: Seq<usize>)
    requires
        inside(idx, dims),
    ensures
        0 <= flat(idx, dims) < product(dims),
        place(flat(idx, dims), dims) == idx,
    decreases dims.len(),
{
    if dims.len() > 0 {
        let d = dims.last() as int;
        let (front, head, last) = (dims.drop_last(), idx.drop_last(), idx.last());
        assert(idx[dims.len() - 1] == last);
        assert(inside(head, front)) by {
            assert forall|q: int| 0 <= q < front.len() implies 0 <= #[trigger] head[q] < front[q] by {
                assert(idx[q] == head[q]);
            }
        }
        lemma_flat(head, front);
        let f = flat(head, front);
        let n = product(front);
        assert(0 <= f * d + last < n * d) by (nonlinear_arith)
            requires
                0 <= f < n,
                0 <= last < d,
        ;
        vstd::arithmetic::div_mod::lemma_fundamental_div_mod_converse(f * d + last, d, f, last);
        assert(place(f * d + last, dims) =~= place(f, front).push(last));
        assert(head.push(last) =~= idx);
    } else {
        assert(idx =~= Seq::empty());
    }
}

/// Steps that are added change neither the elements of a tensor nor what is stored for it.
#[verifier::rlimit(50)]
pub proof fn lemma_element_kept(
    g: Seq<StepView>,
    h: Seq<StepView>,
    i: int,
    m: Arithmetic,
    idx: Seq<int>,
)
    requires
        0 <= i < g.len(),
        g.len() <= h.len(),
        forall|j: int| 0 <= j < g.len() ==> g[j] == h[j],
    ensures
        element(g, i, m, idx) == element(h, i, m, idx),
    decreases i, 0nat, 0nat,
{
    match g[i].op {
        TorchOp::Input | TorchOp::Arange => {},
        TorchOp::Matmul { left, right } => {
            if left < i && right < i {
                let n = g[left as int].dims.last() as nat;
                let front = idx.drop_last();
                let before = if g[right as int].dims.len() == 2 {
                    Seq::empty()
                } else {
                    front.drop_last()
                };
                lemma_line_kept(g, h, left as int, m, front, Seq::empty(), n);
                lemma_line_kept(g, h, right as int, m, before, seq![idx.last()], n);
            }
        },
        TorchOp::LayerNorm { input, axis, .. } | TorchOp::Softmax { input, axis } => {
            if input < i {
                let n = g[i].dims[axis as int] as nat;
                lemma_line_kept(
                    g,
                    h,
                    input as int,
                    m,
                    idx.take(axis as int),
                    idx.skip(axis + 1),
                    n,
                );
            }
        },
        TorchOp::Add { left, right } | TorchOp::Mul { left, right } => {
            if left < i && right < i {
                lemma_element_kept(g, h, left as int, m, idx);
                lemma_element_kept(g, h, right as int, m, idx);
            }
        },
        TorchOp::AsInt { input }
        | TorchOp::AddScalar { input, .. }
        | TorchOp::MulScalar { input, .. }
        | TorchOp::MulSize { input, .. }
        | TorchOp::MulNumber { input, .. }
        | TorchOp::ScaleByRoot { input, .. }
        | TorchOp::Gelu { input }
        | TorchOp::Output { input } => {
            if input < i {
                lemma_element_kept(g, h, input as int, m, idx);
            }
        },
        TorchOp::Transpose { input, dim0, dim1 } => {
            if input < i {
                lemma_element_kept(
                    g,
                    h,
                    input as int,
                    m,
                    swapped(idx, dim0 as int, dim1 as int),
                );
            }
        },
        TorchOp::ExpandDim { input, axis, .. } | TorchOp::Unsqueeze { input, axis } => {
            if input < i {
                lemma_element_kept(g, h, input as int, m, idx.remove(axis as int));
            }
        },
        TorchOp::Squeeze { input, axis } => {
            if input < i {
                lemma_element_kept(g, h, input as int, m, idx.insert(axis as int, 0));
            }
        },
        TorchOp::Slice { input, axis, start, .. } => {
            if input < i {
                lemma_element_kept(
                    g,
                    h,
                    input as int,
                    m,
                    shifted(idx, axis as int, start as int),
                );
            }
        },
        TorchOp::Gather { input, indices } => {
            if input < i && indices < i {
                lemma_element_kept(g, h, indices as int, m, idx);
                lemma_element_kept(
                    g,
                    h,
                    input as int,
                    m,
                    place((m.index)(element(g, indices as int, m, idx)), g[input as int].dims),
                );
            }
        },
        TorchOp::Reinterpret { input } => {
            if input < i {
                lemma_stored_kept(g, h, input as int, m, flat(idx, g[i].dims));
            }
        },
    }
}

proof fn lemma_line_kept(
    g: Seq<StepView>,
    h: Seq<StepView>,
    i: int,
    m: Arithmetic,
    before: Seq<int>,
    after: Seq<int>,
    n: nat,
)
    requires
        0 <= i < g.len(),
        g.len() <= h.len(),
        forall|j: int| 0 <= j < g.len() ==> g[j] == h[j],
    ensures
        line(g, i, m, before, after, n) == line(h, i, m, before, after, n),
    decreases i, 1nat, n,
{
    if n > 0 {
        lemma_line_kept(g, h, i, m, before, after, (n - 1) as nat);
        lemma_element_kept(g, h, i, m, before.push(n - 1) + after);
    }
}

/// Steps that are added do not change what is stored for a tensor.
pub proof fn lemma_stored_kept(
    g: Seq<StepView>,
    h: Seq<StepView>,
    i: int,
    m: Arithmetic,
    k: int,
)
    requires
        0 <= i < g.len(),
        g.len() <= h.len(),
        forall|j: int| 0 <= j < g.len() ==> g[j] == h[j],
    ensures
        stored(g, i, m, k) == stored(h, i, m, k),
    decreases i, 1nat, 0nat,
{
    match seen_in(g[i].op) {
        Some(input) => {
            if input < i {
                lemma_stored_kept(g, h, input as int, m, k);
            }
        },
        None => {
            lemma_element_kept(g, h, i, m, place(k, g[i].dims));
        },
    }
}

proof fn lemma_stored_len_kept(g: Seq<StepView>, h: Seq<StepView>, i: int)
    requires
        0 <= i < g.len(),
        g.len() <= h.len(),
        forall|j: int| 0 <= j < g.len() ==> g[j] == h[j],
    ensures
        stored_len(g, i) == stored_len(h, i),
    decreases i,
{
    if let Some(input) = seen_in(g[i].op) {
        if input < i {
            lemma_stored_len_kept(g, h, input as int);
        }
    }
}

/// Steps that are added do not change the data of a tensor.
pub proof fn lemma_data_kept(g: Seq<StepView>, h: Seq<StepView>, i: int, m: Arithmetic)
    requires
        0 <= i < g.len(),
        g.len() <= h.len(),
        forall|j: int| 0 <= j < g.len() ==> g[j] == h[j],
    ensures
        data(g, i, m) == data(h, i, m),
        rows(g, i, m) == rows(h, i, m),
{
    lemma_stored_len_kept(g, h, i);
    assert forall|k: int| stored(g, i, m, k) == #[trigger] stored(h, i, m, k) by {
        lemma_stored_kept(g, h, i, m, k);
    }
    assert(data(g, i, m) =~= data(h, i, m));
    let (a, b) = (rows(g, i, m), rows(h, i, m));
    assert forall|k: int| 0 <= k < a.len() implies #[trigger] a[k] == b[k] by {
        lemma_element_kept(g, h, i, m, place(k, g[i].dims));
    }
    assert(a =~= b);
}

/// The steps, with more steps behind them.
pub open spec fn extends(g: Seq<StepView>, h: Seq<StepView>) -> bool {
    g.len() <= h.len() && forall|j: int| 0 <= j < g.len() ==> g[j] == h[j]
}

/// Times 1 changes no number.
pub open spec fn one_is_neutral(m: Arithmetic) -> bool {
    forall|v: int| #[trigger] (m.times)(v, (m.scalar)(ONE_BITS)) == v
}

/// A tensor that is no view of another is stored row by row.
pub proof fn lemma_stored_in_rows(g: Seq<StepView>, i: int, m: Arithmetic)
    requires
        0 <= i < g.len(),
        seen_in(g[i].op) is None,
    ensures
        data(g, i, m) == rows(g, i, m),
{
    assert(data(g, i, m) =~= rows(g, i, m));
}

/// What is read back for an input is what was given.
pub proof fn law_input_is_what_was_given(g: Seq<StepView>, i: int, m: Arithmetic)
    requires
        0 <= i < g.len(),
        g[i].op == TorchOp::Input,
    ensures
        data(g, i, m) == Seq::new(product(g[i].dims) as nat, |k: int| (m.given)(i, k)),
{
    lemma_product_not_negative(g[i].dims);
    let (a, b) = (
        data(g, i, m),
        Seq::new(product(g[i].dims) as nat, |k: int| (m.given)(i, k)),
    );
    assert forall|k: int| 0 <= k < a.len() implies #[trigger] a[k] == b[k] by {
        lemma_place(k, g[i].dims);
        assert(element(g, i, m, place(k, g[i].dims)) == (m.given)(i, k));
    }
    assert(a =~= b);
}

/// A step, and its tensor times 1: the elements of the step, stored row by row.
proof fn lemma_times_one(p: ProgramView, op: TorchOp, dims: Seq<usize>, m: Arithmetic)
    requires
        p.wf(),
        uses_below(op, p.steps.len() as int),
        p.steps.len() + 1 <= usize::MAX,
        one_is_neutral(m),
    ensures
        with_scalar(p.with_step(op, dims), true, p.next(), ONE_BITS) matches Ok((q, Some(id)))
            && q.wf() && extends(p.steps, q.steps) && q.names == p.names && id == p.steps.len() + 1
            && q.steps.len() == p.steps.len() + 2 && q.dims(id) == dims && q.steps[p.steps.len() as int]
            == (StepView { op, dims }) && seen_in(q.steps[id as int].op) is None && data(
            q.steps,
            id as int,
            m,
        ) == rows(q.steps, id as int, m) && forall|idx: Seq<int>| #[trigger]
            element(q.steps, id as int, m, idx) == element(q.steps, id - 1, m, idx),
{
    let (q, _) = with_scalar(p.with_step(op, dims), true, p.next(), ONE_BITS)->Ok_0;
    let id = p.steps.len() + 1int;
    assert(q.steps[id].op == TorchOp::MulScalar { input: p.next(), bits: ONE_BITS });
    lemma_stored_in_rows(q.steps, id, m);
    assert forall|i: int| 0 <= i < q.steps.len() implies uses_below(#[trigger] q.steps[i].op, i) by {
        if i < p.steps.len() {
            assert(q.steps[i] == p.steps[i]);
        }
    }
    assert forall|name: Seq<char>| q.names.contains_key(name) implies #[trigger] q.names[name]
        < q.steps.len() by {
        assert(p.names[name] < p.steps.len());
    }
}

/// The node is a call that exchanges axes `a` and `b` of tensor `x`.
pub open spec fn transposes(
    p: ProgramView,
    node: PyTorchGraphNode,
    x: usize,
    a: usize,
    b: usize,
) -> bool {
    &&& node.target@ == "aten.transpose.int"@
    &&& node.args@.len() >= 3
    &&& p.find(node.args@[0].text@) == Some(x)
    &&& small_int(node.args@[1].text@) matches Some(d) && axis_of(d as int, p.dims(x).len() as int)
        == Some(a)
    &&& small_int(node.args@[2].text@) matches Some(d) && axis_of(d as int, p.dims(x).len() as int)
        == Some(b)
}

proof fn lemma_transpose_call(p: ProgramView, nodes: Seq<PyTorchGraphNode>, node: PyTorchGraphNode)
    requires
        node.target@ == "aten.transpose.int"@,
    ensures
        call_made(p, nodes, node) == transpose_made(p, node.args@),
{
    reveal_strlit("aten.add.Tensor");
    reveal_strlit("aten.add");
    reveal_strlit("aten.mul.Tensor");
    reveal_strlit("aten.mul");
    reveal_strlit("aten.linear.default");
    reveal_strlit("aten.view.default");
    reveal_strlit("aten.transpose.int");
    assert("aten.transpose.int"@.len() == 18);
    assert("aten.add.Tensor"@.len() == 15 && "aten.add"@.len() == 8);
    assert("aten.mul.Tensor"@.len() == 15 && "aten.mul"@.len() == 8);
    assert("aten.linear.default"@.len() == 19 && "aten.view.default"@.len() == 17);
}

/// An axis that is counted from the end is the same axis.
pub proof fn law_axis_from_the_end(d: int, rank: int)
    requires
        0 <= d < rank <= usize::MAX,
    ensures
        axis_of(d - rank, rank) == axis_of(d, rank),
        axis_of(d, rank) == Some(d as usize),
{
}

/// The data of a transposed tensor are its elements row by row, each moved to the place with
/// the two coordinates exchanged.
pub proof fn law_transpose_moves_elements(
    p: ProgramView,
    nodes: Seq<PyTorchGraphNode>,
    node: PyTorchGraphNode,
    x: usize,
    a: usize,
    b: usize,
    m: Arithmetic,
)
    requires
        p.wf(),
        p.steps.len() + 1 <= usize::MAX,
        transposes(p, node, x, a, b),
        one_is_neutral(m),
    ensures
        call_made(p, nodes, node) matches Ok((q, Some(id))) && q.wf() && extends(
            p.steps,
            q.steps,
        ) && q.names
            == p.names && id < q.steps.len() <= p.steps.len() + 2 && q.dims(id) == swapped_dims(
            p.dims(x),
            a as int,
            b as int,
        ) && data(q.steps, id as int, m) == rows(q.steps, id as int, m) && forall|idx: Seq<int>|
            inside(idx, p.dims(x)) ==> inside(
                #[trigger] swapped(idx, a as int, b as int),
                q.dims(id),
            ) && data(q.steps, id as int, m)[flat(
                swapped(idx, a as int, b as int),
                q.dims(id),
            )] == element(p.steps, x as int, m, idx),
{
    let dims = p.dims(x);
    let turned = swapped_dims(dims, a as int, b as int);
    let op = TorchOp::Transpose { input: x, dim0: a, dim1: b };
    lemma_transpose_call(p, nodes, node);
    assert(p.names[node.args@[0].text@] < p.steps.len());
    lemma_times_one(p, op, turned, m);
    let (q, made) = call_made(p, nodes, node)->Ok_0;
    let id = made->0;
    assert forall|idx: Seq<int>| inside(idx, dims) implies inside(
        #[trigger] swapped(idx, a as int, b as int),
        q.dims(id),
    ) && data(q.steps, id as int, m)[flat(swapped(idx, a as int, b as int), q.dims(id))] == element(
        p.steps,
        x as int,
        m,
        idx,
    ) by {
        let there = swapped(idx, a as int, b as int);
        assert(idx[a as int] < dims[a as int] && idx[b as int] < dims[b as int]);
        assert(inside(there, turned));
        lemma_flat(there, turned);
        assert(swapped(there, a as int, b as int) =~= idx);
        lemma_element_kept(p.steps, q.steps, x as int, m, idx);
        assert(element(q.steps, id as int, m, there) == element(q.steps, id - 1, m, there));
    }
}

/// It does not matter in which order a transpose names its axes, nor whether it counts them
/// from the end: dimensions and data are the same.
pub proof fn law_transpose_however_named(
    p: ProgramView,
    nodes: Seq<PyTorchGraphNode>,
    node: PyTorchGraphNode,
    nodes2: Seq<PyTorchGraphNode>,
    node2: PyTorchGraphNode,
    x: usize,
    a: usize,
    b: usize,
    m: Arithmetic,
)
    requires
        p.wf(),
        p.steps.len() + 1 <= usize::MAX,
        transposes(p, node, x, a, b),
        transposes(p, node2, x, a, b) || transposes(p, node2, x, b, a),
        one_is_neutral(m),
    ensures
        call_made(p, nodes, node) matches Ok((q, Some(id))) && (call_made(p, nodes2, node2) matches Ok(
            (q2, Some(id2)),
        ) && q.dims(id) == q2.dims(id2) && data(q.steps, id as int, m) == data(
            q2.steps,
            id2 as int,
            m,
        )),
{
    law_transpose_moves_elements(p, nodes, node, x, a, b, m);
    let (q, made) = call_made(p, nodes, node)->Ok_0;
    let id = made->0;
    if transposes(p, node2, x, a, b) {
        law_transpose_moves_elements(p, nodes2, node2, x, a, b, m);
    } else {
        law_transpose_moves_elements(p, nodes2, node2, x, b, a, m);
    }
    let (q2, made2) = call_made(p, nodes2, node2)->Ok_0;
    let id2 = made2->0;
    let dims = q.dims(id);
    assert(dims =~= q2.dims(id2));
    lemma_product_not_negative(dims);
    let (d, d2) = (data(q.steps, id as int, m), data(q2.steps, id2 as int, m));
    assert forall|k: int| 0 <= k < d.len() implies #[trigger] d[k] == d2[k] by {
        lemma_place(k, dims);
        let there = place(k, dims);
        let idx = swapped(there, a as int, b as int);
        assert(there[a as int] < dims[a as int] && there[b as int] < dims[b as int]);
        assert(inside(idx, p.dims(x)));
        assert(swapped(idx, a as int, b as int) =~= there);
        assert(swapped(idx, b as int, a as int) =~= there);
    }
    assert(d =~= d2);
}

/// A transpose undoes itself: exchanging the same axes of the result gives a tensor whose
/// data are the elements of the first row by row; and where the first is stored so, as an
/// input is, its own data.
pub proof fn law_transpose_twice(
    p: ProgramView,
    nodes: Seq<PyTorchGraphNode>,
    node: PyTorchGraphNode,
    node2: PyTorchGraphNode,
    x: usize,
    a: usize,
    b: usize,
    m: Arithmetic,
)
    requires
        p.wf(),
        p.steps.len() + 3 <= usize::MAX,
        node.op@ == "call_function"@,
        transposes(p, node, x, a, b),
        one_is_neutral(m),
        node_made(p, nodes, node) matches Ok(q) && transposes(q, node2, q.names[node.name@], a, b),
    ensures
        node_made(p, nodes, node) matches Ok(q) && (call_made(q, nodes, node2) matches Ok(
            (r, Some(id)),
        ) && r.dims(id) == p.dims(x) && data(r.steps, id as int, m) == rows(p.steps, x as int, m) && (
        seen_in(p.steps[x as int].op) is None ==> data(r.steps, id as int, m) == data(
            p.steps,
            x as int,
            m,
        ))),
{
    reveal_strlit("call_function");
    reveal_strlit("placeholder");
    assert("call_function"@.len() == 13 && "placeholder"@.len() == 11);
    law_transpose_moves_elements(p, nodes, node, x, a, b, m);
    let (q0, made) = call_made(p, nodes, node)->Ok_0;
    let y = made->0;
    let q = node_made(p, nodes, node)->Ok_0;
    assert(q == q0.with_name(node.name@, y));
    assert(q.wf()) by {
        assert forall|name: Seq<char>| q.names.contains_key(name) implies #[trigger] q.names[name]
            < q.steps.len() by {
            if name != node.name@ {
                assert(q0.names[name] < q0.steps.len());
            }
        }
    }
    law_transpose_moves_elements(q, nodes, node2, y, a, b, m);
    let (r, made2) = call_made(q, nodes, node2)->Ok_0;
    let id = made2->0;
    let dims = p.dims(x);
    assert(r.dims(id) =~= dims);
    lemma_product_not_negative(dims);
    let (d, e) = (data(r.steps, id as int, m), rows(p.steps, x as int, m));
    assert forall|k: int| 0 <= k < e.len() implies #[trigger] d[k] == e[k] by {
        lemma_place(k, dims);
        let idx = place(k, dims);
        let there = swapped(idx, a as int, b as int);
        assert(inside(there, q.dims(y)));
        lemma_flat(there, q.dims(y));
        assert(swapped(there, a as int, b as int) =~= idx);
        assert(rows(q.steps, y as int, m)[flat(there, q.dims(y))] == element(
            q.steps,
            y as int,
            m,
            there,
        ));
    }
    assert(d =~= e);
    if seen_in(p.steps[x as int].op) is None {
        lemma_stored_in_rows(p.steps, x as int, m);
    }
}

/// The node is a call that takes the part at `index` of tensor `x`, which a node of the graph
/// splits into parts of `size` along an axis.
pub open spec fn takes_part(
    p: ProgramView,
    nodes: Seq<PyTorchGraphNode>,
    node: PyTorchGraphNode,
    x: usize,
    size: usize,
    axis: usize,
    index: usize,
) -> bool {
    &&& node.target@ == "<built-in function getitem>"@ || node.target@ == "operator.getitem"@
        || node.target@ == "getitem"@
    &&& node.args@.len() >= 2
    &&& p.find(node.args@[0].text@) == Some(x)
    &&& size_value(node.args@[1].text@) == Some(index)
    &&& node_from(nodes, node.args@[0].text@, 0) matches Some(k) && {
        let split = nodes[k].args@;
        &&& nodes[k].target@ == "aten.split.Tensor"@
        &&& split.len() >= 2
        &&& size_value(split[1].text@) == Some(size)
        &&& (if split.len() >= 3 {
            small_int(split[2].text@)
        } else {
            Some(0i32)
        }) matches Some(d) && axis_of(d as int, p.dims(x).len() as int) == Some(axis)
    }
}

proof fn lemma_getitem_call(p: ProgramView, nodes: Seq<PyTorchGraphNode>, node: PyTorchGraphNode)
    requires
        node.target@ == "<built-in function getitem>"@ || node.target@ == "operator.getitem"@
            || node.target@ == "getitem"@,
    ensures
        call_made(p, nodes, node) == getitem_made(p, nodes, node.args@),
{
    reveal_strlit("aten.add.Tensor");
    reveal_strlit("aten.add");
    reveal_strlit("aten.mul.Tensor");
    reveal_strlit("aten.mul");
    reveal_strlit("aten.linear.default");
    reveal_strlit("aten.view.default");
    reveal_strlit("aten.transpose.int");
    reveal_strlit("aten.dropout.default");
    reveal_strlit("aten.lift_fresh_copy.default");
    reveal_strlit("aten.layer_norm.default");
    reveal_strlit("aten.split.Tensor");
    reveal_strlit("<built-in function getitem>");
    reveal_strlit("operator.getitem");
    reveal_strlit("getitem");
    assert("<built-in function getitem>"@.len() == 27);
    assert("operator.getitem"@.len() == 16 && "getitem"@.len() == 7);
    assert("aten.add.Tensor"@.len() == 15 && "aten.add"@.len() == 8);
    assert("aten.mul.Tensor"@.len() == 15 && "aten.mul"@.len() == 8);
    assert("aten.linear.default"@.len() == 19 && "aten.view.default"@.len() == 17);
    assert("aten.transpose.int"@.len() == 18 && "aten.dropout.default"@.len() == 20);
    assert("aten.lift_fresh_copy.default"@.len() == 28);
    assert("aten.layer_norm.default"@.len() == 23 && "aten.split.Tensor"@.len() == 17);
}

/// The part of a split has the size of the split along its axis, or what is left, and the
/// full extent elsewhere. Its data are its elements row by row, each from the place so much
/// further along the axis.
pub proof fn law_part_of_split(
    p: ProgramView,
    nodes: Seq<PyTorchGraphNode>,
    node: PyTorchGraphNode,
    x: usize,
    size: usize,
    axis: usize,
    index: usize,
    m: Arithmetic,
)
    requires
        p.wf(),
        p.steps.len() + 1 <= usize::MAX,
        takes_part(p, nodes, node, x, size, axis, index),
        index * size < p.dims(x)[axis as int],
        index * size + size <= usize::MAX,
        one_is_neutral(m),
    ensures
        call_made(p, nodes, node) matches Ok((q, Some(id))) && q.wf() && extends(
            p.steps,
            q.steps,
        ) && q.names
            == p.names && id < q.steps.len() <= p.steps.len() + 2 && {
            let dim = p.dims(x)[axis as int];
            let start = index * size;
            &&& q.dims(id) == p.dims(x).update(
                axis as int,
                if size < dim - start {
                    size
                } else {
                    (dim - start) as usize
                },
            )
            &&& data(q.steps, id as int, m) == rows(q.steps, id as int, m)
            &&& forall|idx: Seq<int>|
                inside(idx, q.dims(id)) ==> data(q.steps, id as int, m)[#[trigger] flat(
                    idx,
                    q.dims(id),
                )] == element(p.steps, x as int, m, shifted(idx, axis as int, start))
        },
{
    let dims = p.dims(x);
    let dim = dims[axis as int];
    let (start, end) = chunk(index as int, size as int, dim as int);
    lemma_getitem_call(p, nodes, node);
    assert(p.names[node.args@[0].text@] < p.steps.len());
    assert(start >= 0) by (nonlinear_arith)
        requires
            start == index * size,
            index >= 0,
            size >= 0,
    ;
    let op = TorchOp::Slice { input: x, axis, start: start as usize, end: end as usize };
    let part = dims.update(axis as int, (end - start) as usize);
    lemma_times_one(p, op, part, m);
    let (q, made) = call_made(p, nodes, node)->Ok_0;
    let id = made->0;
    assert forall|idx: Seq<int>| inside(idx, q.dims(id)) implies data(
        q.steps,
        id as int,
        m,
    )[#[trigger] flat(idx, q.dims(id))] == element(
        p.steps,
        x as int,
        m,
        shifted(idx, axis as int, start),
    ) by {
        lemma_flat(idx, q.dims(id));
        lemma_element_kept(p.steps, q.steps, x as int, m, shifted(idx, axis as int, start));
        assert(element(q.steps, id as int, m, idx) == element(q.steps, id - 1, m, idx));
    }
}

/// A tensor read back: its dimensions and its numbers row by row.
pub struct ReadBack {
    pub dims: Seq<usize>,
    pub numbers: Seq<int>,
}

/// What is read back for the tensor that a call makes.
pub open spec fn read_back(made: Made, m: Arithmetic) -> ReadBack {
    let (q, id) = made->Ok_0;
    ReadBack { dims: q.dims(id->0), numbers: data(q.steps, id->0 as int, m) }
}

/// The number at a place of tensors laid one after the other along an axis.
pub open spec fn joined_at(parts: Seq<ReadBack>, axis: int, idx: Seq<int>) -> int
    decreases parts.len(),
{
    if parts.len() == 0 {
        0
    } else {
        let first = parts[0];
        if idx[axis] < first.dims[axis] {
            first.numbers[flat(idx, first.dims)]
        } else {
            joined_at(parts.drop_first(), axis, shifted(idx, axis, -first.dims[axis]))
        }
    }
}

/// The extent of tensors laid one after the other along an axis.
pub open spec fn joined_extent(parts: Seq<ReadBack>, axis: int) -> int
    decreases parts.len(),
{
    if parts.len() == 0 {
        0
    } else {
        parts[0].dims[axis] + joined_extent(parts.drop_first(), axis)
    }
}

/// The numbers of tensors laid one after the other along an axis, row by row, where `dims`
/// are the dimensions of the whole.
pub open spec fn joined(parts: Seq<ReadBack>, axis: int, dims: Seq<usize>) -> Seq<int> {
    Seq::new(product(dims) as nat, |k: int| joined_at(parts, axis, place(k, dims)))
}

/// The tensor is the `i`-th part of tensor `x`, split into parts of `size` along an axis.
pub open spec fn is_part(
    g: Seq<StepView>,
    x: int,
    m: Arithmetic,
    part: ReadBack,
    axis: int,
    size: int,
    i: int,
) -> bool {
    let dims = g[x].dims;
    let left = dims[axis] - i * size;
    &&& left > 0
    &&& part.dims == dims.update(
        axis,
        (if size < left {
            size
        } else {
            left
        }) as usize,
    )
    &&& forall|idx: Seq<int>|
        inside(idx, part.dims) ==> part.numbers[#[trigger] flat(idx, part.dims)] == element(
            g,
            x,
            m,
            shifted(idx, axis, i * size),
        )
}

/// What the parts from the `n`-th on come to.
proof fn lemma_joined_from(
    g: Seq<StepView>,
    x: int,
    m: Arithmetic,
    parts: Seq<ReadBack>,
    axis: int,
    size: int,
    n: int,
)
    requires
        0 <= axis < g[x].dims.len(),
        0 < size,
        0 <= n <= parts.len(),
        forall|i: int|
            0 <= i < parts.len() ==> is_part(g, x, m, #[trigger] parts[i], axis, size, i),
        g[x].dims[axis] <= parts.len() * size,
        size <= usize::MAX,
    ensures
        n * size <= g[x].dims[axis] ==> joined_extent(parts.skip(n), axis) == g[x].dims[axis] - n
            * size,
        forall|idx: Seq<int>|
            inside(idx, g[x].dims) && n * size <= idx[axis] ==> #[trigger] joined_at(
                parts.skip(n),
                axis,
                shifted(idx, axis, -(n * size)),
            ) == element(g, x, m, idx),
    decreases parts.len() - n,
{
    let dims = g[x].dims;
    let dim = dims[axis] as int;
    let rest = parts.skip(n);
    if n == parts.len() {
        assert(rest.len() == 0);
        assert(parts.len() * size == n * size);
    } else {
        assert(is_part(g, x, m, parts[n], axis, size, n));
        let next = n + 1;
        assert(next * size == n * size + size) by (nonlinear_arith)
            requires
                next == n + 1,
        ;
        lemma_joined_from(g, x, m, parts, axis, size, next);
        assert(rest.drop_first() =~= parts.skip(next));
        let first = parts[n];
        assert(rest[0] == first);
        assert(first.dims[axis] == if size < dim - n * size {
            size
        } else {
            dim - n * size
        });
        if next * size > dim {
            assert(next == parts.len()) by {
                if next < parts.len() {
                    assert(is_part(g, x, m, parts[next], axis, size, next));
                }
            }
            assert(parts.skip(next).len() == 0);
        }
        assert(joined_extent(rest, axis) == first.dims[axis] + joined_extent(
            parts.skip(next),
            axis,
        ));
        assert forall|idx: Seq<int>| inside(idx, dims) && n * size <= idx[axis] implies
            #[trigger] joined_at(rest, axis, shifted(idx, axis, -(n * size))) == element(
            g,
            x,
            m,
            idx,
        ) by {
            let here = shifted(idx, axis, -(n * size));
            assert(here[axis] == idx[axis] - n * size);
            if here[axis] < first.dims[axis] {
                assert(inside(here, first.dims)) by {
                    assert forall|q: int| 0 <= q < dims.len() implies 0 <= #[trigger] here[q]
                        < first.dims[q] by {
                        assert(0 <= idx[q] < dims[q]);
                    }
                }
                assert(shifted(here, axis, n * size) =~= idx);
                assert(first.numbers[flat(here, parts[n].dims)] == element(
                    g,
                    x,
                    m,
                    shifted(here, axis, n * size),
                ));
            } else {
                assert(idx[axis] < dims[axis]);
                assert(first.dims[axis] == size);
                let there = shifted(idx, axis, -(next * size));
                assert(shifted(here, axis, -first.dims[axis]) =~= there);
                assert(joined_at(rest, axis, here) == joined_at(parts.skip(next), axis, there));
            }
        }
    }
}

/// The parts of a split, laid one after the other along the axis, give the tensor back: its
/// extent, and its elements row by row; and where the tensor is stored so, as an input is,
/// its own data. The parts may be taken in one program or in several that go on from `p`.
pub proof fn law_parts_give_back_the_whole(
    p: ProgramView,
    ps: Seq<ProgramView>,
    nodes: Seq<Seq<PyTorchGraphNode>>,
    takers: Seq<PyTorchGraphNode>,
    x: usize,
    size: usize,
    axis: usize,
    m: Arithmetic,
    parts: Seq<ReadBack>,
)
    requires
        x < p.steps.len(),
        axis < p.dims(x).len(),
        0 < size,
        takers.len() * size <= usize::MAX,
        one_is_neutral(m),
        ps.len() == takers.len() && nodes.len() == takers.len() && parts.len() == takers.len(),
        takers.len() == (p.dims(x)[axis as int] + size - 1) / (size as int),
        forall|i: int|
            0 <= i < takers.len() ==> (#[trigger] ps[i]).wf() && ps[i].steps.len() + 1 <= usize::MAX
                && extends(p.steps, ps[i].steps) && takes_part(
                ps[i],
                nodes[i],
                takers[i],
                x,
                size,
                axis,
                i as usize,
            ) && parts[i] == read_back(call_made(ps[i], nodes[i], takers[i]), m),
    ensures
        joined_extent(parts, axis as int) == p.dims(x)[axis as int],
        joined(parts, axis as int, p.dims(x)) == rows(p.steps, x as int, m),
        seen_in(p.steps[x as int].op) is None ==> joined(parts, axis as int, p.dims(x)) == data(
            p.steps,
            x as int,
            m,
        ),
{
    let dims = p.dims(x);
    let dim = dims[axis as int] as int;
    let s = size as int;
    let n = takers.len() as int;
    let g = p.steps;
    vstd::arithmetic::div_mod::lemma_fundamental_div_mod(dim + s - 1, s);
    vstd::arithmetic::div_mod::lemma_mod_bound(dim + s - 1, s);
    assert(n * s == s * n) by (nonlinear_arith);
    assert(dim <= n * s && n * s < dim + s);
    assert forall|i: int| 0 <= i < parts.len() implies is_part(
        g,
        x as int,
        m,
        #[trigger] parts[i],
        axis as int,
        s,
        i,
    ) by {
        assert(ps[i].wf());
        lemma_one_part(p, ps[i], nodes[i], takers[i], x, size, axis, i, n, m);
    }
    lemma_joined_from(g, x as int, m, parts, axis as int, s, 0);
    assert(parts.skip(0) =~= parts);
    let (d, e) = (joined(parts, axis as int, dims), rows(g, x as int, m));
    lemma_product_not_negative(dims);
    assert forall|k: int| 0 <= k < e.len() implies #[trigger] d[k] == e[k] by {
        lemma_place(k, dims);
        let idx = place(k, dims);
        assert(0 <= idx[axis as int]);
        assert(shifted(idx, axis as int, -(0 * s)) =~= idx);
        assert(joined_at(parts.skip(0), axis as int, shifted(idx, axis as int, -(0 * s))) == element(
            g,
            x as int,
            m,
            idx,
        ));
    }
    assert(d =~= e);
    if seen_in(g[x as int].op) is None {
        lemma_stored_in_rows(g, x as int, m);
    }
}

/// One part, in a program that goes on from `p`.
proof fn lemma_one_part(
    p: ProgramView,
    q: ProgramView,
    nodes: Seq<PyTorchGraphNode>,
    taker: PyTorchGraphNode,
    x: usize,
    size: usize,
    axis: usize,
    i: int,
    n: int,
    m: Arithmetic,
)
    requires
        x < p.steps.len(),
        axis < p.dims(x).len(),
        0 < size,
        n * size <= usize::MAX,
        one_is_neutral(m),
        0 <= i < n,
        n * size < p.dims(x)[axis as int] + size,
        q.wf(),
        q.steps.len() + 1 <= usize::MAX,
        extends(p.steps, q.steps),
        takes_part(q, nodes, taker, x, size, axis, i as usize),
    ensures
        is_part(
            p.steps,
            x as int,
            m,
            read_back(call_made(q, nodes, taker), m),
            axis as int,
            size as int,
            i,
        ),
{
    let dim = p.dims(x)[axis as int] as int;
    assert(p.steps[x as int] == q.steps[x as int]);
    assert(i * size + size <= n * size) by (nonlinear_arith)
        requires
            0 <= i < n,
            0 < size,
    ;
    assert(i <= i * size) by (nonlinear_arith)
        requires
            0 <= i,
            0 < size,
    ;
    assert(i * size < dim);
    assert(i as usize == i);
    law_part_of_split(q, nodes, taker, x, size, axis, i as usize, m);
    let part = read_back(call_made(q, nodes, taker), m);
    assert forall|idx: Seq<int>| inside(idx, part.dims) implies part.numbers[#[trigger] flat(
        idx,
        part.dims,
    )] == element(p.steps, x as int, m, shifted(idx, axis as int, i * size)) by {
        lemma_element_kept(p.steps, q.steps, x as int, m, shifted(idx, axis as int, i * size));
    }
}

/// What a program gives back: the data of the tensors that are marked as outputs, by name.
pub open spec fn results(p: ProgramView, m: Arithmetic) -> Map<Seq<char>, Seq<int>> {
    Map::new(
        |name: Seq<char>| p.outputs.contains(name) && p.names.contains_key(name),
        |name: Seq<char>| data(p.steps, p.names[name] as int, m),
    )
}

/// The graph begins with an input of these dimensions whose elements are not asked to be
/// whole.
pub open spec fn begins_with_input(nodes: Seq<PyTorchGraphNode>, dims: Seq<usize>) -> bool {
    &&& nodes.len() > 0
    &&& nodes[0].op@ == "placeholder"@
    &&& !is_int_type(nodes[0].dtype@)
    &&& nodes[0].shape@ == dims
    &&& 1 <= dims.len() <= 4
}

/// The node marks the tensor of this name as an output.
pub open spec fn hands_out(node: PyTorchGraphNode, name: Seq<char>) -> bool {
    &&& node.op@ == "output"@
    &&& name != "None"@
    &&& exists|j: int| 0 <= j < node.args@.len() && #[trigger] node.args@[j].text@ == name
}

proof fn lemma_named_wf(p: ProgramView, name: Seq<char>, id: usize)
    requires
        p.wf(),
        id < p.steps.len(),
    ensures
        p.with_name(name, id).wf(),
        p.with_name(name, id).find(name) == Some(id),
{
    let q = p.with_name(name, id);
    assert forall|n: Seq<char>| q.names.contains_key(n) implies #[trigger] q.names[n]
        < q.steps.len() by {
        if n != name {
            assert(p.names[n] < p.steps.len());
        }
    }
}

/// The program of a graph's first node.
proof fn lemma_input_read(nodes: Seq<PyTorchGraphNode>, dims: Seq<usize>)
    requires
        begins_with_input(nodes, dims),
    ensures
        compiled(nodes, 1) matches Ok(p) && p.wf() && p.steps == seq![
            StepView { op: TorchOp::Input, dims },
        ] && p.find(nodes[0].name@) == Some(0usize) && p.outputs.len() == 0,
{
    let p0 = no_steps();
    assert(compiled(nodes, 0) == Ok::<ProgramView, (usize, TorchError)>(p0));
    let p = p0.with_step(TorchOp::Input, dims);
    assert(p.wf());
    assert(p.steps =~= seq![StepView { op: TorchOp::Input, dims }]);
    lemma_named_wf(p, nodes[0].name@, 0);
}

/// One more call.
proof fn lemma_call_read(nodes: Seq<PyTorchGraphNode>, n: int, p: ProgramView, q: ProgramView, id: usize)
    requires
        0 <= n < nodes.len(),
        compiled(nodes, n) == Ok::<ProgramView, (usize, TorchError)>(p),
        nodes[n].op@ == "call_function"@,
        call_made(p, nodes, nodes[n]) == Ok::<(ProgramView, Option<usize>), TorchError>((q, Some(id))),
        q.wf(),
        id < q.steps.len(),
    ensures
        compiled(nodes, n + 1) == Ok::<ProgramView, (usize, TorchError)>(
            q.with_name(nodes[n].name@, id),
        ),
        q.with_name(nodes[n].name@, id).wf(),
        q.with_name(nodes[n].name@, id).find(nodes[n].name@) == Some(id),
{
    reveal_strlit("call_function");
    reveal_strlit("placeholder");
    assert("call_function"@.len() == 13 && "placeholder"@.len() == 11);
    lemma_named_wf(q, nodes[n].name@, id);
}

/// Marking outputs changes no data.
pub proof fn law_outputs_keep_data(
    p: ProgramView,
    args: Seq<Arg>,
    n: int,
    name: Seq<char>,
    m: Arithmetic,
)
    requires
        p.wf(),
        0 <= n <= args.len(),
        p.steps.len() + n <= usize::MAX,
        p.names.contains_key(name),
    ensures
        outputs_made(p, args, n).wf(),
        p.steps.len() <= outputs_made(p, args, n).steps.len() <= p.steps.len() + n,
        outputs_made(p, args, n).names.contains_key(name),
        data(
            outputs_made(p, args, n).steps,
            outputs_made(p, args, n).names[name] as int,
            m,
        ) == data(p.steps, p.names[name] as int, m),
        name != "None"@ && (exists|j: int| 0 <= j < n && #[trigger] args[j].text@ == name)
            ==> outputs_made(p, args, n).outputs.contains(name),
    decreases n,
{
    if n > 0 {
        law_outputs_keep_data(p, args, n - 1, name, m);
        let q = outputs_made(p, args, n - 1);
        let r = outputs_made(p, args, n);
        let text = args[n - 1].text@;
        if text != "None"@ && q.names.contains_key(text) {
            let input = q.names[text];
            assert(q.names[text] < q.steps.len());
            let marked = q.with_step(TorchOp::Output { input }, q.dims(input));
            let last = q.steps.len() as int;
            assert(marked.steps[last].op == TorchOp::Output { input });
            assert(marked.wf()) by {
                assert forall|i: int| 0 <= i < marked.steps.len() implies uses_below(
                    #[trigger] marked.steps[i].op,
                    i,
                ) by {
                    if i < last {
                        assert(marked.steps[i] == q.steps[i]);
                    }
                }
                assert forall|s: Seq<char>| marked.names.contains_key(s) implies #[trigger] marked.names[s]
                    < marked.steps.len() by {
                    assert(q.names[s] < q.steps.len());
                }
            }
            lemma_named_wf(marked, text, q.next());
            let named = marked.with_name(text, q.next());
            assert(named.wf());
            assert(r == ProgramView { outputs: q.outputs.push(text), ..named });
            assert(r.wf()) by {
                assert(r.steps == named.steps && r.names == named.names);
                assert forall|i: int| 0 <= i < r.steps.len() implies uses_below(
                    #[trigger] r.steps[i].op,
                    i,
                ) by {
                    assert(uses_below(named.steps[i].op, i));
                }
                assert forall|s: Seq<char>| r.names.contains_key(s) implies #[trigger] r.names[s]
                    < r.steps.len() by {
                    assert(named.names[s] < named.steps.len());
                }
            }
            assert(q.names[name] < q.steps.len());
            lemma_data_kept(q.steps, r.steps, q.names[name] as int, m);
            lemma_data_kept(q.steps, r.steps, input as int, m);
            if name == text {
                assert(data(r.steps, last, m) =~= data(r.steps, input as int, m));
            }
            assert forall|s: Seq<char>| #[trigger] q.outputs.contains(s) implies r.outputs.contains(
                s,
            ) by {
                let j = choose|j: int| 0 <= j < q.outputs.len() && q.outputs[j] == s;
                assert(r.outputs[j] == s);
            }
            assert(r.outputs[q.outputs.len() as int] == text);
        } else {
            assert(r == q);
        }
        if exists|j: int| 0 <= j < n && #[trigger] args[j].text@ == name {
            let j = choose|j: int| 0 <= j < n && #[trigger] args[j].text@ == name;
            if j < n - 1 {
                assert(args[j].text@ == name);
            }
        }
    }
}

/// The outputs are marked, and one of them is read back.
proof fn lemma_output_read(
    nodes: Seq<PyTorchGraphNode>,
    n: int,
    p: ProgramView,
    name: Seq<char>,
    m: Arithmetic,
)
    requires
        0 <= n < nodes.len(),
        compiled(nodes, n) == Ok::<ProgramView, (usize, TorchError)>(p),
        p.wf(),
        hands_out(nodes[n], name),
        p.names.contains_key(name),
        p.steps.len() + nodes[n].args@.len() <= usize::MAX,
    ensures
        compiled(nodes, n + 1) matches Ok(r) && results(r, m).contains_key(name) && results(
            r,
            m,
        )[name] == data(p.steps, p.names[name] as int, m),
{
    reveal_strlit("call_function");
    reveal_strlit("placeholder");
    reveal_strlit("output");
    assert("call_function"@.len() == 13 && "placeholder"@.len() == 11 && "output"@.len() == 6);
    let args = nodes[n].args@;
    law_outputs_keep_data(p, args, args.len() as int, name, m);
}

/// The numbers that were given for the first node.
pub open spec fn given_first(m: Arithmetic, dims: Seq<usize>) -> Seq<int> {
    Seq::new(product(dims) as nat, |k: int| (m.given)(0, k))
}

/// The graph reads an input, exchanges axes `a` and `b` of it, and hands out the result.
pub open spec fn is_transpose_graph(
    nodes: Seq<PyTorchGraphNode>,
    dims: Seq<usize>,
    a: usize,
    b: usize,
) -> bool {
    &&& nodes.len() == 3
    &&& begins_with_input(nodes, dims)
    &&& nodes[1].op@ == "call_function"@
    &&& nodes[1].args@.len() >= 1 && nodes[1].args@[0].text@ == nodes[0].name@
    &&& (compiled(nodes, 1) matches Ok(p) && transposes(p, nodes[1], 0, a, b))
    &&& hands_out(nodes[2], nodes[1].name@)
    &&& nodes[2].args@.len() + 3 <= usize::MAX
}

/// A graph that transposes its input gives back what was given, each number moved to the
/// place with the two coordinates exchanged, row by row.
pub proof fn law_transposed_input(
    nodes: Seq<PyTorchGraphNode>,
    dims: Seq<usize>,
    a: usize,
    b: usize,
    m: Arithmetic,
)
    requires
        is_transpose_graph(nodes, dims, a, b),
        one_is_neutral(m),
    ensures
        compiled(nodes, 3) matches Ok(r) && results(r, m).contains_key(nodes[1].name@) && {
            let turned = swapped_dims(dims, a as int, b as int);
            let out = results(r, m)[nodes[1].name@];
            &&& out.len() == product(turned)
            &&& forall|idx: Seq<int>|
                inside(idx, dims) ==> inside(#[trigger] swapped(idx, a as int, b as int), turned)
                    && out[flat(swapped(idx, a as int, b as int), turned)] == (m.given)(
                    0,
                    flat(idx, dims),
                )
        },
{
    lemma_input_read(nodes, dims);
    let p = compiled(nodes, 1)->Ok_0;
    law_transpose_moves_elements(p, nodes, nodes[1], 0, a, b, m);
    let (q, made) = call_made(p, nodes, nodes[1])->Ok_0;
    let id = made->0;
    lemma_call_read(nodes, 1, p, q, id);
    let named = q.with_name(nodes[1].name@, id);
    lemma_output_read(nodes, 2, named, nodes[1].name@, m);
    lemma_product_not_negative(q.dims(id));
    assert forall|idx: Seq<int>| inside(idx, dims) implies #[trigger] element(p.steps, 0, m, idx)
        == (m.given)(0, flat(idx, dims)) by {
    }
}

/// Graphs that transpose the same input give back the same, whichever of the two axes they
/// name first, and whether they count from the end or not.
pub proof fn law_transposed_input_however_named(
    nodes: Seq<PyTorchGraphNode>,
    nodes2: Seq<PyTorchGraphNode>,
    dims: Seq<usize>,
    a: usize,
    b: usize,
    m: Arithmetic,
)
    requires
        is_transpose_graph(nodes, dims, a, b),
        is_transpose_graph(nodes2, dims, b, a) || is_transpose_graph(nodes2, dims, a, b),
        one_is_neutral(m),
    ensures
        compiled(nodes, 3) matches Ok(r) && (compiled(nodes2, 3) matches Ok(r2) && results(
            r,
            m,
        ).contains_key(nodes[1].name@) && results(r2, m).contains_key(nodes2[1].name@) && results(
            r,
            m,
        )[nodes[1].name@] == results(r2, m)[nodes2[1].name@]),
{
    law_transposed_input(nodes, dims, a, b, m);
    if is_transpose_graph(nodes2, dims, b, a) {
        law_transposed_input(nodes2, dims, b, a, m);
    } else {
        law_transposed_input(nodes2, dims, a, b, m);
    }
    lemma_input_read(nodes, dims);
    let turned = swapped_dims(dims, a as int, b as int);
    assert(turned =~= swapped_dims(dims, b as int, a as int));
    let d = results(compiled(nodes, 3)->Ok_0, m)[nodes[1].name@];
    let e = results(compiled(nodes2, 3)->Ok_0, m)[nodes2[1].name@];
    assert forall|k: int| 0 <= k < d.len() implies #[trigger] d[k] == e[k] by {
        lemma_place(k, turned);
        let there = place(k, turned);
        let idx = swapped(there, a as int, b as int);
        assert(there[a as int] < turned[a as int] && there[b as int] < turned[b as int]);
        assert(inside(idx, dims));
        assert(swapped(idx, a as int, b as int) =~= there);
        assert(swapped(idx, b as int, a as int) =~= there);
    }
    assert(d =~= e);
}

/// A graph that transposes its input twice gives back what was given.
pub proof fn law_input_transposed_twice(
    nodes: Seq<PyTorchGraphNode>,
    dims: Seq<usize>,
    a: usize,
    b: usize,
    m: Arithmetic,
)
    requires
        nodes.len() == 4,
        begins_with_input(nodes, dims),
        nodes[1].op@ == "call_function"@,
        nodes[2].op@ == "call_function"@,
        compiled(nodes, 1) matches Ok(p) && transposes(p, nodes[1], 0, a, b),
        compiled(nodes, 2) matches Ok(q) && transposes(q, nodes[2], q.names[nodes[1].name@], a, b),
        hands_out(nodes[3], nodes[2].name@),
        nodes[3].args@.len() + 5 <= usize::MAX,
        one_is_neutral(m),
    ensures
        compiled(nodes, 4) matches Ok(r) && results(r, m).contains_key(nodes[2].name@) && results(
            r,
            m,
        )[nodes[2].name@] == given_first(m, dims),
{
    lemma_input_read(nodes, dims);
    let p = compiled(nodes, 1)->Ok_0;
    law_transpose_moves_elements(p, nodes, nodes[1], 0, a, b, m);
    let (q0, made) = call_made(p, nodes, nodes[1])->Ok_0;
    lemma_call_read(nodes, 1, p, q0, made->0);
    let q = compiled(nodes, 2)->Ok_0;
    law_transpose_twice(p, nodes, nodes[1], nodes[2], 0, a, b, m);
    law_transpose_moves_elements(q, nodes, nodes[2], made->0, a, b, m);
    let (r0, made2) = call_made(q, nodes, nodes[2])->Ok_0;
    lemma_call_read(nodes, 2, q, r0, made2->0);
    let r = r0.with_name(nodes[2].name@, made2->0);
    lemma_output_read(nodes, 3, r, nodes[2].name@, m);
    law_input_is_what_was_given(p.steps, 0, m);
}

/// The graph reads an input, splits it into parts of `size` along an axis, takes the part at
/// `index`, and hands it out.
pub open spec fn is_split_graph(
    nodes: Seq<PyTorchGraphNode>,
    dims: Seq<usize>,
    size: usize,
    axis: usize,
    index: usize,
) -> bool {
    &&& nodes.len() == 4
    &&& begins_with_input(nodes, dims)
    &&& nodes[1].op@ == "call_function"@ && nodes[1].target@ == "aten.split.Tensor"@
    &&& nodes[1].args@.len() >= 2 && nodes[1].args@[0].text@ == nodes[0].name@
    &&& nodes[2].op@ == "call_function"@
    &&& nodes[2].args@.len() >= 2 && nodes[2].args@[0].text@ == nodes[1].name@
    &&& (compiled(nodes, 2) matches Ok(p) && takes_part(p, nodes, nodes[2], 0, size, axis, index))
    &&& hands_out(nodes[3], nodes[2].name@)
    &&& nodes[3].args@.len() + 3 <= usize::MAX
}

proof fn lemma_split_call(p: ProgramView, nodes: Seq<PyTorchGraphNode>, node: PyTorchGraphNode)
    requires
        node.target@ == "aten.split.Tensor"@,
    ensures
        call_made(p, nodes, node) == pass_through_made(p, node.args@, 2),
{
    reveal_strlit("aten.add.Tensor");
    reveal_strlit("aten.add");
    reveal_strlit("aten.mul.Tensor");
    reveal_strlit("aten.mul");
    reveal_strlit("aten.linear.default");
    reveal_strlit("aten.view.default");
    reveal_strlit("aten.transpose.int");
    reveal_strlit("aten.dropout.default");
    reveal_strlit("aten.lift_fresh_copy.default");
    reveal_strlit("aten.layer_norm.default");
    reveal_strlit("aten.split.Tensor");
    assert("aten.split.Tensor"@.len() == 17 && "aten.split.Tensor"@[5] == 's');
    assert("aten.add.Tensor"@.len() == 15 && "aten.add"@.len() == 8);
    assert("aten.mul.Tensor"@.len() == 15 && "aten.mul"@.len() == 8);
    assert("aten.linear.default"@.len() == 19 && "aten.view.default"@[5] == 'v');
    assert("aten.transpose.int"@.len() == 18 && "aten.dropout.default"@.len() == 20);
    assert("aten.lift_fresh_copy.default"@.len() == 28);
    assert("aten.layer_norm.default"@.len() == 23);
}

/// What a graph hands out under a name, with these dimensions.
pub open spec fn handed_out(
    nodes: Seq<PyTorchGraphNode>,
    name: Seq<char>,
    dims: Seq<usize>,
    m: Arithmetic,
) -> ReadBack {
    ReadBack { dims, numbers: results(compiled(nodes, nodes.len() as int)->Ok_0, m)[name] }
}

/// The dimensions of the `i`-th part.
pub open spec fn part_dims(dims: Seq<usize>, axis: usize, size: usize, i: int) -> Seq<usize> {
    let left = dims[axis as int] - i * size;
    dims.update(
        axis as int,
        (if size < left {
            size as int
        } else {
            left
        }) as usize,
    )
}

/// Graphs that each hand out one part of a split of the same input give, laid one after the
/// other along the axis, what was given: no number lost, repeated or out of place.
pub proof fn law_split_input_joined(
    graphs: Seq<Seq<PyTorchGraphNode>>,
    dims: Seq<usize>,
    size: usize,
    axis: usize,
    m: Arithmetic,
    parts: Seq<ReadBack>,
)
    requires
        axis < dims.len(),
        0 < size,
        graphs.len() * size <= usize::MAX,
        one_is_neutral(m),
        0 < graphs.len() == (dims[axis as int] + size - 1) / (size as int),
        parts.len() == graphs.len(),
        forall|i: int|
            0 <= i < graphs.len() ==> is_split_graph(#[trigger] graphs[i], dims, size, axis, i as usize)
                && parts[i] == handed_out(
                graphs[i],
                graphs[i][2].name@,
                part_dims(dims, axis, size, i),
                m,
            ),
    ensures
        forall|i: int|
            0 <= i < graphs.len() ==> compiled(#[trigger] graphs[i], 4) is Ok && results(
                compiled(graphs[i], 4)->Ok_0,
                m,
            ).contains_key(graphs[i][2].name@) && parts[i].numbers.len() == product(parts[i].dims),
        joined_extent(parts, axis as int) == dims[axis as int],
        joined(parts, axis as int, dims) == given_first(m, dims),
{
    let n = graphs.len() as int;
    let s = size as int;
    let dim = dims[axis as int] as int;
    lemma_input_read(graphs[0], dims);
    let p = compiled(graphs[0], 1)->Ok_0;
    let ps = Seq::new(graphs.len(), |i: int| compiled(graphs[i], 2)->Ok_0);
    let takers = Seq::new(graphs.len(), |i: int| graphs[i][2]);
    vstd::arithmetic::div_mod::lemma_fundamental_div_mod(dim + s - 1, s);
    vstd::arithmetic::div_mod::lemma_mod_bound(dim + s - 1, s);
    assert(n * s == s * n) by (nonlinear_arith);
    assert forall|i: int| 0 <= i < graphs.len() implies (#[trigger] ps[i]).wf() && ps[i].steps.len()
        + 1 <= usize::MAX && extends(p.steps, ps[i].steps) && parts[i] == read_back(
        call_made(ps[i], graphs[i], takers[i]),
        m,
    ) && parts[i].numbers.len() == product(parts[i].dims) && compiled(graphs[i], 4) is Ok && results(
        compiled(graphs[i], 4)->Ok_0,
        m,
    ).contains_key(graphs[i][2].name@) by {
        assert(is_split_graph(graphs[i], dims, size, axis, i as usize));
        lemma_split_graph(p, graphs[i], dims, size, axis, i, n, m);
    }
    law_parts_give_back_the_whole(p, ps, graphs, takers, 0, size, axis, m, parts);
    law_input_is_what_was_given(p.steps, 0, m);
    assert forall|i: int| 0 <= i < graphs.len() implies compiled(#[trigger] graphs[i], 4) is Ok
        && results(compiled(graphs[i], 4)->Ok_0, m).contains_key(graphs[i][2].name@)
        && parts[i].numbers.len() == product(parts[i].dims) by {
        assert(ps[i].wf());
    }
}

/// One graph that hands out a part.
proof fn lemma_split_graph(
    p: ProgramView,
    nodes: Seq<PyTorchGraphNode>,
    dims: Seq<usize>,
    size: usize,
    axis: usize,
    i: int,
    n: int,
    m: Arithmetic,
)
    requires
        axis < dims.len(),
        0 < size,
        n * size <= usize::MAX,
        one_is_neutral(m),
        0 <= i < n,
        n * size < dims[axis as int] + size,
        is_split_graph(nodes, dims, size, axis, i as usize),
        p.steps == seq![StepView { op: TorchOp::Input, dims }],
    ensures
        compiled(nodes, 2) matches Ok(q) && q.wf() && q.steps.len() + 1 <= usize::MAX && extends(
            p.steps,
            q.steps,
        ) && compiled(nodes, 4) is Ok && results(compiled(nodes, 4)->Ok_0, m).contains_key(
            nodes[2].name@,
        ) && handed_out(nodes, nodes[2].name@, part_dims(dims, axis, size, i), m) == read_back(
            call_made(q, nodes, nodes[2]),
            m,
        ) && handed_out(nodes, nodes[2].name@, part_dims(dims, axis, size, i), m).numbers.len()
            == product(part_dims(dims, axis, size, i)),
{
    lemma_input_read(nodes, dims);
    let p1 = compiled(nodes, 1)->Ok_0;
    lemma_split_call(p1, nodes, nodes[1]);
    lemma_call_read(nodes, 1, p1, p1, 0);
    let q = compiled(nodes, 2)->Ok_0;
    assert(q.steps == p1.steps);
    lemma_one_part(q, q, nodes, nodes[2], 0, size, axis, i, n, m);
    assert(i <= i * size) by (nonlinear_arith)
        requires
            0 <= i,
            0 < size,
    ;
    assert(i * size + size <= n * size) by (nonlinear_arith)
        requires
            0 <= i < n,
            0 < size,
    ;
    law_part_of_split(q, nodes, nodes[2], 0, size, axis, i as usize, m);
    let (r, made) = call_made(q, nodes, nodes[2])->Ok_0;
    lemma_call_read(nodes, 2, q, r, made->0);
    lemma_output_read(nodes, 3, r.with_name(nodes[2].name@, made->0), nodes[2].name@, m);
    lemma_product_not_negative(r.dims(made->0));
}

/// The dimensions `n` times 1 behind a first.
spec fn first_and_ones(first: usize, n: nat) -> Seq<usize> {
    seq![first] + Seq::new(n, |q: int| 1usize)
}

/// The place with this first coordinate and `n` times 0 behind it.
spec fn first_and_zeros(i: int, n: nat) -> Seq<int> {
    seq![i] + Seq::new(n, |q: int| 0int)
}

/// Sizes whose product is 1 are 1.
proof fn lemma_product_one(s: Seq<usize>)
    requires
        product(s) == 1,
    ensures
        s =~= Seq::new(s.len(), |q: int| 1usize),
    decreases s.len(),
{
    if s.len() > 0 {
        let (a, b) = (product(s.drop_last()), s.last() as int);
        lemma_product_not_negative(s.drop_last());
        assert(a == 1 && b == 1) by (nonlinear_arith)
            requires
                a * b == 1,
                a >= 0,
                b >= 0,
        ;
        lemma_product_one(s.drop_last());
        assert(s =~= s.drop_last().push(s.last()));
    }
}

proof fn lemma_dropped_behind_first(
    p: ProgramView,
    id: usize,
    first: usize,
    axes: nat,
    n: nat,
    m: Arithmetic,
)
    requires
        id < p.steps.len(),
        p.steps.len() + n <= usize::MAX,
        p.dims(id) == first_and_ones(first, axes),
        n <= axes,
    ensures
        ({
            let (q, last) = dropped_behind_first(p, id, n);
            &&& extends(p.steps, q.steps)
            &&& q.names == p.names
            &&& last < q.steps.len() == p.steps.len() + n
            &&& q.dims(last) == first_and_ones(first, (axes - n) as nat)
            &&& forall|i: int| #[trigger]
                element(q.steps, last as int, m, first_and_zeros(i, (axes - n) as nat)) == element(
                    p.steps,
                    id as int,
                    m,
                    first_and_zeros(i, axes),
                )
        }),
    decreases n,
{
    if n > 0 {
        lemma_dropped_behind_first(p, id, first, axes, (n - 1) as nat, m);
        let (q, last) = dropped_behind_first(p, id, (n - 1) as nat);
        let (r, next) = dropped_behind_first(p, id, n);
        let left = (axes - n) as nat;
        assert(q.dims(last).remove(1) =~= first_and_ones(first, left));
        assert(r.steps[next as int].op == TorchOp::Squeeze { input: last, axis: 1 });
        assert forall|i: int| #[trigger]
            element(r.steps, next as int, m, first_and_zeros(i, left)) == element(
                p.steps,
                id as int,
                m,
                first_and_zeros(i, axes),
            ) by {
            let more = first_and_zeros(i, (left + 1) as nat);
            assert(first_and_zeros(i, left).insert(1, 0) =~= more);
            lemma_element_kept(q.steps, r.steps, last as int, m, more);
        }
    }
}

/// One index stands for every place: where an axis is indexed by a single number, whatever
/// the number of axes that it comes with, there is one index for each of the `prefix`
/// places, and all are that number.
pub proof fn law_one_index_is_repeated(
    p: ProgramView,
    indices: usize,
    prefix: usize,
    m: Arithmetic,
)
    requires
        indices < p.steps.len(),
        p.steps.len() + p.dims(indices).len() + 3 <= usize::MAX,
        product(p.dims(indices)) == 1,
    ensures
        spread_indices(p, indices, prefix) matches Ok((q, Some(idx))) && extends(p.steps, q.steps)
            && q.names == p.names && idx < q.steps.len() && q.steps.len() <= p.steps.len() + p.dims(
            indices,
        ).len() + 3 && q.dims(idx) == seq![prefix] && forall|i: int|
            0 <= i < prefix ==> #[trigger] element(q.steps, idx as int, m, seq![i]) == element(
                p.steps,
                indices as int,
                m,
                Seq::new(p.dims(indices).len(), |k: int| 0int),
            ),
{
    let rank = p.dims(indices).len();
    lemma_product_one(p.dims(indices));
    let zeros = Seq::new(rank, |k: int| 0int);
    let (p1, idx) = if rank == 0 {
        (p.with_step(TorchOp::Unsqueeze { input: indices, axis: 0 }, seq![1usize]), p.next())
    } else {
        (p, indices)
    };
    let axes = if rank == 0 {
        1
    } else {
        rank
    };
    let d1 = p1.dims(idx);
    assert(d1 =~= Seq::new(axes, |q: int| 1usize));
    assert(size_of_dims(d1) == Some(1usize)) by {
        assert forall|r: int| 0 <= r <= d1.len() implies #[trigger] product(d1.take(r)) == 1 by {
            lemma_product_of_ones(d1.take(r));
        }
        assert(d1.take(d1.len() as int) =~= d1);
    }
    let ones = Seq::new(axes, |k: int| 0int);
    assert(element(p1.steps, idx as int, m, ones) == element(p.steps, indices as int, m, zeros)) by {
        if rank == 0 {
            assert(p1.steps[idx as int].op == TorchOp::Unsqueeze { input: indices, axis: 0 });
            assert(ones.remove(0) =~= zeros);
            lemma_element_kept(p.steps, p1.steps, indices as int, m, zeros);
        }
    }
    let (p2, spread) = if prefix != 1 {
        (
            p1.with_step(
                TorchOp::ExpandDim { input: idx, axis: 0, size: prefix },
                d1.insert(0, prefix),
            ),
            p1.next(),
        )
    } else {
        (p1, idx)
    };
    let behind = (p2.dims(spread).len() - 1) as nat;
    assert(p2.dims(spread) =~= first_and_ones(prefix, behind));
    lemma_dropped_behind_first(p2, spread, prefix, behind, behind, m);
    let (q, last) = dropped_behind_first(p2, spread, behind);
    assert(q.dims(last) =~= seq![prefix]);
    assert forall|i: int| 0 <= i < prefix implies #[trigger] element(
        q.steps,
        last as int,
        m,
        seq![i],
    ) == element(p.steps, indices as int, m, zeros) by {
        assert(first_and_zeros(i, 0) =~= seq![i]);
        let there = first_and_zeros(i, behind);
        assert(element(q.steps, last as int, m, first_and_zeros(i, (behind - behind) as nat)) == element(
            p2.steps,
            spread as int,
            m,
            there,
        ));
        if prefix != 1 {
            assert(p2.steps[spread as int].op == TorchOp::ExpandDim {
                input: idx,
                axis: 0,
                size: prefix,
            });
            assert(there.remove(0) =~= ones);
            lemma_element_kept(p1.steps, p2.steps, idx as int, m, ones);
        } else {
            assert(there =~= ones);
        }
    }
}

proof fn lemma_product_of_ones(s: Seq<usize>)
    requires
        forall|q: int| 0 <= q < s.len() ==> #[trigger] s[q] == 1,
    ensures
        product(s) == 1,
    decreases s.len(),
{
    if s.len() > 0 {
        assert(s[s.len() - 1] == 1);
        lemma_product_of_ones(s.drop_last());
    }
}

/// Indexing along an axis by a single number succeeds wherever the sizes can be counted, and
/// leaves one place along the axis.
pub proof fn law_one_index_is_served(
    p: ProgramView,
    input: usize,
    axis: usize,
    indices: usize,
    m: Arithmetic,
)
    requires
        p.wf(),
        input < p.steps.len(),
        indices < p.steps.len(),
        axis < p.dims(input).len(),
        p.steps.len() + p.dims(indices).len() + 20 <= usize::MAX,
        product(p.dims(indices)) == 1,
        size_of_dims(p.dims(input).skip(axis + 1)) is Some,
        size_of_dims(p.dims(input).take(axis as int)) matches Some(prefix) && prefix
            * p.dims(input)[axis as int] <= usize::MAX,
    ensures
        picked_made(p, input, axis, indices) matches Ok((q, Some(id))) && q.dims(id) == p.dims(
            input,
        ).update(axis as int, 1),
{
    let dims = p.dims(input);
    let prefix = size_of_dims(dims.take(axis as int))->0;
    let suffix = size_of_dims(dims.skip(axis + 1))->0;
    let indexed = dims[axis as int];
    let p1 = p.with_step(
        TorchOp::Reinterpret { input },
        seq![(prefix * indexed) as usize, suffix],
    );
    law_one_index_is_repeated(p1, indices, prefix, m);
    let (p2, made) = spread_indices(p1, indices, prefix)->Ok_0;
    let idx = made->0;
    let p3 = p2.with_step(TorchOp::Arange, seq![prefix]);
    let p4 = p3.with_step(
        TorchOp::MulNumber { input: p2.next(), number: indexed },
        seq![prefix],
    );
    assert(p4.steps[idx as int] == p2.steps[idx as int]);
    assert(p4.dims(p3.next()) == p4.dims(idx));
    let (p5, _) = binary(p4, false, p3.next(), idx)->Ok_0;
    let row = p4.next();
    assert(p5.dims(row) == seq![prefix]);
    let q1 = p5.with_step(TorchOp::MulSize { input: row, size: suffix }, seq![prefix]);
    let q2 = q1.with_step(
        TorchOp::ExpandDim { input: p5.next(), axis: 1, size: suffix },
        seq![prefix].push(suffix),
    );
    let q3 = q2.with_step(TorchOp::Arange, seq![suffix]);
    let (q4, offset) = expanded_front(q3, q2.next(), seq![prefix], 1);
    assert(expanded_front(q3, q2.next(), seq![prefix], 0) == (q3, q2.next()));
    assert(q4.dims(offset) =~= seq![prefix].push(suffix));
    assert(q4.dims(q1.next()) == seq![prefix].push(suffix));
    assert(rows_made(p5, p.next(), row, suffix) is Ok);
    let (p6, rows) = rows_made(p5, p.next(), row, suffix)->Ok_0;
    assert(p6.steps.len() <= usize::MAX);
}

} // verus!
