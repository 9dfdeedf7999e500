//! What the functions of an exported graph compute: for each that can be called, the elements
//! of the tensor that it makes in terms of those of the tensors it is given.

#[allow(unused_imports)]
use crate::tensor::{inside, product, product_fits};
#[allow(unused_imports)]
use crate::torch::{
    arange_made, arange_start_made, arange_step_made, arithmetic_made, attention_made, binary,
    call_made, compiled, dropout_made, embedding_made, expanded_front, gelu_made, getitem_made,
    index_made, is_int_type, keyword, keyword_from, layer_norm_made, linear_made, matmul_dims,
    matmul_made, node_made, outputs_made, pass_through_made, picked_made, rows_made, size_of_dims,
    size_value, small_int, spread_indices, squeeze_made, swapped_dims, transpose_made,
    unsqueeze_made, view_made, view_scan, wanted_dims, with_optional, with_parameter, Arg, Keyword,
    Made, ProgramView, PyTorchGraphNode, StepView, TorchError, TorchOp, DEFAULT_EPS_BITS, ONE_BITS,
};
#[allow(unused_imports)]
use crate::torch_data::{
    self, element, extends, flat, law_one_index_is_repeated, lemma_data_kept, lemma_element_kept,
    lemma_flat, lemma_stored_kept, line, place, rows, seen_in, stored, swapped, Arithmetic,
};
use vstd::prelude::*;

verus! {

/// A line of elements, written out.
proof fn lemma_line(
    g: Seq<StepView>,
    i: int,
    m: Arithmetic,
    before: Seq<int>,
    after: Seq<int>,
    n: nat,
)
    ensures
        line(g, i, m, before, after, n) == Seq::new(
            n,
            |k: int| element(g, i, m, before.push(k) + after),
        ),
    decreases n,
{
    if n > 0 {
        lemma_line(g, i, m, before, after, (n - 1) as nat);
    }
    assert(line(g, i, m, before, after, n) =~= Seq::new(
        n,
        |k: int| element(g, i, m, before.push(k) + after),
    ));
}

/// A call makes a tensor: the program has more steps, the names are those that it had, and
/// the tensor has these dimensions and, at each place, what `at` says.
pub open spec fn makes(
    p: ProgramView,
    made: Made,
    m: Arithmetic,
    dims: Seq<usize>,
    at: spec_fn(Seq<int>) -> int,
) -> bool {
    made matches Ok((q, Some(id))) && id < q.steps.len() && extends(p.steps, q.steps) && q.names
        == p.names && q.outputs == p.outputs && q.dims(id) == dims && forall|idx: Seq<int>|
        inside(idx, dims) ==> #[trigger] element(q.steps, id as int, m, idx) == at(idx)
}

/// The argument at a place of a call names this tensor.
pub open spec fn names_tensor(
    p: ProgramView,
    node: PyTorchGraphNode,
    at: int,
    x: usize,
) -> bool {
    at < node.args@.len() && p.names.contains_key(node.args@[at].text@)
        && p.names[node.args@[at].text@] == x && x < p.steps.len()
}

/// The functions that a graph can call, and what each makes.
proof fn lemma_calls(p: ProgramView, nodes: Seq<PyTorchGraphNode>, node: PyTorchGraphNode)
    ensures
        node.target@ == "aten.add.Tensor"@ ==> call_made(p, nodes, node) == arithmetic_made(p, node.args@, false),
        node.target@ == "aten.add"@ ==> call_made(p, nodes, node) == arithmetic_made(p, node.args@, false),
        node.target@ == "aten.mul.Tensor"@ ==> call_made(p, nodes, node) == arithmetic_made(p, node.args@, true),
        node.target@ == "aten.mul"@ ==> call_made(p, nodes, node) == arithmetic_made(p, node.args@, true),
        node.target@ == "aten.linear.default"@ ==> call_made(p, nodes, node) == linear_made(p, node.args@),
        node.target@ == "aten.view.default"@ ==> call_made(p, nodes, node) == view_made(p, node.args@),
        node.target@ == "aten.transpose.int"@ ==> call_made(p, nodes, node) == transpose_made(p, node.args@),
        node.target@ == "aten.dropout.default"@ ==> call_made(p, nodes, node) == dropout_made(p, node.args@),
        node.target@ == "aten.lift_fresh_copy.default"@ ==> call_made(p, nodes, node) == pass_through_made(p, node.args@, 1),
        node.target@ == "aten.layer_norm.default"@ ==> call_made(p, nodes, node) == layer_norm_made(p, node.args@, node.kwargs@),
        node.target@ == "aten.split.Tensor"@ ==> call_made(p, nodes, node) == pass_through_made(p, node.args@, 2),
        node.target@ == "<built-in function getitem>"@ ==> call_made(p, nodes, node) == getitem_made(p, nodes, node.args@),
        node.target@ == "operator.getitem"@ ==> call_made(p, nodes, node) == getitem_made(p, nodes, node.args@),
        node.target@ == "getitem"@ ==> call_made(p, nodes, node) == getitem_made(p, nodes, node.args@),
        node.target@ == "aten.unsqueeze.default"@ ==> call_made(p, nodes, node) == unsqueeze_made(p, node.args@),
        node.target@ == "aten.squeeze.dim"@ ==> call_made(p, nodes, node) == squeeze_made(p, node.args@),
        node.target@ == "aten.arange.default"@ ==> call_made(p, nodes, node) == arange_made(p, node.args@),
        node.target@ == "aten.arange.start"@ ==> call_made(p, nodes, node) == arange_start_made(p, node.args@, node.length),
        node.target@ == "aten.arange.start_step"@ ==> call_made(p, nodes, node) == arange_step_made(p, node.args@, node.length),
        node.target@ == "aten.scaled_dot_product_attention.default"@ ==> call_made(p, nodes, node) == attention_made(p, node.args@),
        node.target@ == "aten.gelu.default"@ ==> call_made(p, nodes, node) == gelu_made(p, node.args@, node.kwargs@),
        node.target@ == "aten.embedding.default"@ ==> call_made(p, nodes, node) == embedding_made(p, node.args@),
        node.target@ == "aten.index.Tensor"@ ==> call_made(p, nodes, node) == index_made(p, node.args@, node.kwargs@),
{
    reveal_strlit("aten.add.Tensor");
    reveal_strlit("aten.add");
    reveal_strlit("aten.mul.Tensor");
    reveal_strlit("aten.mul");
    reveal_strlit("aten.linear.default");
    reveal_strlit("aten.view.default");
    reveal_strlit("aten.transpose.int");
    reveal_strlit("aten.dropout.default");
    reveal_strlit("aten.lift_fresh_copy.default");
    reveal_strlit("aten.layer_norm.default");
    reveal_strlit("aten.split.Tensor");
    reveal_strlit("<built-in function getitem>");
    reveal_strlit("operator.getitem");
    reveal_strlit("getitem");
    reveal_strlit("aten.unsqueeze.default");
    reveal_strlit("aten.squeeze.dim");
    reveal_strlit("aten.arange.default");
    reveal_strlit("aten.arange.start");
    reveal_strlit("aten.arange.start_step");
    reveal_strlit("aten.scaled_dot_product_attention.default");
    reveal_strlit("aten.gelu.default");
    reveal_strlit("aten.embedding.default");
    reveal_strlit("aten.index.Tensor");
    assert("aten.add.Tensor"@.len() == 15);
    assert("aten.add"@.len() == 8);
    assert("aten.mul.Tensor"@.len() == 15);
    assert("aten.mul"@.len() == 8);
    assert("aten.linear.default"@.len() == 19);
    assert("aten.view.default"@.len() == 17);
    assert("aten.transpose.int"@.len() == 18);
    assert("aten.dropout.default"@.len() == 20);
    assert("aten.lift_fresh_copy.default"@.len() == 28);
    assert("aten.layer_norm.default"@.len() == 23);
    assert("aten.split.Tensor"@.len() == 17);
    assert("<built-in function getitem>"@.len() == 27);
    assert("operator.getitem"@.len() == 16);
    assert("getitem"@.len() == 7);
    assert("aten.unsqueeze.default"@.len() == 22);
    assert("aten.squeeze.dim"@.len() == 16);
    assert("aten.arange.default"@.len() == 19);
    assert("aten.arange.start"@.len() == 17);
    assert("aten.arange.start_step"@.len() == 22);
    assert("aten.scaled_dot_product_attention.default"@.len() == 41);
    assert("aten.gelu.default"@.len() == 17);
    assert("aten.embedding.default"@.len() == 22);
    assert("aten.index.Tensor"@.len() == 17);
    assert("aten.add.Tensor"@[5] != "aten.mul.Tensor"@[5]);
    assert("aten.add"@[5] != "aten.mul"@[5]);
    assert("aten.linear.default"@[5] != "aten.arange.default"@[5]);
    assert("aten.view.default"@[5] != "aten.split.Tensor"@[5]);
    assert("aten.view.default"@[5] != "aten.arange.start"@[5]);
    assert("aten.view.default"@[5] != "aten.gelu.default"@[5]);
    assert("aten.view.default"@[5] != "aten.index.Tensor"@[5]);
    assert("aten.split.Tensor"@[5] != "aten.arange.start"@[5]);
    assert("aten.split.Tensor"@[5] != "aten.gelu.default"@[5]);
    assert("aten.split.Tensor"@[5] != "aten.index.Tensor"@[5]);
    assert("operator.getitem"@[0] != "aten.squeeze.dim"@[0]);
    assert("aten.unsqueeze.default"@[5] != "aten.arange.start_step"@[5]);
    assert("aten.unsqueeze.default"@[5] != "aten.embedding.default"@[5]);
    assert("aten.arange.start"@[5] != "aten.gelu.default"@[5]);
    assert("aten.arange.start"@[5] != "aten.index.Tensor"@[5]);
    assert("aten.arange.start_step"@[5] != "aten.embedding.default"@[5]);
    assert("aten.gelu.default"@[5] != "aten.index.Tensor"@[5]);
}

/// The node calls for a sum.
pub open spec fn adds(node: PyTorchGraphNode) -> bool {
    node.target@ == "aten.add.Tensor"@ || node.target@ == "aten.add"@
}

/// The node calls for a product, element by element.
pub open spec fn multiplies(node: PyTorchGraphNode) -> bool {
    node.target@ == "aten.mul.Tensor"@ || node.target@ == "aten.mul"@
}

proof fn lemma_sum_is_no_product(node: PyTorchGraphNode)
    ensures
        !(adds(node) && multiplies(node)),
{
    reveal_strlit("aten.add.Tensor");
    reveal_strlit("aten.add");
    reveal_strlit("aten.mul.Tensor");
    reveal_strlit("aten.mul");
    assert("aten.add.Tensor"@[5] == 'a' && "aten.add"@[5] == 'a');
    assert("aten.mul.Tensor"@[5] == 'm' && "aten.mul"@[5] == 'm');
}

/// Sums and products of two tensors are taken element by element; the tensors have to have
/// the same dimensions, and nothing else is asked.
pub proof fn law_tensors_are_combined_element_by_element(
    p: ProgramView,
    nodes: Seq<PyTorchGraphNode>,
    node: PyTorchGraphNode,
    x: usize,
    y: usize,
    m: Arithmetic,
)
    requires
        p.steps.len() < usize::MAX,
        adds(node) || multiplies(node),
        names_tensor(p, node, 0, x),
        names_tensor(p, node, 1, y),
    ensures
        p.dims(x) == p.dims(y) && adds(node) ==> makes(
            p,
            call_made(p, nodes, node),
            m,
            p.dims(x),
            |idx: Seq<int>|
                (m.plus)(element(p.steps, x as int, m, idx), element(p.steps, y as int, m, idx)),
        ),
        p.dims(x) == p.dims(y) && multiplies(node) ==> makes(
            p,
            call_made(p, nodes, node),
            m,
            p.dims(x),
            |idx: Seq<int>|
                (m.times)(element(p.steps, x as int, m, idx), element(p.steps, y as int, m, idx)),
        ),
        p.dims(x) != p.dims(y) ==> call_made(
            p,
            nodes,
            node,
        ) == Err::<(ProgramView, Option<usize>), TorchError>(TorchError::DimsMismatch),
{
    lemma_calls(p, nodes, node);
    if p.dims(x) == p.dims(y) {
        let (q, made) = call_made(p, nodes, node)->Ok_0;
        assert(extends(p.steps, q.steps));
        let id = p.steps.len() as int;
        assert forall|idx: Seq<int>| #[trigger] element(q.steps, id, m, idx) == if adds(node) {
            (m.plus)(element(p.steps, x as int, m, idx), element(p.steps, y as int, m, idx))
        } else {
            (m.times)(element(p.steps, x as int, m, idx), element(p.steps, y as int, m, idx))
        } by {
            lemma_element_kept(p.steps, q.steps, x as int, m, idx);
            lemma_element_kept(p.steps, q.steps, y as int, m, idx);
        }
        lemma_sum_is_no_product(node);
    }
}

/// A tensor and a number are combined element by element, whichever comes first.
pub proof fn law_numbers_are_combined_with_every_element(
    p: ProgramView,
    nodes: Seq<PyTorchGraphNode>,
    node: PyTorchGraphNode,
    x: usize,
    at: int,
    bits: u32,
    m: Arithmetic,
)
    requires
        p.steps.len() < usize::MAX,
        adds(node) || multiplies(node),
        at == 0 || at == 1,
        node.args@.len() >= 2,
        names_tensor(p, node, at, x),
        !p.names.contains_key(node.args@[1 - at].text@),
        node.args@[1 - at].number == Some(bits),
    ensures
        adds(node) ==> makes(
            p,
            call_made(p, nodes, node),
            m,
            p.dims(x),
            |idx: Seq<int>| (m.plus)(element(p.steps, x as int, m, idx), (m.scalar)(bits)),
        ),
        multiplies(node) ==> makes(
            p,
            call_made(p, nodes, node),
            m,
            p.dims(x),
            |idx: Seq<int>| (m.times)(element(p.steps, x as int, m, idx), (m.scalar)(bits)),
        ),
{
    lemma_calls(p, nodes, node);
    let (q, made) = call_made(p, nodes, node)->Ok_0;
    let id = p.steps.len() as int;
    assert forall|idx: Seq<int>| #[trigger] element(q.steps, id, m, idx) == if adds(node) {
        (m.plus)(element(p.steps, x as int, m, idx), (m.scalar)(bits))
    } else {
        (m.times)(element(p.steps, x as int, m, idx), (m.scalar)(bits))
    } by {
        lemma_element_kept(p.steps, q.steps, x as int, m, idx);
    }
    lemma_sum_is_no_product(node);
}

/// The row of a tensor along its last axis, at a place of the axes before.
pub open spec fn row(g: Seq<StepView>, x: usize, m: Arithmetic, front: Seq<int>, n: nat) -> Seq<
    int,
> {
    Seq::new(n, |c: int| element(g, x as int, m, front.push(c)))
}

proof fn lemma_row(
    g: Seq<StepView>,
    h: Seq<StepView>,
    x: usize,
    m: Arithmetic,
    front: Seq<int>,
    n: nat,
)
    requires
        x < g.len(),
        extends(g, h),
    ensures
        line(h, x as int, m, front, Seq::empty(), n) == row(g, x, m, front, n),
{
    lemma_line(h, x as int, m, front, Seq::empty(), n);
    let (a, b) = (line(h, x as int, m, front, Seq::empty(), n), row(g, x, m, front, n));
    assert forall|k: int| 0 <= k < n implies #[trigger] a[k] == b[k] by {
        assert(front.push(k) + Seq::empty() =~= front.push(k));
        lemma_element_kept(g, h, x as int, m, front.push(k));
    }
    assert(a =~= b);
}

/// How well a key suits a query, at a place of the tensor of scores: the product of the two
/// rows, divided by the square root of how long they are.
pub open spec fn score(
    p: ProgramView,
    m: Arithmetic,
    query: usize,
    key: usize,
    at: Seq<int>,
) -> int {
    let d = p.dims(query).last();
    let batch = if p.dims(key).len() == 2 {
        Seq::empty()
    } else {
        at.take(at.len() - 2)
    };
    (m.times)(
        (m.dot)(
            row(p.steps, query, m, at.drop_last(), d as nat),
            row(p.steps, key, m, batch.push(at.last()), d as nat),
        ),
        (m.inverse_root)(d as int),
    )
}

/// How much of a key's value a query takes: the scores of a line, put to softmax.
pub open spec fn heed(
    p: ProgramView,
    m: Arithmetic,
    query: usize,
    key: usize,
    at: Seq<int>,
) -> int {
    let axis = p.dims(key).len() - 1;
    let dims = p.dims(query).drop_last().push(p.dims(key)[p.dims(key).len() - 2]);
    (m.softmax)(
        Seq::new(
            dims[axis] as nat,
            |j: int| score(p, m, query, key, at.update(axis, j)),
        ),
        at[axis],
    )
}

/// What a query takes of all values: the sum over the keys of how much it heeds the key times
/// the key's value.
pub open spec fn attended(
    p: ProgramView,
    m: Arithmetic,
    query: usize,
    key: usize,
    value: usize,
    idx: Seq<int>,
) -> int {
    let keys = p.dims(key)[p.dims(key).len() - 2] as nat;
    let batch = if p.dims(value).len() == 2 {
        Seq::empty()
    } else {
        idx.take(idx.len() - 2)
    };
    (m.dot)(
        Seq::new(keys, |j: int| heed(p, m, query, key, idx.drop_last().push(j))),
        Seq::new(
            keys,
            |j: int| element(p.steps, value as int, m, batch.push(j).push(idx.last())),
        ),
    )
}

/// Queries, keys and values go together: the rows of keys are as long as those of queries,
/// there is a value for each key, and along the axes before, keys and values have what the
/// queries have, or nothing.
pub open spec fn attention_fits(
    p: ProgramView,
    query: usize,
    key: usize,
    value: usize,
) -> bool {
    let (a, b, c) = (p.dims(query), p.dims(key), p.dims(value));
    &&& 2 <= b.len() <= a.len() <= usize::MAX
    &&& 2 <= c.len()
    &&& a.last() == b.last()
    &&& c[c.len() - 2] == b[b.len() - 2]
    &&& b.len() == 2 || (b.len() == a.len() && forall|q: int| 0 <= q < a.len() - 2 ==> a[q] == b[q])
    &&& c.len() == 2 || (c.len() == a.len() && forall|q: int| 0 <= q < a.len() - 2 ==> a[q] == c[q])
}

/// Attention gives, at each place, the sum over the keys of how much the query heeds the key
/// times the key's value. Scores are divided by the square root of the length of the query's
/// rows.
#[verifier::rlimit(50)]
pub proof fn law_attention(
    p: ProgramView,
    nodes: Seq<PyTorchGraphNode>,
    node: PyTorchGraphNode,
    query: usize,
    key: usize,
    value: usize,
    m: Arithmetic,
)
    requires
        p.steps.len() + 5 <= usize::MAX,
        node.target@ == "aten.scaled_dot_product_attention.default"@,
        names_tensor(p, node, 0, query),
        names_tensor(p, node, 1, key),
        names_tensor(p, node, 2, value),
        attention_fits(p, query, key, value),
    ensures
        makes(
            p,
            call_made(p, nodes, node),
            m,
            p.dims(query).drop_last().push(p.dims(value).last()),
            |idx: Seq<int>| attended(p, m, query, key, value, idx),
        ),
{
    lemma_calls(p, nodes, node);
    let (a, b, c) = (p.dims(query), p.dims(key), p.dims(value));
    let n = a.len() as int;
    let k = b.len() as int;
    let s = p.steps.len() as int;
    let turned = swapped_dims(b, k - 2, k - 1);
    let p1 = p.with_step(
        TorchOp::Transpose { input: key, dim0: (k - 2) as usize, dim1: (k - 1) as usize },
        turned,
    );
    assert(turned[k - 2] == b[k - 1] && turned[k - 1] == b[k - 2]);
    assert(p1.dims(query) == a && p1.dims(p.next()) == turned);
    assert(k > 2 ==> a.take(n - 2) =~= turned.take(k - 2));
    let scores = a.drop_last().push(b[k - 2]);
    assert(matmul_dims(a, turned) == Some(scores));
    let (p2, _) = matmul_made(p1, query, p.next())->Ok_0;
    assert(p2.dims(p1.next()) == scores);
    let p3 = p2.with_step(TorchOp::ScaleByRoot { input: p1.next(), size: a.last() }, scores);
    let p4 = p3.with_step(TorchOp::Softmax { input: p2.next(), axis: (k - 1) as usize }, scores);
    assert(p4.dims(p3.next()) == scores && p4.dims(value) == c);
    assert(c.len() > 2 ==> scores.take(n - 2) =~= c.take(n - 2));
    let out = a.drop_last().push(c.last());
    assert(scores.drop_last().push(c.last()) =~= out);
    assert(matmul_dims(scores, c) == Some(out));
    let (q, made) = call_made(p, nodes, node)->Ok_0;
    assert(made == Some((s + 4) as usize));
    assert(extends(p.steps, q.steps));
    assert(q.steps[s] == p1.steps[s]);
    assert(q.steps[s + 1] == p2.steps[s + 1]);
    assert(q.steps[s + 2] == p3.steps[s + 2]);
    assert(q.steps[s + 3] == p4.steps[s + 3]);
    assert forall|idx: Seq<int>| inside(idx, out) implies #[trigger] element(
        q.steps,
        s + 4,
        m,
        idx,
    ) == attended(p, m, query, key, value, idx) by {
        let keys = b[k - 2] as nat;
        let front = idx.drop_last();
        let batch = if c.len() == 2 {
            Seq::empty()
        } else {
            front.drop_last()
        };
        assert(front.drop_last() =~= idx.take(idx.len() - 2));
        let (l1, l2) = (
            line(q.steps, s + 3, m, front, Seq::empty(), keys),
            line(q.steps, value as int, m, batch, seq![idx.last()], keys),
        );
        assert(element(q.steps, s + 4, m, idx) == (m.dot)(l1, l2));
        lemma_line(q.steps, s + 3, m, front, Seq::empty(), keys);
        lemma_line(q.steps, value as int, m, batch, seq![idx.last()], keys);
        let r1 = Seq::new(keys, |j: int| heed(p, m, query, key, front.push(j)));
        let r2 = Seq::new(
            keys,
            |j: int| element(p.steps, value as int, m, batch.push(j).push(idx.last())),
        );
        assert forall|j: int| 0 <= j < keys implies #[trigger] l1[j] == r1[j] by {
            let at = front.push(j);
            assert(at + Seq::empty() =~= at);
            lemma_heed(p, q.steps, query, key, m, at);
        }
        assert forall|j: int| 0 <= j < keys implies #[trigger] l2[j] == r2[j] by {
            let at = batch.push(j).push(idx.last());
            assert(batch.push(j) + seq![idx.last()] =~= at);
            lemma_element_kept(p.steps, q.steps, value as int, m, at);
        }
        assert(l1 =~= r1);
        assert(l2 =~= r2);
    }
}

/// The first four steps of attention.
spec fn scoring(p: ProgramView, g: Seq<StepView>, query: usize, key: usize) -> bool {
    let s = p.steps.len() as int;
    let k = p.dims(key).len();
    let scores = p.dims(query).drop_last().push(p.dims(key)[k - 2]);
    &&& s + 4 <= g.len()
    &&& s + 4 <= usize::MAX
    &&& extends(p.steps, g)
    &&& g[s].op == TorchOp::Transpose {
        input: key,
        dim0: (k - 2) as usize,
        dim1: (k - 1) as usize,
    }
    &&& g[s].dims.len() == k
    &&& g[s + 1].op == TorchOp::Matmul { left: query, right: s as usize }
    &&& g[s + 2].op == TorchOp::ScaleByRoot { input: (s + 1) as usize, size: p.dims(query).last() }
    &&& g[s + 3].op == TorchOp::Softmax { input: (s + 2) as usize, axis: (k - 1) as usize }
    &&& g[s + 3].dims == scores
}

proof fn lemma_score(
    p: ProgramView,
    g: Seq<StepView>,
    query: usize,
    key: usize,
    m: Arithmetic,
    at: Seq<int>,
)
    requires
        scoring(p, g, query, key),
        query < p.steps.len(),
        key < p.steps.len(),
        2 <= p.dims(key).len() <= p.dims(query).len() == at.len(),
        p.dims(key).len() == 2 || p.dims(key).len() == at.len(),
        p.dims(key).len() <= usize::MAX,
    ensures
        element(g, p.steps.len() + 2int, m, at) == score(p, m, query, key, at),
{
    let s = p.steps.len() as int;
    let k = p.dims(key).len() as int;
    let d = p.dims(query).last() as nat;
    let front = at.drop_last();
    let batch = if k == 2 {
        Seq::empty()
    } else {
        front.drop_last()
    };
    assert(front.drop_last() =~= at.take(at.len() - 2));
    assert(g[query as int].dims == p.dims(query));
    let (l1, l2) = (
        line(g, query as int, m, front, Seq::empty(), d),
        line(g, s, m, batch, seq![at.last()], d),
    );
    assert(element(g, s + 1, m, at) == (m.dot)(l1, l2));
    lemma_row(p.steps, g, query, m, front, d);
    lemma_line(g, s, m, batch, seq![at.last()], d);
    let r2 = row(p.steps, key, m, batch.push(at.last()), d);
    assert forall|c: int| 0 <= c < d implies #[trigger] l2[c] == r2[c] by {
        let there = batch.push(c) + seq![at.last()];
        let here = batch.push(at.last()).push(c);
        assert(there.len() == k);
        assert(swapped(there, k - 2, k - 1) =~= here);
        lemma_element_kept(p.steps, g, key as int, m, here);
        assert(element(g, s, m, there) == element(g, key as int, m, here));
    }
    assert(l2 =~= r2);
    assert(element(g, s + 2, m, at) == (m.times)(
        element(g, s + 1, m, at),
        (m.inverse_root)(d as int),
    ));
}

proof fn lemma_heed(
    p: ProgramView,
    g: Seq<StepView>,
    query: usize,
    key: usize,
    m: Arithmetic,
    at: Seq<int>,
)
    requires
        scoring(p, g, query, key),
        query < p.steps.len(),
        key < p.steps.len(),
        2 <= p.dims(key).len() <= p.dims(query).len() == at.len(),
        p.dims(key).len() == 2 || p.dims(key).len() == at.len(),
        p.dims(key).len() <= usize::MAX,
    ensures
        element(g, p.steps.len() + 3int, m, at) == heed(p, m, query, key, at),
{
    let s = p.steps.len() as int;
    let axis = p.dims(key).len() - 1;
    let n = g[s + 3].dims[axis] as nat;
    let (before, after) = (at.take(axis), at.skip(axis + 1));
    let l = line(g, s + 2, m, before, after, n);
    assert(element(g, s + 3, m, at) == (m.softmax)(l, at[axis]));
    lemma_line(g, s + 2, m, before, after, n);
    let r = Seq::new(n, |j: int| score(p, m, query, key, at.update(axis, j)));
    assert forall|j: int| 0 <= j < n implies #[trigger] l[j] == r[j] by {
        let there = at.update(axis, j);
        assert(before.push(j) + after =~= there);
        lemma_score(p, g, query, key, m, there);
    }
    assert(l =~= r);
}

/// The result for one place along the first axis is that of the attention on what stands
/// there alone: how many there are does not matter.
#[verifier::rlimit(50)]
pub proof fn law_attention_of_a_batch_entry(
    p: ProgramView,
    node: PyTorchGraphNode,
    query: usize,
    key: usize,
    value: usize,
    r: ProgramView,
    single: PyTorchGraphNode,
    one_query: usize,
    one_key: usize,
    one_value: usize,
    nodes: Seq<PyTorchGraphNode>,
    m: Arithmetic,
    e: int,
    idx: Seq<int>,
)
    requires
        p.steps.len() + 5 <= usize::MAX,
        r.steps.len() + 5 <= usize::MAX,
        node.target@ == "aten.scaled_dot_product_attention.default"@,
        single.target@ == "aten.scaled_dot_product_attention.default"@,
        names_tensor(p, node, 0, query),
        names_tensor(p, node, 1, key),
        names_tensor(p, node, 2, value),
        names_tensor(r, single, 0, one_query),
        names_tensor(r, single, 1, one_key),
        names_tensor(r, single, 2, one_value),
        attention_fits(p, query, key, value),
        p.dims(query).len() >= 3,
        p.dims(key).len() == p.dims(query).len(),
        p.dims(value).len() == p.dims(query).len(),
        is_entry(p, query, r, one_query, m, e),
        is_entry(p, key, r, one_key, m, e),
        is_entry(p, value, r, one_value, m, e),
        inside(idx, p.dims(query).drop_last().push(p.dims(value).last())),
        idx[0] == e,
    ensures
        call_made(p, nodes, node) matches Ok((q, Some(id))) && (call_made(r, nodes, single) matches Ok(
            (one, Some(o)),
        ) && element(q.steps, id as int, m, idx) == element(
            one.steps,
            o as int,
            m,
            idx.drop_first(),
        )),
{
    let (a, b, c) = (p.dims(query), p.dims(key), p.dims(value));
    let (a1, b1, c1) = (r.dims(one_query), r.dims(one_key), r.dims(one_value));
    assert(attention_fits(r, one_query, one_key, one_value)) by {
        assert forall|q: int| 0 <= q < a1.len() - 2 implies a1[q] == b1[q] && a1[q] == c1[q] by {
            assert(a[q + 1] == b[q + 1] && a[q + 1] == c[q + 1]);
        }
    }
    law_attention(p, nodes, node, query, key, value, m);
    law_attention(r, nodes, single, one_query, one_key, one_value, m);
    lemma_entry_attended(p, query, key, value, r, one_query, one_key, one_value, m, e, idx);
    let out = a.drop_last().push(c.last());
    let out1 = a1.drop_last().push(c1.last());
    let here = idx.drop_first();
    assert(inside(here, out1)) by {
        assert forall|q: int| 0 <= q < out1.len() implies 0 <= #[trigger] here[q] < out1[q] by {
            assert(here[q] == idx[q + 1]);
            assert(out1[q] == out[q + 1]);
        }
    }
}

#[verifier::rlimit(50)]
proof fn lemma_entry_attended(
    p: ProgramView,
    query: usize,
    key: usize,
    value: usize,
    r: ProgramView,
    one_query: usize,
    one_key: usize,
    one_value: usize,
    m: Arithmetic,
    e: int,
    idx: Seq<int>,
)
    requires
        attention_fits(p, query, key, value),
        p.dims(query).len() >= 3,
        p.dims(key).len() == p.dims(query).len(),
        p.dims(value).len() == p.dims(query).len(),
        is_entry(p, query, r, one_query, m, e),
        is_entry(p, key, r, one_key, m, e),
        is_entry(p, value, r, one_value, m, e),
        inside(idx, p.dims(query).drop_last().push(p.dims(value).last())),
        idx[0] == e,
    ensures
        attended(p, m, query, key, value, idx) == attended(
            r,
            m,
            one_query,
            one_key,
            one_value,
            idx.drop_first(),
        ),
{
    let (a, b, c) = (p.dims(query), p.dims(key), p.dims(value));
    let (b1, c1) = (r.dims(one_key), r.dims(one_value));
    let n = a.len() as int;
    let out = a.drop_last().push(c.last());
    let here = idx.drop_first();
    let keys = b[n - 2] as nat;
    let front = idx.drop_last();
    let front1 = here.drop_last();
    assert(b1[b1.len() - 2] == b[n - 2]);
    let w = Seq::new(keys, |j: int| heed(p, m, query, key, front.push(j)));
    let w1 = Seq::new(keys, |j: int| heed(r, m, one_query, one_key, front1.push(j)));
    assert forall|j: int| 0 <= j < keys implies #[trigger] w[j] == w1[j] by {
        let at = front.push(j);
        assert(front1.push(j) =~= at.drop_first());
        assert forall|q: int| 0 <= q < n - 1 implies 0 <= #[trigger] at[q] < a[q] by {
            assert(at[q] == idx[q] && out[q] == a[q]);
        }
        lemma_entry_heed(p, query, key, r, one_query, one_key, m, e, at);
    }
    assert(w =~= w1);
    let v = idx.take(n - 2);
    let v1 = if c1.len() == 2 {
        Seq::empty()
    } else {
        here.take(here.len() - 2)
    };
    let x = Seq::new(
        keys,
        |j: int| element(p.steps, value as int, m, v.push(j).push(idx.last())),
    );
    let x1 = Seq::new(
        keys,
        |j: int| element(r.steps, one_value as int, m, v1.push(j).push(here.last())),
    );
    assert forall|j: int| 0 <= j < keys implies #[trigger] x[j] == x1[j] by {
        let at = v.push(j).push(idx.last());
        assert(at.drop_first() =~= v1.push(j).push(here.last()));
        assert(inside(at, c)) by {
            assert(idx[n - 1] == idx.last() && out[n - 1] == c.last());
            assert forall|q: int| 0 <= q < c.len() implies 0 <= #[trigger] at[q] < c[q] by {
                if q < n - 2 {
                    assert(at[q] == idx[q] && out[q] == a[q]);
                }
            }
        }
    }
    assert(x =~= x1);
}

#[verifier::rlimit(50)]
proof fn lemma_entry_heed(
    p: ProgramView,
    query: usize,
    key: usize,
    r: ProgramView,
    one_query: usize,
    one_key: usize,
    m: Arithmetic,
    e: int,
    at: Seq<int>,
)
    requires
        p.dims(query).len() >= 3,
        p.dims(key).len() == p.dims(query).len() == at.len(),
        is_entry(p, query, r, one_query, m, e),
        is_entry(p, key, r, one_key, m, e),
        p.dims(query).last() == p.dims(key).last(),
        forall|q: int| 0 <= q < at.len() - 2 ==> p.dims(query)[q] == p.dims(key)[q],
        at[0] == e,
        forall|q: int| 0 <= q < at.len() - 1 ==> 0 <= #[trigger] at[q] < p.dims(query)[q],
    ensures
        heed(p, m, query, key, at) == heed(r, m, one_query, one_key, at.drop_first()),
{
    let (a, b) = (p.dims(query), p.dims(key));
    let (a1, b1) = (r.dims(one_query), r.dims(one_key));
    let n = a.len() as int;
    let keys = b[n - 2] as nat;
    let at1 = at.drop_first();
    assert(a.drop_last().push(b[n - 2])[n - 1] == b[n - 2]);
    assert(a1.drop_last().push(b1[n - 3])[n - 2] == b1[n - 3]);
    assert(b1[n - 3] == b[n - 2]);
    let s = Seq::new(keys, |i: int| score(p, m, query, key, at.update(n - 1, i)));
    let s1 = Seq::new(keys, |i: int| score(r, m, one_query, one_key, at1.update(n - 2, i)));
    assert forall|i: int| 0 <= i < keys implies #[trigger] s[i] == s1[i] by {
        let there = at.update(n - 1, i);
        assert(at1.update(n - 2, i) =~= there.drop_first());
        assert forall|q: int| 0 <= q < n - 1 implies 0 <= #[trigger] there[q] < a[q] by {
            assert(there[q] == at[q]);
        }
        lemma_entry_score(p, query, key, r, one_query, one_key, m, e, there);
    }
    assert(s =~= s1);
    assert(at1[n - 2] == at[n - 1]);
}

/// A tensor is what stands at a place along the first axis of another.
pub open spec fn is_entry(
    p: ProgramView,
    x: usize,
    r: ProgramView,
    one: usize,
    m: Arithmetic,
    e: int,
) -> bool {
    &&& p.dims(x).len() >= 1
    &&& 0 <= e < p.dims(x)[0]
    &&& r.dims(one) == p.dims(x).drop_first()
    &&& forall|idx: Seq<int>|
        inside(idx, p.dims(x)) && idx[0] == e ==> #[trigger] element(p.steps, x as int, m, idx)
            == element(r.steps, one as int, m, idx.drop_first())
}

#[verifier::rlimit(50)]
proof fn lemma_entry_score(
    p: ProgramView,
    query: usize,
    key: usize,
    r: ProgramView,
    one_query: usize,
    one_key: usize,
    m: Arithmetic,
    e: int,
    at: Seq<int>,
)
    requires
        p.dims(query).len() >= 3,
        p.dims(key).len() == p.dims(query).len() == at.len(),
        is_entry(p, query, r, one_query, m, e),
        is_entry(p, key, r, one_key, m, e),
        p.dims(query).last() == p.dims(key).last(),
        forall|q: int| 0 <= q < at.len() - 2 ==> p.dims(query)[q] == p.dims(key)[q],
        at[0] == e,
        forall|q: int| 0 <= q < at.len() - 1 ==> 0 <= #[trigger] at[q] < p.dims(query)[q],
        0 <= at.last() < p.dims(key)[at.len() - 2],
    ensures
        score(p, m, query, key, at) == score(r, m, one_query, one_key, at.drop_first()),
{
    let (a, b) = (p.dims(query), p.dims(key));
    let n = a.len() as int;
    let d = a.last() as nat;
    let at1 = at.drop_first();
    assert(r.dims(one_query).last() == a.last());
    let (f, f1) = (at.drop_last(), at1.drop_last());
    let (q, q1) = (row(p.steps, query, m, f, d), row(r.steps, one_query, m, f1, d));
    assert forall|c: int| 0 <= c < d implies #[trigger] q[c] == q1[c] by {
        let x = f.push(c);
        assert(inside(x, a)) by {
            assert forall|i: int| 0 <= i < n implies 0 <= #[trigger] x[i] < a[i] by {
                if i < n - 1 {
                    assert(x[i] == at[i]);
                }
            }
        }
        assert(x.drop_first() =~= f1.push(c));
    }
    assert(q =~= q1);
    let g = at.take(n - 2).push(at.last());
    let g1 = if n == 3 {
        Seq::<int>::empty()
    } else {
        at1.take(n - 3)
    }.push(at1.last());
    let (k, k1) = (row(p.steps, key, m, g, d), row(r.steps, one_key, m, g1, d));
    assert forall|c: int| 0 <= c < d implies #[trigger] k[c] == k1[c] by {
        let x = g.push(c);
        assert(inside(x, b)) by {
            assert forall|i: int| 0 <= i < n implies 0 <= #[trigger] x[i] < b[i] by {
                if i < n - 2 {
                    assert(x[i] == at[i]);
                    assert(a[i] == b[i]);
                }
            }
        }
        assert(x.drop_first() =~= g1.push(c));
    }
    assert(k =~= k1);
}

/// A linear layer without bias: at each place, the product of the input's row there and the
/// row of the weight for the place along the last axis.
pub proof fn law_linear_layer(
    p: ProgramView,
    nodes: Seq<PyTorchGraphNode>,
    node: PyTorchGraphNode,
    x: usize,
    w: usize,
    m: Arithmetic,
)
    requires
        p.steps.len() + 4 <= usize::MAX,
        node.target@ == "aten.linear.default"@,
        names_tensor(p, node, 0, x),
        names_tensor(p, node, 1, w),
        node.args@.len() >= 3 ==> !p.names.contains_key(node.args@[2].text@),
        p.dims(w).len() == 2,
        p.dims(x).len() >= 1,
        p.dims(x).last() == p.dims(w)[1],
    ensures
        makes(
            p,
            call_made(p, nodes, node),
            m,
            p.dims(x).drop_last().push(p.dims(w)[0]),
            |idx: Seq<int>| rows_product(p, m, x, w, idx),
        ),
{
    lemma_calls(p, nodes, node);
    lemma_layer_product(p, m, x, w);
}

/// A linear layer with a bias adds, at each place, the bias at that place without the first
/// axis.
#[verifier::rlimit(50)]
pub proof fn law_linear_layer_with_bias(
    p: ProgramView,
    nodes: Seq<PyTorchGraphNode>,
    node: PyTorchGraphNode,
    x: usize,
    w: usize,
    b: usize,
    m: Arithmetic,
)
    requires
        p.steps.len() + 4 <= usize::MAX,
        node.target@ == "aten.linear.default"@,
        names_tensor(p, node, 0, x),
        names_tensor(p, node, 1, w),
        names_tensor(p, node, 2, b),
        p.dims(w).len() == 2,
        p.dims(x).len() >= 1,
        p.dims(x).last() == p.dims(w)[1],
        p.dims(b) == p.dims(x).drop_last().push(p.dims(w)[0]).drop_first(),
    ensures
        makes(
            p,
            call_made(p, nodes, node),
            m,
            p.dims(x).drop_last().push(p.dims(w)[0]),
            |idx: Seq<int>|
                (m.plus)(
                    rows_product(p, m, x, w, idx),
                    element(p.steps, b as int, m, idx.drop_first()),
                ),
        ),
{
    lemma_calls(p, nodes, node);
    let (p2, y) = lemma_layer_product(p, m, x, w);
    let out = p.dims(x).drop_last().push(p.dims(w)[0]);
    lemma_with_parameter(p2, false, y, b, m);
    let (q, made) = call_made(p, nodes, node)->Ok_0;
    let id = made->0 as int;
    assert forall|idx: Seq<int>| inside(idx, out) implies #[trigger] element(
        q.steps,
        id,
        m,
        idx,
    ) == (m.plus)(
        rows_product(p, m, x, w, idx),
        element(p.steps, b as int, m, idx.drop_first()),
    ) by {
        lemma_element_kept(p.steps, p2.steps, b as int, m, idx.drop_first());
        assert(element(p2.steps, y as int, m, idx) == rows_product(p, m, x, w, idx));
    }
}

/// The product of a row of one tensor and a row of a matrix.
pub open spec fn rows_product(
    p: ProgramView,
    m: Arithmetic,
    x: usize,
    w: usize,
    idx: Seq<int>,
) -> int {
    let n = p.dims(w)[1] as nat;
    (m.dot)(
        row(p.steps, x, m, idx.drop_last(), n),
        row(p.steps, w, m, seq![idx.last()], n),
    )
}

proof fn lemma_layer_product(p: ProgramView, m: Arithmetic, x: usize, w: usize) -> (r: (
    ProgramView,
    usize,
))
    requires
        p.steps.len() + 4 <= usize::MAX,
        x < p.steps.len(),
        w < p.steps.len(),
        p.dims(w).len() == 2,
        p.dims(x).len() >= 1,
        p.dims(x).last() == p.dims(w)[1],
    ensures
        ({
            let (q, id) = r;
            let p1 = p.with_step(
                TorchOp::Transpose { input: w, dim0: 1, dim1: 0 },
                seq![p.dims(w)[1], p.dims(w)[0]],
            );
            let out = p.dims(x).drop_last().push(p.dims(w)[0]);
            &&& matmul_made(p1, x, p.next()) == Ok::<(ProgramView, Option<usize>), TorchError>(
                (q, Some(id)),
            )
            &&& id == p.steps.len() + 1 == p1.next()
            &&& q.steps.len() == p.steps.len() + 2
            &&& extends(p.steps, q.steps)
            &&& q.names == p.names
            &&& q.outputs == p.outputs
            &&& q.dims(id) == out
            &&& forall|idx: Seq<int>|
                inside(idx, out) ==> #[trigger] element(q.steps, id as int, m, idx) == rows_product(
                    p,
                    m,
                    x,
                    w,
                    idx,
                )
        }),
{
    let s = p.steps.len() as int;
    let turned = seq![p.dims(w)[1], p.dims(w)[0]];
    let p1 = p.with_step(TorchOp::Transpose { input: w, dim0: 1, dim1: 0 }, turned);
    assert(p1.dims(x) == p.dims(x) && p1.dims(p.next()) == turned);
    let out = p.dims(x).drop_last().push(p.dims(w)[0]);
    assert(turned.last() == p.dims(w)[0]);
    let (q, _) = matmul_made(p1, x, p.next())->Ok_0;
    assert(q.steps[s] == p1.steps[s]);
    let n = p.dims(w)[1] as nat;
    assert forall|idx: Seq<int>| inside(idx, out) implies #[trigger] element(
        q.steps,
        s + 1,
        m,
        idx,
    ) == rows_product(p, m, x, w, idx) by {
        let front = idx.drop_last();
        let l2 = line(q.steps, s, m, Seq::empty(), seq![idx.last()], n);
        assert(q.steps[x as int] == p.steps[x as int]);
        assert(element(q.steps, s + 1, m, idx) == (m.dot)(
            line(q.steps, x as int, m, front, Seq::empty(), n),
            l2,
        ));
        lemma_row(p.steps, q.steps, x, m, front, n);
        lemma_line(q.steps, s, m, Seq::empty(), seq![idx.last()], n);
        let r2 = row(p.steps, w, m, seq![idx.last()], n);
        assert forall|c: int| 0 <= c < n implies #[trigger] l2[c] == r2[c] by {
            let there = Seq::empty().push(c) + seq![idx.last()];
            let here = seq![idx.last()].push(c);
            assert(swapped(there, 1, 0) =~= here);
            lemma_element_kept(p.steps, q.steps, w as int, m, here);
            assert(element(q.steps, s, m, there) == element(q.steps, w as int, m, here));
        }
        assert(l2 =~= r2);
    }
    (q, (s + 1) as usize)
}

/// A parameter is combined with what stands at every place of the first axis.
#[verifier::rlimit(50)]
proof fn lemma_with_parameter(
    p: ProgramView,
    mul: bool,
    x: usize,
    parameter: usize,
    m: Arithmetic,
)
    requires
        p.steps.len() + 2 <= usize::MAX,
        x < p.steps.len(),
        parameter < p.steps.len(),
        p.dims(x).len() >= 1,
        p.dims(parameter) == p.dims(x).drop_first(),
    ensures
        with_parameter(p, mul, x, parameter) matches Ok((q, Some(id))) && id == p.steps.len() + 1
            && q.steps.len() == p.steps.len() + 2 && extends(p.steps, q.steps) && q.names == p.names
            && q.outputs == p.outputs && q.dims(id) == p.dims(x) && forall|idx: Seq<int>|
            idx.len() == p.dims(x).len() ==> #[trigger] element(q.steps, id as int, m, idx) == if mul {
                (m.times)(
                    element(p.steps, x as int, m, idx),
                    element(p.steps, parameter as int, m, idx.drop_first()),
                )
            } else {
                (m.plus)(
                    element(p.steps, x as int, m, idx),
                    element(p.steps, parameter as int, m, idx.drop_first()),
                )
            },
{
    let s = p.steps.len() as int;
    let size = p.dims(x)[0];
    let wide = p.dims(parameter).insert(0, size);
    let p1 = p.with_step(TorchOp::ExpandDim { input: parameter, axis: 0, size }, wide);
    assert(wide =~= p.dims(x));
    assert(p1.dims(x) == p.dims(x) && p1.dims(p.next()) == wide);
    let (q, made) = with_parameter(p, mul, x, parameter)->Ok_0;
    assert(q.steps[s] == p1.steps[s]);
    assert forall|idx: Seq<int>| idx.len() == p.dims(x).len() implies #[trigger] element(
        q.steps,
        s + 1,
        m,
        idx,
    ) == if mul {
        (m.times)(
            element(p.steps, x as int, m, idx),
            element(p.steps, parameter as int, m, idx.drop_first()),
        )
    } else {
        (m.plus)(
            element(p.steps, x as int, m, idx),
            element(p.steps, parameter as int, m, idx.drop_first()),
        )
    } by {
        assert(idx.remove(0) =~= idx.drop_first());
        lemma_element_kept(p.steps, q.steps, x as int, m, idx);
        lemma_element_kept(p.steps, q.steps, parameter as int, m, idx.drop_first());
        assert(element(q.steps, s, m, idx) == element(
            q.steps,
            parameter as int,
            m,
            idx.drop_first(),
        ));
    }
}

/// Layer normalization: the rows along the last axis are normalized, and then weight and bias
/// are multiplied and added, each as far as there is one. The number that keeps divisors from
/// zero is the one given, and 0.00001 where none is.
#[verifier::rlimit(50)]
pub proof fn law_layer_norm(
    p: ProgramView,
    nodes: Seq<PyTorchGraphNode>,
    node: PyTorchGraphNode,
    x: usize,
    weight: Option<usize>,
    bias: Option<usize>,
    eps: Option<u32>,
    m: Arithmetic,
)
    requires
        p.steps.len() + 5 <= usize::MAX,
        node.target@ == "aten.layer_norm.default"@,
        names_tensor(p, node, 0, x),
        1 <= p.dims(x).len() <= usize::MAX,
        takes_parameter(p, node, 2, x, weight),
        takes_parameter(p, node, 3, x, bias),
        gives_eps(node.kwargs@, eps),
    ensures
        makes(
            p,
            call_made(p, nodes, node),
            m,
            p.dims(x),
            |idx: Seq<int>|
                {
                    let bits = match eps {
                        Some(bits) => bits,
                        None => 925_353_388u32,
                    };
                    let normed = (m.normed)(
                        row(p.steps, x, m, idx.drop_last(), p.dims(x).last() as nat),
                        bits,
                        idx.last(),
                    );
                    let scaled = match weight {
                        Some(w) => (m.times)(
                            normed,
                            element(p.steps, w as int, m, idx.drop_first()),
                        ),
                        None => normed,
                    };
                    match bias {
                        Some(b) => (m.plus)(
                            scaled,
                            element(p.steps, b as int, m, idx.drop_first()),
                        ),
                        None => scaled,
                    }
                },
        ),
{
    lemma_calls(p, nodes, node);
    reveal_strlit("eps");
    let args = node.args@;
    let dims = p.dims(x);
    let s = p.steps.len() as int;
    let axis = (dims.len() - 1) as usize;
    let bits = match eps {
        Some(bits) => bits,
        None => 925_353_388u32,
    };
    lemma_eps(node.kwargs@, eps);
    let p1 = p.with_step(TorchOp::LayerNorm { input: x, axis, eps_bits: bits }, dims);
    let normed = |idx: Seq<int>|
        (m.normed)(
            row(p.steps, x, m, idx.drop_last(), dims.last() as nat),
            bits,
            idx.last(),
        );
    assert forall|idx: Seq<int>| inside(idx, dims) implies #[trigger] element(
        p1.steps,
        s,
        m,
        idx,
    ) == normed(idx) by {
        let (before, after) = (idx.take(axis as int), idx.skip(axis + 1));
        assert(before =~= idx.drop_last() && after =~= Seq::empty());
        lemma_row(p.steps, p1.steps, x, m, before, dims.last() as nat);
        assert(element(p1.steps, s, m, idx) == (m.normed)(
            line(p1.steps, x as int, m, before, after, dims[axis as int] as nat),
            bits,
            idx[axis as int],
        ));
    }
    let scaled = |idx: Seq<int>|
        match weight {
            Some(w) => (m.times)(normed(idx), element(p.steps, w as int, m, idx.drop_first())),
            None => normed(idx),
        };
    let (p2, y) = match weight {
        Some(w) => {
            assert(p1.dims(w) == p.dims(w));
            lemma_with_parameter(p1, true, s as usize, w, m);
            let (p2, made) = with_parameter(p1, true, s as usize, w)->Ok_0;
            (p2, made->0)
        },
        None => (p1, s as usize),
    };
    assert(with_optional(p1, args, 2, true, p.next()) == Ok::<
        (ProgramView, Option<usize>),
        TorchError,
    >((p2, Some(y))));
    assert(extends(p.steps, p2.steps) && p2.dims(y) == dims && p2.names == p.names);
    assert forall|idx: Seq<int>| inside(idx, dims) implies #[trigger] element(
        p2.steps,
        y as int,
        m,
        idx,
    ) == scaled(idx) by {
        assert(element(p1.steps, s, m, idx) == normed(idx));
        if let Some(w) = weight {
            lemma_element_kept(p.steps, p1.steps, w as int, m, idx.drop_first());
        }
    }
    let (q, z) = match bias {
        Some(b) => {
            assert(p2.dims(b) == p.dims(b));
            lemma_with_parameter(p2, false, y, b, m);
            let (q, made) = with_parameter(p2, false, y, b)->Ok_0;
            (q, made->0)
        },
        None => (p2, y),
    };
    assert(call_made(p, nodes, node) == Ok::<(ProgramView, Option<usize>), TorchError>(
        (q, Some(z)),
    ));
    assert forall|idx: Seq<int>| inside(idx, dims) implies #[trigger] element(
        q.steps,
        z as int,
        m,
        idx,
    ) == match bias {
        Some(b) => (m.plus)(scaled(idx), element(p.steps, b as int, m, idx.drop_first())),
        None => scaled(idx),
    } by {
        assert(element(p2.steps, y as int, m, idx) == scaled(idx));
        if let Some(b) = bias {
            lemma_element_kept(p.steps, p2.steps, b as int, m, idx.drop_first());
        }
    }
}

/// The argument at a place names a parameter for tensor `x`, which has the tensor's dimensions
/// without the first; or there is none.
pub open spec fn takes_parameter(
    p: ProgramView,
    node: PyTorchGraphNode,
    at: int,
    x: usize,
    parameter: Option<usize>,
) -> bool {
    match parameter {
        Some(w) => names_tensor(p, node, at, w) && node.args@[at].text@ != "None"@ && p.dims(w)
            == p.dims(x).drop_first(),
        None => node.args@.len() <= at || node.args@[at].text@ == "None"@
            || !p.names.contains_key(node.args@[at].text@),
    }
}

/// The keywords give this number under "eps": the first of that name does, if it is a number.
pub open spec fn gives_eps(kwargs: Seq<Keyword>, eps: Option<u32>) -> bool {
    match eps {
        Some(bits) => exists|i: int|
            0 <= i < kwargs.len() && (#[trigger] kwargs[i]).key@ == "eps"@ && kwargs[i].value.number
                == Some(bits) && forall|j: int| 0 <= j < i ==> (#[trigger] kwargs[j]).key@ != "eps"@,
        None => forall|i: int| 0 <= i < kwargs.len() ==> (#[trigger] kwargs[i]).key@ != "eps"@,
    }
}

proof fn lemma_eps(kwargs: Seq<Keyword>, eps: Option<u32>)
    requires
        gives_eps(kwargs, eps),
    ensures
        eps matches Some(bits) ==> (keyword(kwargs, "eps"@) matches Some(a) && a.number == Some(
            bits,
        )),
        eps is None ==> keyword(kwargs, "eps"@) is None,
{
    match eps {
        Some(bits) => {
            let i = choose|i: int|
                0 <= i < kwargs.len() && (#[trigger] kwargs[i]).key@ == "eps"@
                    && kwargs[i].value.number == Some(bits) && forall|j: int|
                    0 <= j < i ==> (#[trigger] kwargs[j]).key@ != "eps"@;
            law_first_keyword_counts(kwargs, "eps"@, i);
        },
        None => {
            law_missing_keyword(kwargs, "eps"@);
        },
    }
}

/// Of keywords with the same name the first counts.
pub proof fn law_first_keyword_counts(kwargs: Seq<Keyword>, key: Seq<char>, i: int)
    requires
        0 <= i < kwargs.len(),
        kwargs[i].key@ == key,
        forall|j: int| 0 <= j < i ==> (#[trigger] kwargs[j]).key@ != key,
    ensures
        keyword(kwargs, key) == Some(kwargs[i].value),
{
    lemma_keyword_from(kwargs, key, 0, i);
}

/// A keyword that is not there has no value.
pub proof fn law_missing_keyword(kwargs: Seq<Keyword>, key: Seq<char>)
    requires
        forall|j: int| 0 <= j < kwargs.len() ==> (#[trigger] kwargs[j]).key@ != key,
    ensures
        keyword(kwargs, key) is None,
{
    lemma_keyword_from(kwargs, key, 0, kwargs.len() as int);
}

proof fn lemma_keyword_from(kwargs: Seq<Keyword>, key: Seq<char>, from: int, i: int)
    requires
        0 <= from <= i <= kwargs.len(),
        i < kwargs.len() ==> kwargs[i].key@ == key,
        forall|j: int| from <= j < i ==> (#[trigger] kwargs[j]).key@ != key,
    ensures
        keyword_from(kwargs, key, from) == if i < kwargs.len() {
            Some(i)
        } else {
            None
        },
    decreases i - from,
{
    if from < i {
        lemma_keyword_from(kwargs, key, from + 1, i);
    }
}

/// A new axis of size 1 changes no element; a negative number counts from behind the last.
pub proof fn law_unsqueeze_keeps_elements(
    p: ProgramView,
    nodes: Seq<PyTorchGraphNode>,
    node: PyTorchGraphNode,
    x: usize,
    d: i32,
    m: Arithmetic,
)
    requires
        p.steps.len() < usize::MAX,
        node.target@ == "aten.unsqueeze.default"@,
        names_tensor(p, node, 0, x),
        node.args@.len() >= 2,
        small_int(node.args@[1].text@) == Some(d),
        p.dims(x).len() < usize::MAX,
    ensures
        -p.dims(x).len() - 1 <= d <= p.dims(x).len() ==> ({
            let axis = if d >= 0 {
                d as int
            } else {
                p.dims(x).len() + 1 + d
            };
            makes(
                p,
                call_made(p, nodes, node),
                m,
                p.dims(x).insert(axis, 1),
                |idx: Seq<int>| element(p.steps, x as int, m, idx.remove(axis)),
            )
        }),
        !(-p.dims(x).len() - 1 <= d <= p.dims(x).len()) ==> call_made(p, nodes, node) is Err,
{
    lemma_calls(p, nodes, node);
    if -p.dims(x).len() - 1 <= d <= p.dims(x).len() {
        let axis = if d >= 0 {
            d as int
        } else {
            p.dims(x).len() + 1 + d
        };
        let (q, made) = call_made(p, nodes, node)->Ok_0;
        let id = p.steps.len() as int;
        assert forall|idx: Seq<int>| #[trigger] element(q.steps, id, m, idx) == element(
            p.steps,
            x as int,
            m,
            idx.remove(axis),
        ) by {
            lemma_element_kept(p.steps, q.steps, x as int, m, idx.remove(axis));
        }
    }
}

/// An axis of size 1 can be left out, and no other; the elements stay.
pub proof fn law_squeeze_keeps_elements(
    p: ProgramView,
    nodes: Seq<PyTorchGraphNode>,
    node: PyTorchGraphNode,
    x: usize,
    d: i32,
    m: Arithmetic,
)
    requires
        p.steps.len() < usize::MAX,
        node.target@ == "aten.squeeze.dim"@,
        names_tensor(p, node, 0, x),
        node.args@.len() >= 2,
        small_int(node.args@[1].text@) == Some(d),
        -p.dims(x).len() <= d < p.dims(x).len() <= usize::MAX,
    ensures
        ({
            let axis = if d >= 0 {
                d as int
            } else {
                p.dims(x).len() + d
            };
            if p.dims(x)[axis] == 1 {
                makes(
                    p,
                    call_made(p, nodes, node),
                    m,
                    p.dims(x).remove(axis),
                    |idx: Seq<int>| element(p.steps, x as int, m, idx.insert(axis, 0)),
                )
            } else {
                call_made(p, nodes, node) is Err
            }
        }),
{
    lemma_calls(p, nodes, node);
    let axis = if d >= 0 {
        d as int
    } else {
        p.dims(x).len() + d
    };
    if p.dims(x)[axis] == 1 {
        let (q, made) = call_made(p, nodes, node)->Ok_0;
        let id = p.steps.len() as int;
        assert forall|idx: Seq<int>| #[trigger] element(q.steps, id, m, idx) == element(
            p.steps,
            x as int,
            m,
            idx.insert(axis, 0),
        ) by {
            lemma_element_kept(p.steps, q.steps, x as int, m, idx.insert(axis, 0));
        }
    }
}

/// A range without start holds the whole numbers from 0 to before its end.
pub proof fn law_range(
    p: ProgramView,
    nodes: Seq<PyTorchGraphNode>,
    node: PyTorchGraphNode,
    end: usize,
    m: Arithmetic,
)
    requires
        p.steps.len() < usize::MAX,
        node.target@ == "aten.arange.default"@,
        node.args@.len() >= 1,
        size_value(node.args@[0].text@) == Some(end),
    ensures
        makes(
            p,
            call_made(p, nodes, node),
            m,
            seq![end],
            |idx: Seq<int>| (m.size)(idx[0]),
        ),
{
    lemma_calls(p, nodes, node);
}

/// A range from a start on holds the start plus 0, 1 and so on.
pub proof fn law_range_from(
    p: ProgramView,
    nodes: Seq<PyTorchGraphNode>,
    node: PyTorchGraphNode,
    start: u32,
    m: Arithmetic,
)
    requires
        p.steps.len() + 2 <= usize::MAX,
        node.target@ == "aten.arange.start"@,
        node.args@.len() >= 2,
        node.args@[0].number == Some(start),
        node.args@[1].number is Some,
    ensures
        makes(
            p,
            call_made(p, nodes, node),
            m,
            seq![node.length],
            |idx: Seq<int>| (m.plus)((m.size)(idx[0]), (m.scalar)(start)),
        ),
{
    lemma_calls(p, nodes, node);
    let (q, made) = call_made(p, nodes, node)->Ok_0;
    let s = p.steps.len() as int;
    assert(q.steps[s].op == TorchOp::Arange);
    assert forall|idx: Seq<int>| #[trigger] element(q.steps, s + 1, m, idx) == (m.plus)(
        (m.size)(idx[0]),
        (m.scalar)(start),
    ) by {
        assert(element(q.steps, s, m, idx) == (m.size)(idx[0]));
    }
}

/// A range with a step holds the start plus the step times 0, 1 and so on.
pub proof fn law_range_with_step(
    p: ProgramView,
    nodes: Seq<PyTorchGraphNode>,
    node: PyTorchGraphNode,
    start: u32,
    step: u32,
    m: Arithmetic,
)
    requires
        p.steps.len() + 3 <= usize::MAX,
        node.target@ == "aten.arange.start_step"@,
        node.args@.len() >= 3,
        node.args@[0].number == Some(start),
        node.args@[1].number is Some,
        node.args@[2].number == Some(step),
    ensures
        makes(
            p,
            call_made(p, nodes, node),
            m,
            seq![node.length],
            |idx: Seq<int>|
                (m.plus)((m.times)((m.size)(idx[0]), (m.scalar)(step)), (m.scalar)(start)),
        ),
{
    lemma_calls(p, nodes, node);
    let (q, made) = call_made(p, nodes, node)->Ok_0;
    let s = p.steps.len() as int;
    assert(q.steps[s].op == TorchOp::Arange);
    assert(q.steps[s + 1].op == TorchOp::MulScalar { input: s as usize, bits: step });
    assert forall|idx: Seq<int>| #[trigger] element(q.steps, s + 2, m, idx) == (m.plus)(
        (m.times)((m.size)(idx[0]), (m.scalar)(step)),
        (m.scalar)(start),
    ) by {
        assert(element(q.steps, s, m, idx) == (m.size)(idx[0]));
        assert(element(q.steps, s + 1, m, idx) == (m.times)((m.size)(idx[0]), (m.scalar)(step)));
    }
}

/// The activation is taken of every element, if it is asked for in the approximation by the
/// hyperbolic tangent; otherwise it is refused.
pub proof fn law_gelu(
    p: ProgramView,
    nodes: Seq<PyTorchGraphNode>,
    node: PyTorchGraphNode,
    x: usize,
    i: int,
    m: Arithmetic,
)
    requires
        p.steps.len() < usize::MAX,
        node.target@ == "aten.gelu.default"@,
        names_tensor(p, node, 0, x),
        0 <= i <= node.kwargs@.len(),
        i < node.kwargs@.len() ==> node.kwargs@[i].key@ == "approximate"@,
        forall|j: int| 0 <= j < i ==> (#[trigger] node.kwargs@[j]).key@ != "approximate"@,
    ensures
        i < node.kwargs@.len() && node.kwargs@[i].value.text@ == "tanh"@ ==> makes(
            p,
            call_made(p, nodes, node),
            m,
            p.dims(x),
            |idx: Seq<int>| (m.gelu)(element(p.steps, x as int, m, idx)),
        ),
        !(i < node.kwargs@.len() && node.kwargs@[i].value.text@ == "tanh"@) ==> call_made(
            p,
            nodes,
            node,
        ) == Err::<(ProgramView, Option<usize>), TorchError>(TorchError::ExactGelu),
{
    lemma_calls(p, nodes, node);
    if i < node.kwargs@.len() {
        law_first_keyword_counts(node.kwargs@, "approximate"@, i);
    } else {
        law_missing_keyword(node.kwargs@, "approximate"@);
    }
    if i < node.kwargs@.len() && node.kwargs@[i].value.text@ == "tanh"@ {
        let (q, made) = call_made(p, nodes, node)->Ok_0;
        let id = p.steps.len() as int;
        assert forall|idx: Seq<int>| #[trigger] element(q.steps, id, m, idx) == (m.gelu)(
            element(p.steps, x as int, m, idx),
        ) by {
            lemma_element_kept(p.steps, q.steps, x as int, m, idx);
        }
    }
}

/// Dropout, a fresh copy and a split give the tensor that they are given, and no step.
pub proof fn law_passed_through(
    p: ProgramView,
    nodes: Seq<PyTorchGraphNode>,
    node: PyTorchGraphNode,
    x: usize,
)
    requires
        names_tensor(p, node, 0, x),
        node.target@ == "aten.dropout.default"@ || node.target@ == "aten.lift_fresh_copy.default"@ || (
        node.target@ == "aten.split.Tensor"@ && node.args@.len() >= 2),
    ensures
        call_made(p, nodes, node) == Ok::<(ProgramView, Option<usize>), TorchError>((p, Some(x))),
{
    lemma_calls(p, nodes, node);
}

/// The number of elements that dimensions ask for, but for one that is to be inferred.
pub open spec fn asked_for(target: Seq<i32>) -> int
    decreases target.len(),
{
    if target.len() == 0 {
        1
    } else {
        asked_for(target.drop_last()) * if target.last() == -1 {
            1
        } else {
            target.last() as int
        }
    }
}

/// A view has the dimensions that are asked for. Where one is -1, it is what the others leave
/// of the number of elements. The numbers stay, in the order in which they are stored.
#[verifier::rlimit(50)]
pub proof fn law_view(
    p: ProgramView,
    nodes: Seq<PyTorchGraphNode>,
    node: PyTorchGraphNode,
    x: usize,
    target: Seq<i32>,
    inferred: int,
    m: Arithmetic,
)
    requires
        p.steps.len() < usize::MAX,
        node.target@ == "aten.view.default"@,
        names_tensor(p, node, 0, x),
        target.len() >= 1,
        node.args@.len() == target.len() + 1,
        forall|i: int|
            0 <= i < target.len() ==> small_int((#[trigger] node.args@[i + 1]).text@) == Some(
                target[i],
            ),
        0 <= inferred <= target.len(),
        forall|i: int|
            0 <= i < target.len() ==> if i == inferred {
                #[trigger] target[i] == -1
            } else {
                target[i] > 0
            },
        asked_for(target) <= usize::MAX,
        product_fits(p.dims(x)),
        inferred < target.len() ==> product(p.dims(x)) % asked_for(target) == 0,
    ensures
        call_made(p, nodes, node) matches Ok((q, Some(id))) && extends(p.steps, q.steps) && q.names
            == p.names && id < q.steps.len() && q.dims(id).len() == target.len() && (forall|i: int|
            0 <= i < target.len() && i != inferred ==> #[trigger] q.dims(id)[i] == target[i]) && (inferred
            < target.len() ==> q.dims(id)[inferred] * asked_for(target) == product(p.dims(x)))
            && torch_data::data(q.steps, id as int, m) == torch_data::data(p.steps, x as int, m) && (
        forall|idx: Seq<int>|
            inside(idx, q.dims(id)) ==> #[trigger] element(q.steps, id as int, m, idx) == stored(
                p.steps,
                x as int,
                m,
                flat(idx, q.dims(id)),
            )),
{
    lemma_calls(p, nodes, node);
    lemma_wanted(node.args@, target, target.len() as int);
    assert(target.take(target.len() as int) =~= target);
    lemma_asked_for(target, inferred, target.len() as int);
    let known = asked_for(target);
    let total = product(p.dims(x));
    assert(p.dims(x).take(p.dims(x).len() as int) =~= p.dims(x));
    let (q, made) = call_made(p, nodes, node)->Ok_0;
    let id = p.steps.len() as int;
    let dims = q.dims(id as usize);
    if inferred < target.len() {
        vstd::arithmetic::div_mod::lemma_fundamental_div_mod(total, known);
        torch_data::lemma_product_not_negative(p.dims(x));
        vstd::arithmetic::div_mod::lemma_div_pos_is_pos(total, known);
        vstd::arithmetic::div_mod::lemma_div_is_ordered_by_denominator(total, 1, known);
        assert(dims[inferred] == total / known);
        assert(known * (total / known) == (total / known) * known) by (nonlinear_arith);
    }
    lemma_seen_again(p.steps, q.steps, x, id, m);
}

/// What shows a tensor with other dimensions has its data.
proof fn lemma_seen_again(
    g: Seq<StepView>,
    h: Seq<StepView>,
    x: usize,
    id: int,
    m: Arithmetic,
)
    requires
        x < g.len() <= id < h.len(),
        extends(g, h),
        h[id].op == (TorchOp::Reinterpret { input: x }),
    ensures
        torch_data::data(h, id, m) == torch_data::data(g, x as int, m),
        forall|idx: Seq<int>| #[trigger]
            element(h, id, m, idx) == stored(g, x as int, m, flat(idx, h[id].dims)),
{
    lemma_data_kept(g, h, x as int, m);
    assert(seen_in(h[id].op) == Some(x));
    assert(torch_data::stored_len(h, id) == torch_data::stored_len(h, x as int));
    let (a, b) = (torch_data::data(h, id, m), torch_data::data(h, x as int, m));
    assert forall|k: int| 0 <= k < a.len() implies #[trigger] a[k] == b[k] by {
        assert(stored(h, id, m, k) == stored(h, x as int, m, k));
    }
    assert(a =~= b);
    assert forall|idx: Seq<int>| #[trigger] element(h, id, m, idx) == stored(
        g,
        x as int,
        m,
        flat(idx, h[id].dims),
    ) by {
        lemma_stored_kept(g, h, x as int, m, flat(idx, h[id].dims));
    }
}

proof fn lemma_wanted(args: Seq<Arg>, target: Seq<i32>, n: int)
    requires
        0 <= n <= target.len(),
        args.len() == target.len() + 1,
        forall|i: int|
            0 <= i < target.len() ==> small_int((#[trigger] args[i + 1]).text@) == Some(target[i]),
    ensures
        wanted_dims(args, n + 1) == Ok::<Seq<i32>, TorchError>(target.take(n)),
    decreases n,
{
    if n == 0 {
        assert(target.take(0) =~= Seq::empty());
    } else {
        lemma_wanted(args, target, n - 1);
        assert(small_int(args[n - 1 + 1].text@) == Some(target[n - 1]));
        assert(target.take(n) =~= target.take(n - 1).push(target[n - 1]));
    }
}

proof fn lemma_asked_for(target: Seq<i32>, inferred: int, n: int)
    requires
        0 <= n <= target.len(),
        0 <= inferred <= target.len(),
        forall|i: int|
            0 <= i < target.len() ==> if i == inferred {
                #[trigger] target[i] == -1
            } else {
                target[i] > 0
            },
        asked_for(target.take(n)) <= usize::MAX,
    ensures
        asked_for(target.take(n)) >= 1,
        view_scan(target, n) == Ok::<(Option<int>, int), TorchError>(
            (
                if inferred < n {
                    Some(inferred)
                } else {
                    None
                },
                asked_for(target.take(n)),
            ),
        ),
    decreases n,
{
    if n == 0 {
        assert(target.take(0) =~= Seq::<i32>::empty());
    } else {
        let t = target.take(n);
        assert(t.drop_last() =~= target.take(n - 1));
        assert(t.last() == target[n - 1]);
        let a = asked_for(target.take(n - 1));
        let d = target[n - 1] as int;
        lemma_asked_positive(target, inferred, n - 1);
        if n - 1 != inferred {
            assert(d >= 1);
            assert(a <= a * d && a * d >= 1) by (nonlinear_arith)
                requires
                    a >= 1,
                    d >= 1,
            ;
            assert(asked_for(t) == a * d);
        } else {
            assert(asked_for(t) == a * 1);
        }
        lemma_asked_for(target, inferred, n - 1);
    }
}

proof fn lemma_asked_positive(target: Seq<i32>, inferred: int, n: int)
    requires
        0 <= n <= target.len(),
        forall|i: int|
            0 <= i < target.len() ==> if i == inferred {
                #[trigger] target[i] == -1
            } else {
                target[i] > 0
            },
    ensures
        asked_for(target.take(n)) >= 1,
    decreases n,
{
    if n > 0 {
        let t = target.take(n);
        lemma_asked_positive(target, inferred, n - 1);
        assert(t.drop_last() =~= target.take(n - 1));
        assert(t.last() == target[n - 1]);
        let a = asked_for(target.take(n - 1));
        let d = target[n - 1] as int;
        assert(n - 1 != inferred ==> d >= 1);
        assert(d >= 1 ==> a * d >= 1) by (nonlinear_arith)
            requires
                a >= 1,
        ;
    }
}

/// A call gives its node's name to the tensor that it makes, also where the name stood for
/// another; all other names stand for what they stood for.
pub proof fn law_call_names_its_result(
    p: ProgramView,
    nodes: Seq<PyTorchGraphNode>,
    node: PyTorchGraphNode,
    other: Seq<char>,
)
    requires
        node.op@ == "call_function"@,
    ensures
        call_made(p, nodes, node) matches Ok((q, Some(id))) ==> (node_made(p, nodes, node) matches Ok(
            r,
        ) && r.steps == q.steps && r.find(node.name@) == Some(id) && (other != node.name@ ==> r.find(
            other,
        ) == q.find(other))),
        call_made(p, nodes, node) matches Err(e) ==> node_made(p, nodes, node) == Err::<
            ProgramView,
            TorchError,
        >(e),
{
    reveal_strlit("call_function");
    reveal_strlit("placeholder");
    assert("call_function"@.len() == 13 && "placeholder"@.len() == 11);
}

/// Inputs and parameters are given tensors with their node's dimensions, if there are one to
/// four, and their node's name. Inputs of whole numbers are read as such.
pub proof fn law_given_tensors(
    p: ProgramView,
    nodes: Seq<PyTorchGraphNode>,
    node: PyTorchGraphNode,
    m: Arithmetic,
)
    requires
        p.steps.len() + 2 <= usize::MAX,
        node.op@ == "placeholder"@ || node.op@ == "get_attr"@,
    ensures
        node_made(p, nodes, node) matches Ok(q) && extends(p.steps, q.steps) && (q.find(
            node.name@,
        ) matches Some(id) && id < q.steps.len() && q.names == p.names.insert(node.name@, id)
            && q.steps[p.steps.len() as int].op == TorchOp::Input && (1 <= node.shape@.len() <= 4
            ==> q.dims(id) == node.shape@) && (!(1 <= node.shape@.len() <= 4) ==> q.dims(id) == seq![
            1usize,
        ]) && (forall|idx: Seq<int>|
            inside(idx, q.dims(id)) ==> #[trigger] element(q.steps, id as int, m, idx) == {
                let given = (m.given)(p.steps.len() as int, flat(idx, q.dims(id)));
                if node.op@ == "placeholder"@ && (crate::text::has_text(node.dtype@, "int"@)
                    || crate::text::has_text(node.dtype@, "long"@)) {
                    (m.whole)(given)
                } else {
                    given
                }
            })),
{
    reveal_strlit("call_function");
    reveal_strlit("placeholder");
    reveal_strlit("output");
    reveal_strlit("get_attr");
    assert("call_function"@.len() == 13 && "placeholder"@.len() == 11);
    assert("output"@.len() == 6 && "get_attr"@.len() == 8);
    let q = node_made(p, nodes, node)->Ok_0;
    let s = p.steps.len() as int;
    let id = q.names[node.name@];
    assert forall|idx: Seq<int>| inside(idx, q.dims(id)) implies #[trigger] element(
        q.steps,
        id as int,
        m,
        idx,
    ) == {
        let given = (m.given)(s, flat(idx, q.dims(id)));
        if node.op@ == "placeholder"@ && is_int_type(node.dtype@) {
            (m.whole)(given)
        } else {
            given
        }
    } by {
        assert(q.steps[s].op == TorchOp::Input);
        assert(element(q.steps, s, m, idx) == (m.given)(s, flat(idx, q.steps[s].dims)));
    }
}

/// The number that tensors are multiplied with to have them stored anew is 1, and the one that
/// keeps divisors from zero by default is 0.00001: sign, exponent and fraction of the two in
/// single precision.
pub proof fn law_numbers_by_their_bits()
    ensures
        ONE_BITS == 127 * 8_388_608,
        DEFAULT_EPS_BITS == 110 * 8_388_608 + 2_606_508,
{
}

/// Whole numbers are computed with exactly.
pub open spec fn counts_exactly(m: Arithmetic) -> bool {
    &&& forall|a: int, b: int| #[trigger] (m.plus)(a, b) == a + b
    &&& forall|a: int, b: int| #[trigger] (m.times)(a, b) == a * b
    &&& forall|n: int| #[trigger] (m.size)(n) == n
    &&& forall|n: int| #[trigger] (m.number)(n) == n
    &&& forall|n: int| #[trigger] (m.index)(n) == n
}

/// A tensor repeated along new first axes is the same at all their places.
proof fn lemma_expanded_front(p: ProgramView, id: usize, sizes: Seq<usize>, n: nat, m: Arithmetic)
    requires
        id < p.steps.len(),
        n <= sizes.len(),
        p.steps.len() + n <= usize::MAX,
    ensures
        ({
            let (q, last) = expanded_front(p, id, sizes, n);
            &&& q.steps.len() == p.steps.len() + n
            &&& extends(p.steps, q.steps)
            &&& q.names == p.names
            &&& q.outputs == p.outputs
            &&& last < q.steps.len()
            &&& q.dims(last) == sizes.take(n as int) + p.dims(id)
            &&& forall|idx: Seq<int>|
                idx.len() == n + p.dims(id).len() ==> #[trigger] element(
                    q.steps,
                    last as int,
                    m,
                    idx,
                ) == element(p.steps, id as int, m, idx.skip(n as int))
        }),
    decreases n,
{
    let (q, last) = expanded_front(p, id, sizes, n);
    if n == 0 {
        assert(sizes.take(0) + p.dims(id) =~= p.dims(id));
        assert forall|idx: Seq<int>| #[trigger] element(q.steps, last as int, m, idx) == element(
            p.steps,
            id as int,
            m,
            idx.skip(0),
        ) by {
            assert(idx.skip(0) =~= idx);
        }
    } else {
        lemma_expanded_front(p, id, sizes, (n - 1) as nat, m);
        let (q1, last1) = expanded_front(p, id, sizes, (n - 1) as nat);
        assert(q1.dims(last1).insert(n - 1, sizes[n - 1]) =~= sizes.take(n as int) + p.dims(id));
        assert forall|idx: Seq<int>| idx.len() == n + p.dims(id).len() implies #[trigger] element(
            q.steps,
            last as int,
            m,
            idx,
        ) == element(p.steps, id as int, m, idx.skip(n as int)) by {
            let less = idx.remove(n - 1);
            assert(less.skip(n - 1) =~= idx.skip(n as int));
            lemma_element_kept(q1.steps, q.steps, last1 as int, m, less);
            assert(element(q.steps, last as int, m, idx) == element(
                q.steps,
                last1 as int,
                m,
                less,
            ));
        }
    }
}

/// Where a row and a place in it are among numbers stored row by row.
#[verifier::rlimit(50)]
proof fn lemma_rows(p: ProgramView, table: usize, picks: usize, size: usize, m: Arithmetic)
    requires
        table < p.steps.len(),
        picks < p.steps.len(),
        p.steps.len() + p.dims(picks).len() + 5 <= usize::MAX,
        counts_exactly(m),
    ensures
        rows_made(p, table, picks, size) matches Ok((q, Some(id))) && id < q.steps.len()
            && q.steps.len() == p.steps.len() + p.dims(picks).len() + 5 && id == q.steps.len() - 1
            && extends(p.steps, q.steps) && q.names == p.names && q.outputs == p.outputs && q.dims(
            id,
        ) == p.dims(picks).push(size) && seen_in(q.steps[id as int].op) is None && forall|
            idx: Seq<int>,
        |
            idx.len() == p.dims(picks).len() + 1 ==> #[trigger] element(
                q.steps,
                id as int,
                m,
                idx,
            ) == element(
                p.steps,
                table as int,
                m,
                place(
                    element(p.steps, picks as int, m, idx.drop_last()) * size + idx.last(),
                    p.dims(table),
                ),
            ),
{
    let dims = p.dims(picks);
    let s = p.steps.len() as int;
    let p1 = p.with_step(TorchOp::MulSize { input: picks, size }, dims);
    let p2 = p1.with_step(
        TorchOp::ExpandDim { input: p.next(), axis: dims.len() as usize, size },
        dims.push(size),
    );
    let p3 = p2.with_step(TorchOp::Arange, seq![size]);
    lemma_expanded_front(p3, p2.next(), dims, dims.len(), m);
    let (p4, offset) = expanded_front(p3, p2.next(), dims, dims.len());
    assert(dims.take(dims.len() as int) + seq![size] =~= dims.push(size));
    assert(p4.steps[s + 1] == p3.steps[s + 1]);
    assert(p4.dims(p1.next()) == dims.push(size));
    assert(p3.dims(p2.next()) == seq![size]);
    let (p5, _) = binary(p4, false, p1.next(), offset)->Ok_0;
    let (q, made) = rows_made(p, table, picks, size)->Ok_0;
    let id = made->0 as int;
    let sum = id - 1;
    assert(q.steps[sum] == p5.steps[sum]);
    assert(q.steps[s] == p1.steps[s] && q.steps[s + 1] == p2.steps[s + 1]);
    assert(extends(p4.steps, q.steps) && extends(p.steps, q.steps));
    assert(q.steps[table as int] == p.steps[table as int]);
    assert forall|idx: Seq<int>| idx.len() == dims.len() + 1 implies #[trigger] element(
        q.steps,
        id,
        m,
        idx,
    ) == element(
        p.steps,
        table as int,
        m,
        place(
            element(p.steps, picks as int, m, idx.drop_last()) * size + idx.last(),
            p.dims(table),
        ),
    ) by {
        let front = idx.drop_last();
        assert(idx.remove(dims.len() as int) =~= front);
        let r = element(p.steps, picks as int, m, front);
        lemma_element_kept(p.steps, q.steps, picks as int, m, front);
        assert(element(q.steps, s, m, front) == r * size);
        assert(element(q.steps, s + 1, m, idx) == element(q.steps, s, m, front));
        lemma_element_kept(p4.steps, q.steps, offset as int, m, idx);
        let tail = idx.skip(dims.len() as int);
        assert(tail[0] == idx.last());
        assert(p3.steps[s + 2].op == TorchOp::Arange);
        assert(element(p3.steps, s + 2, m, tail) == idx.last());
        assert(element(p4.steps, offset as int, m, idx) == idx.last());
        assert(element(q.steps, sum, m, idx) == r * size + idx.last());
        let there = place(r * size + idx.last(), p.dims(table));
        lemma_element_kept(p.steps, q.steps, table as int, m, there);
        assert(element(q.steps, id, m, idx) == element(q.steps, table as int, m, there));
    }
}

/// An embedding gives for each index the row of the weight with that number.
#[verifier::rlimit(50)]
pub proof fn law_embedding_gives_rows(
    p: ProgramView,
    nodes: Seq<PyTorchGraphNode>,
    node: PyTorchGraphNode,
    weight: usize,
    indices: usize,
    m: Arithmetic,
)
    requires
        p.steps.len() + p.dims(indices).len() + 5 <= usize::MAX,
        node.target@ == "aten.embedding.default"@,
        names_tensor(p, node, 0, weight),
        names_tensor(p, node, 1, indices),
        p.dims(weight).len() == 2,
        counts_exactly(m),
        forall|idx: Seq<int>|
            inside(idx, p.dims(indices)) ==> 0 <= #[trigger] element(
                p.steps,
                indices as int,
                m,
                idx,
            ) < p.dims(weight)[0],
    ensures
        makes(
            p,
            call_made(p, nodes, node),
            m,
            p.dims(indices).push(p.dims(weight)[1]),
            |idx: Seq<int>|
                element(
                    p.steps,
                    weight as int,
                    m,
                    seq![element(p.steps, indices as int, m, idx.drop_last()), idx.last()],
                ),
        ),
{
    lemma_calls(p, nodes, node);
    let w = p.dims(weight);
    let dims = p.dims(indices);
    lemma_rows(p, weight, indices, w[1], m);
    let (q, made) = call_made(p, nodes, node)->Ok_0;
    let id = made->0 as int;
    let out = dims.push(w[1]);
    assert forall|idx: Seq<int>| inside(idx, out) implies #[trigger] element(
        q.steps,
        id,
        m,
        idx,
    ) == element(
        p.steps,
        weight as int,
        m,
        seq![element(p.steps, indices as int, m, idx.drop_last()), idx.last()],
    ) by {
        let front = idx.drop_last();
        assert(inside(front, dims)) by {
            assert forall|q: int| 0 <= q < dims.len() implies 0 <= #[trigger] front[q] < dims[q] by {
                assert(front[q] == idx[q] && out[q] == dims[q]);
            }
        }
        assert(idx[dims.len() as int] == idx.last() && out[dims.len() as int] == w[1]);
        let r = element(p.steps, indices as int, m, front);
        let at = seq![r, idx.last()];
        assert(inside(at, w));
        lemma_flat(at, w);
        lemma_flat_of_two(at, w);
    }
}

proof fn lemma_flat_of_two(at: Seq<int>, w: Seq<usize>)
    requires
        at.len() == 2,
        w.len() == 2,
    ensures
        flat(at, w) == at[0] * w[1] + at[1],
{
    let (a1, w1) = (at.drop_last(), w.drop_last());
    let (a0, w0) = (a1.drop_last(), w1.drop_last());
    assert(flat(a0, w0) == 0);
    assert(flat(a1, w1) == 0 * w1.last() + a1.last());
}

/// The number of a place: that of its first coordinates, its coordinate along an axis and
/// that of its last coordinates, put together.
proof fn lemma_flat_split(idx: Seq<int>, dims: Seq<usize>, axis: int)
    requires
        idx.len() == dims.len(),
        0 <= axis < dims.len(),
    ensures
        flat(idx, dims) == (flat(idx.take(axis), dims.take(axis)) * dims[axis] + idx[axis])
            * product(dims.skip(axis + 1)) + flat(idx.skip(axis + 1), dims.skip(axis + 1)),
    decreases dims.len(),
{
    let n = dims.len() as int;
    if axis == n - 1 {
        assert(dims.skip(n) =~= Seq::<usize>::empty());
        assert(dims.take(axis) =~= dims.drop_last());
        assert(idx.take(axis) =~= idx.drop_last());
        let a = flat(idx.take(axis), dims.take(axis)) * dims[axis] + idx[axis];
        assert(a * 1 == a);
    } else {
        let (i1, d1) = (idx.drop_last(), dims.drop_last());
        lemma_flat_split(i1, d1, axis);
        assert(i1.take(axis) =~= idx.take(axis));
        assert(d1.take(axis) =~= dims.take(axis));
        let (i2, d2) = (idx.skip(axis + 1), dims.skip(axis + 1));
        assert(i2.drop_last() =~= i1.skip(axis + 1));
        assert(d2.drop_last() =~= d1.skip(axis + 1));
        let a = flat(idx.take(axis), dims.take(axis)) * dims[axis] + idx[axis];
        let b = product(d2.drop_last());
        let c = flat(i2.drop_last(), d2.drop_last());
        let l = dims.last() as int;
        assert(d2.last() == dims.last() && i2.last() == idx.last());
        assert((a * b + c) * l + idx.last() == a * (b * l) + (c * l + idx.last()))
            by (nonlinear_arith);
    }
}

/// Picking along an axis, once there is one index for every place before it.
#[verifier::rlimit(50)]
proof fn lemma_picked(
    p: ProgramView,
    input: usize,
    axis: usize,
    indices: usize,
    pick: spec_fn(int) -> int,
    m: Arithmetic,
)
    requires
        p.steps.len() + p.dims(indices).len() + 20 <= usize::MAX,
        input < p.steps.len(),
        axis < p.dims(input).len(),
        size_of_dims(p.dims(input).skip(axis + 1)) is Some,
        size_of_dims(p.dims(input).take(axis as int)) matches Some(prefix) && prefix
            * p.dims(input)[axis as int] <= usize::MAX,
        counts_exactly(m),
        forall|r: int|
            0 <= r < size_of_dims(p.dims(input).take(axis as int))->0 ==> 0 <= #[trigger] pick(r)
                < p.dims(input)[axis as int],
        ({
            let dims = p.dims(input);
            let prefix = size_of_dims(dims.take(axis as int))->0;
            let suffix = size_of_dims(dims.skip(axis + 1))->0;
            let p1 = p.with_step(
                TorchOp::Reinterpret { input },
                seq![(prefix * dims[axis as int]) as usize, suffix],
            );
            spread_indices(p1, indices, prefix) matches Ok((p2, Some(t))) && extends(
                p1.steps,
                p2.steps,
            ) && p2.names == p1.names && p2.outputs == p1.outputs && t < p2.steps.len() && p2.steps.len()
                <= p1.steps.len() + p.dims(indices).len() + 3 && p2.dims(t) == seq![prefix]
                && forall|r: int|
                0 <= r < prefix ==> #[trigger] element(p2.steps, t as int, m, seq![r]) == pick(r)
        }),
    ensures
        makes(
            p,
            picked_made(p, input, axis, indices),
            m,
            p.dims(input).update(axis as int, 1),
            |idx: Seq<int>|
                stored(
                    p.steps,
                    input as int,
                    m,
                    flat(
                        idx.update(
                            axis as int,
                            pick(flat(idx.take(axis as int), p.dims(input).take(axis as int))),
                        ),
                        p.dims(input),
                    ),
                ),
        ),
{
    let dims = p.dims(input);
    let s = p.steps.len() as int;
    let prefix = size_of_dims(dims.take(axis as int))->0;
    let suffix = size_of_dims(dims.skip(axis + 1))->0;
    let indexed = dims[axis as int];
    let table_dims = seq![(prefix * indexed) as usize, suffix];
    let p1 = p.with_step(TorchOp::Reinterpret { input }, table_dims);
    let (p2, made) = spread_indices(p1, indices, prefix)->Ok_0;
    let t = made->0;
    let u = p2.steps.len() as int;
    let p3 = p2.with_step(TorchOp::Arange, seq![prefix]);
    let p4 = p3.with_step(
        TorchOp::MulNumber { input: p2.next(), number: indexed },
        seq![prefix],
    );
    assert(p4.dims(p3.next()) == p4.dims(t));
    let (p5, _) = binary(p4, false, p3.next(), t)->Ok_0;
    assert(p5.dims(p4.next()) == seq![prefix]);
    assert(p5.steps[s] == p1.steps[s]);
    assert(p5.dims(p.next()) == table_dims);
    lemma_rows(p5, p.next(), p4.next(), suffix, m);
    let (p6, made6) = rows_made(p5, p.next(), p4.next(), suffix)->Ok_0;
    let rows = made6->0;
    let out = dims.update(axis as int, 1);
    let (q, made_q) = picked_made(p, input, axis, indices)->Ok_0;
    let id = p6.steps.len() as int;
    assert(made_q == Some(id as usize));
    assert(extends(p.steps, q.steps));
    assert(seq![prefix].push(suffix) =~= seq![prefix, suffix]);
    lemma_picked_places(dims, axis, prefix, suffix);
    assert forall|idx: Seq<int>| inside(idx, out) implies #[trigger] element(
        q.steps,
        id,
        m,
        idx,
    ) == stored(
        p.steps,
        input as int,
        m,
        flat(
            idx.update(axis as int, pick(flat(idx.take(axis as int), dims.take(axis as int)))),
            dims,
        ),
    ) by {
        let r = flat(idx.take(axis as int), dims.take(axis as int));
        let j = flat(idx.skip(axis + 1), dims.skip(axis + 1));
        lemma_two_parts(idx, dims, axis, prefix, suffix);
        let k = flat(idx, out);
        assert(element(q.steps, id, m, idx) == stored(q.steps, rows as int, m, k));
        assert(q.steps[rows as int] == p6.steps[rows as int]);
        let at = seq![r, j];
        let two = seq![prefix, suffix];
        lemma_flat_of_two(at, two);
        assert(inside(at, two));
        lemma_flat(at, two);
        assert(place(k, two) == at);
        assert(stored(q.steps, rows as int, m, k) == element(q.steps, rows as int, m, at));
        lemma_element_kept(p6.steps, q.steps, rows as int, m, at);
        assert(at.drop_last() =~= seq![r]);
        assert(element(p5.steps, u + 2, m, seq![r]) == r * indexed + pick(r)) by {
            assert(p5.steps[u].op == TorchOp::Arange);
            assert(p5.steps[u + 1] == p4.steps[u + 1]);
            assert(element(p5.steps, u, m, seq![r]) == (m.size)(seq![r][0]));
            assert(element(p5.steps, u + 1, m, seq![r]) == (m.times)(
                element(p5.steps, u, m, seq![r]),
                (m.number)(indexed as int),
            ));
            lemma_element_kept(p2.steps, p5.steps, t as int, m, seq![r]);
        }
        let number = r * indexed + pick(r);
        assert(0 <= number < prefix * indexed) by (nonlinear_arith)
            requires
                0 <= r < prefix,
                0 <= pick(r) < indexed,
                number == r * indexed + pick(r),
        ;
        let there = seq![number, j];
        assert(inside(there, table_dims));
        lemma_flat_of_two(there, table_dims);
        lemma_flat(there, table_dims);
        assert(place(number * suffix + j, table_dims) == there);
        assert(element(p5.steps, s, m, there) == stored(
            p.steps,
            input as int,
            m,
            number * suffix + j,
        )) by {
            lemma_seen_again(p.steps, p5.steps, input, s, m);
        }
        let picked = idx.update(axis as int, pick(r));
        lemma_flat_split(picked, dims, axis as int);
        assert(picked.take(axis as int) =~= idx.take(axis as int));
        assert(picked.skip(axis + 1) =~= idx.skip(axis + 1));
        assert(suffix == product(dims.skip(axis + 1))) by {
            let d = dims.skip(axis + 1);
            assert(d.take(d.len() as int) =~= d);
        }
    }
}

#[verifier::rlimit(50)]
proof fn lemma_picked_places(
    dims: Seq<usize>,
    axis: usize,
    prefix: usize,
    suffix: usize,
)
    requires
        axis < dims.len(),
        size_of_dims(dims.take(axis as int)) == Some(prefix),
        size_of_dims(dims.skip(axis + 1)) == Some(suffix),
    ensures
        product(dims.take(axis as int)) == prefix,
        product(dims.skip(axis + 1)) == suffix,
{
    let (a, b) = (dims.take(axis as int), dims.skip(axis + 1));
    assert(a.take(a.len() as int) =~= a);
    assert(b.take(b.len() as int) =~= b);
    torch_data::lemma_product_not_negative(a);
    torch_data::lemma_product_not_negative(b);
}

/// A place in what was picked, as the number of what stands before the axis and after it.
proof fn lemma_two_parts(
    idx: Seq<int>,
    dims: Seq<usize>,
    axis: usize,
    prefix: usize,
    suffix: usize,
)
    requires
        axis < dims.len(),
        inside(idx, dims.update(axis as int, 1)),
        product(dims.take(axis as int)) == prefix,
        product(dims.skip(axis + 1)) == suffix,
    ensures
        0 <= flat(idx.take(axis as int), dims.take(axis as int)) < prefix,
        0 <= flat(idx.skip(axis + 1), dims.skip(axis + 1)) < suffix,
        flat(idx, dims.update(axis as int, 1)) == flat(
            idx.take(axis as int),
            dims.take(axis as int),
        ) * suffix + flat(idx.skip(axis + 1), dims.skip(axis + 1)),
{
    let out = dims.update(axis as int, 1);
    let (i1, i2) = (idx.take(axis as int), idx.skip(axis + 1));
    let (d1, d2) = (dims.take(axis as int), dims.skip(axis + 1));
    assert(out.take(axis as int) =~= d1 && out.skip(axis + 1) =~= d2);
    assert(inside(i1, d1)) by {
        assert forall|q: int| 0 <= q < d1.len() implies 0 <= #[trigger] i1[q] < d1[q] by {
            assert(i1[q] == idx[q] && out[q] == d1[q]);
        }
    }
    assert(inside(i2, d2)) by {
        assert forall|q: int| 0 <= q < d2.len() implies 0 <= #[trigger] i2[q] < d2[q] by {
            assert(i2[q] == idx[axis + 1 + q] && out[axis + 1 + q] == d2[q]);
        }
    }
    lemma_flat(i1, d1);
    lemma_flat(i2, d2);
    lemma_flat_split(idx, out, axis as int);
    assert(idx[axis as int] == 0) by {
        assert(out[axis as int] == 1);
    }
    let f = flat(i1, d1);
    assert((f * 1 + 0) * suffix == f * suffix) by (nonlinear_arith);
}

/// The node indexes tensor `x` along an axis by a tensor of whole numbers.
pub open spec fn indexes(
    p: ProgramView,
    node: PyTorchGraphNode,
    x: usize,
    axis: usize,
    indices: usize,
) -> bool {
    &&& node.target@ == "aten.index.Tensor"@
    &&& names_tensor(p, node, 0, x)
    &&& exists|i: int| #[trigger]
        first_of_name(node.kwargs@, "index_dim"@, i) && size_value(node.kwargs@[i].value.text@)
            == Some(axis)
    &&& exists|i: int| #[trigger]
        first_of_name(node.kwargs@, "index_tensor"@, i) && p.names.contains_key(
            node.kwargs@[i].value.text@,
        ) && p.names[node.kwargs@[i].value.text@] == indices
    &&& indices < p.steps.len()
    &&& axis < p.dims(x).len()
    &&& size_of_dims(p.dims(x).skip(axis + 1)) is Some
    &&& size_of_dims(p.dims(x).take(axis as int)) matches Some(prefix) && prefix
        * p.dims(x)[axis as int] <= usize::MAX
}

/// The keyword at a place is the first of its name.
pub open spec fn first_of_name(kwargs: Seq<Keyword>, key: Seq<char>, i: int) -> bool {
    0 <= i < kwargs.len() && kwargs[i].key@ == key && forall|j: int|
        0 <= j < i ==> (#[trigger] kwargs[j]).key@ != key
}

proof fn lemma_index_call(
    p: ProgramView,
    nodes: Seq<PyTorchGraphNode>,
    node: PyTorchGraphNode,
    x: usize,
    axis: usize,
    indices: usize,
)
    requires
        indexes(p, node, x, axis, indices),
    ensures
        call_made(p, nodes, node) == picked_made(p, x, axis, indices),
{
    lemma_calls(p, nodes, node);
    let i = choose|i: int| #[trigger]
        first_of_name(node.kwargs@, "index_dim"@, i) && size_value(node.kwargs@[i].value.text@)
            == Some(axis);
    law_first_keyword_counts(node.kwargs@, "index_dim"@, i);
    let j = choose|i: int| #[trigger]
        first_of_name(node.kwargs@, "index_tensor"@, i) && p.names.contains_key(
            node.kwargs@[i].value.text@,
        ) && p.names[node.kwargs@[i].value.text@] == indices;
    law_first_keyword_counts(node.kwargs@, "index_tensor"@, j);
}

/// Indexing by one number picks the same place along the axis for every place before and
/// after it.
#[verifier::rlimit(50)]
pub proof fn law_one_index_picks_everywhere(
    p: ProgramView,
    nodes: Seq<PyTorchGraphNode>,
    node: PyTorchGraphNode,
    x: usize,
    axis: usize,
    indices: usize,
    m: Arithmetic,
)
    requires
        p.steps.len() + p.dims(indices).len() + 20 <= usize::MAX,
        indexes(p, node, x, axis, indices),
        product(p.dims(indices)) == 1,
        counts_exactly(m),
        0 <= element(p.steps, indices as int, m, Seq::new(p.dims(indices).len(), |k: int| 0int))
            < p.dims(x)[axis as int],
    ensures
        makes(
            p,
            call_made(p, nodes, node),
            m,
            p.dims(x).update(axis as int, 1),
            |idx: Seq<int>|
                stored(
                    p.steps,
                    x as int,
                    m,
                    flat(
                        idx.update(
                            axis as int,
                            element(
                                p.steps,
                                indices as int,
                                m,
                                Seq::new(p.dims(indices).len(), |k: int| 0int),
                            ),
                        ),
                        p.dims(x),
                    ),
                ),
        ),
{
    lemma_index_call(p, nodes, node, x, axis, indices);
    let zeros = Seq::new(p.dims(indices).len(), |k: int| 0int);
    let picked = element(p.steps, indices as int, m, zeros);
    let pick = |r: int| picked;
    let dims = p.dims(x);
    let prefix = size_of_dims(dims.take(axis as int))->0;
    let suffix = size_of_dims(dims.skip(axis + 1))->0;
    let p1 = p.with_step(
        TorchOp::Reinterpret { input: x },
        seq![(prefix * dims[axis as int]) as usize, suffix],
    );
    law_one_index_is_repeated(p1, indices, prefix, m);
    lemma_element_kept(p.steps, p1.steps, indices as int, m, zeros);
    lemma_spread_outputs(p1, indices, prefix);
    lemma_picked(p, x, axis, indices, pick, m);
}

/// Spreading indices names no outputs.
proof fn lemma_spread_outputs(p: ProgramView, indices: usize, prefix: usize)
    ensures
        spread_indices(p, indices, prefix) matches Ok((q, _)) ==> q.outputs == p.outputs,
{
    if spread_indices(p, indices, prefix) is Ok {
        let (p1, idx) = if p.dims(indices).len() == 0 {
            (p.with_step(TorchOp::Unsqueeze { input: indices, axis: 0 }, seq![1usize]), p.next())
        } else {
            (p, indices)
        };
        let (p2, spread) = if prefix != 1 {
            (
                p1.with_step(
                    TorchOp::ExpandDim { input: idx, axis: 0, size: prefix },
                    p1.dims(idx).insert(0, prefix),
                ),
                p1.next(),
            )
        } else {
            (p1, idx)
        };
        lemma_dropped_outputs(p2, spread, (p2.dims(spread).len() - 1) as nat);
    }
}

proof fn lemma_dropped_outputs(p: ProgramView, id: usize, n: nat)
    ensures
        crate::torch::dropped_behind_first(p, id, n).0.outputs == p.outputs,
    decreases n,
{
    if n > 0 {
        lemma_dropped_outputs(p, id, (n - 1) as nat);
    }
}

/// Indexing with one number for each place before the axis picks, for each of them, the place
/// along the axis with its own number.
#[verifier::rlimit(50)]
pub proof fn law_each_place_picks_its_own(
    p: ProgramView,
    nodes: Seq<PyTorchGraphNode>,
    node: PyTorchGraphNode,
    x: usize,
    axis: usize,
    indices: usize,
    m: Arithmetic,
)
    requires
        p.steps.len() + p.dims(indices).len() + 20 <= usize::MAX,
        indexes(p, node, x, axis, indices),
        product(p.dims(x).take(axis as int)) != 1,
        p.dims(indices).len() == 1,
        p.dims(indices)[0] == product(p.dims(x).take(axis as int)),
        counts_exactly(m),
        forall|r: int|
            0 <= r < p.dims(indices)[0] ==> 0 <= #[trigger] element(
                p.steps,
                indices as int,
                m,
                seq![r],
            ) < p.dims(x)[axis as int],
    ensures
        makes(
            p,
            call_made(p, nodes, node),
            m,
            p.dims(x).update(axis as int, 1),
            |idx: Seq<int>|
                stored(
                    p.steps,
                    x as int,
                    m,
                    flat(
                        idx.update(
                            axis as int,
                            element(
                                p.steps,
                                indices as int,
                                m,
                                seq![flat(idx.take(axis as int), p.dims(x).take(axis as int))],
                            ),
                        ),
                        p.dims(x),
                    ),
                ),
        ),
{
    lemma_index_call(p, nodes, node, x, axis, indices);
    let pick = |r: int| element(p.steps, indices as int, m, seq![r]);
    let dims = p.dims(x);
    let prefix = size_of_dims(dims.take(axis as int))->0;
    let suffix = size_of_dims(dims.skip(axis + 1))->0;
    lemma_picked_places(dims, axis, prefix, suffix);
    let p1 = p.with_step(
        TorchOp::Reinterpret { input: x },
        seq![(prefix * dims[axis as int]) as usize, suffix],
    );
    let d = p1.dims(indices);
    assert(d == p.dims(indices));
    assert(d =~= seq![prefix]);
    assert(product(d) == prefix) by {
        assert(d.drop_last() =~= Seq::<usize>::empty());
        assert(product(d.drop_last()) == 1);
    }
    assert(product_fits(d)) by {
        assert(d.take(0) =~= Seq::<usize>::empty());
        assert(d.take(1) =~= d);
    }
    assert(spread_indices(p1, indices, prefix) == Ok::<(ProgramView, Option<usize>), TorchError>(
        (p1, Some(indices)),
    ));
    assert forall|r: int| 0 <= r < prefix implies #[trigger] element(
        p1.steps,
        indices as int,
        m,
        seq![r],
    ) == pick(r) by {
        lemma_element_kept(p.steps, p1.steps, indices as int, m, seq![r]);
    }
    lemma_picked(p, x, axis, indices, pick, m);
}

/// No name of this call's argument: the argument is not there, or nothing has its name.
pub open spec fn names_nothing(p: ProgramView, node: PyTorchGraphNode, at: int) -> bool {
    at >= node.args@.len() || !p.names.contains_key(node.args@[at].text@)
}

/// A call of a function without a tensor that it needs is refused, and so is a call of any
/// function but these.
pub proof fn law_calls_without_their_tensors_are_refused(
    p: ProgramView,
    nodes: Seq<PyTorchGraphNode>,
    node: PyTorchGraphNode,
)
    ensures
        (adds(node) || multiplies(node)) && (node.args@.len() < 2 || names_nothing(p, node, 0)
            && names_nothing(p, node, 1)) ==> call_made(p, nodes, node) is Err,
        node.target@ == "aten.linear.default"@ && (names_nothing(p, node, 0) || names_nothing(
            p,
            node,
            1,
        )) ==> call_made(p, nodes, node) is Err,
        node.target@ == "aten.scaled_dot_product_attention.default"@ && (names_nothing(p, node, 0)
            || names_nothing(p, node, 1) || names_nothing(p, node, 2)) ==> call_made(p, nodes, node) is Err,
        node.target@ == "aten.embedding.default"@ && (names_nothing(p, node, 0) || names_nothing(
            p,
            node,
            1,
        )) ==> call_made(p, nodes, node) is Err,
        (node.target@ == "aten.view.default"@ || node.target@ == "aten.transpose.int"@ || node.target@
            == "aten.unsqueeze.default"@ || node.target@ == "aten.squeeze.dim"@ || node.target@
            == "aten.split.Tensor"@ || node.target@ == "aten.lift_fresh_copy.default"@ || node.target@
            == "getitem"@ || node.target@ == "operator.getitem"@ || node.target@
            == "<built-in function getitem>"@ || node.target@ == "aten.index.Tensor"@)
            && names_nothing(p, node, 0) ==> call_made(p, nodes, node) is Err,
        call_made(p, nodes, node) is Ok ==> adds(node) || multiplies(node) || node.target@
            == "aten.linear.default"@ || node.target@ == "aten.view.default"@ || node.target@
            == "aten.transpose.int"@ || node.target@ == "aten.dropout.default"@ || node.target@
            == "aten.lift_fresh_copy.default"@ || node.target@ == "aten.layer_norm.default"@
            || node.target@ == "aten.split.Tensor"@ || node.target@
            == "<built-in function getitem>"@ || node.target@ == "operator.getitem"@ || node.target@
            == "getitem"@ || node.target@ == "aten.unsqueeze.default"@ || node.target@
            == "aten.squeeze.dim"@ || node.target@ == "aten.arange.default"@ || node.target@
            == "aten.arange.start"@ || node.target@ == "aten.arange.start_step"@ || node.target@
            == "aten.scaled_dot_product_attention.default"@ || node.target@
            == "aten.gelu.default"@ || node.target@ == "aten.embedding.default"@ || node.target@
            == "aten.index.Tensor"@,
{
    lemma_calls(p, nodes, node);
}

/// Tensors that cannot be multiplied as matrices are refused: a row of the input and a row of
/// the weight of a linear layer have the same length; so have queries and keys, and their
/// axes before the last two, where there are any, agree.
pub proof fn law_misfits_are_refused(
    p: ProgramView,
    nodes: Seq<PyTorchGraphNode>,
    node: PyTorchGraphNode,
    x: usize,
    y: usize,
)
    requires
        p.steps.len() + 4 <= usize::MAX,
        names_tensor(p, node, 0, x),
        names_tensor(p, node, 1, y),
    ensures
        ({
            let (a, b) = (p.dims(x), p.dims(y));
            &&& node.target@ == "aten.linear.default"@ && call_made(p, nodes, node) is Ok ==> b.len()
                == 2 && a.len() >= 1 && a.last() == b[1]
            &&& node.target@ == "aten.scaled_dot_product_attention.default"@ && call_made(
                p,
                nodes,
                node,
            ) is Ok ==> b.len() >= 2 && a.len() >= b.len() && a.last() == b.last() && (b.len() > 2
                ==> a.len() == b.len() && forall|q: int|
                0 <= q < b.len() - 2 ==> #[trigger] a[q] == b[q])
            &&& node.target@ == "aten.embedding.default"@ && call_made(p, nodes, node) is Ok ==> a.len()
                >= 2
        }),
{
    lemma_calls(p, nodes, node);
    let (a, b) = (p.dims(x), p.dims(y));
    let s = p.steps.len() as int;
    if node.target@ == "aten.linear.default"@ && call_made(p, nodes, node) is Ok {
        let p1 = p.with_step(
            TorchOp::Transpose { input: y, dim0: 1, dim1: 0 },
            seq![b[1], b[0]],
        );
        assert(p1.dims(x) == a);
        assert(p1.dims(p.next()) == seq![b[1], b[0]]);
        assert(matmul_made(p1, x, p.next()) is Ok);
    }
    if node.target@ == "aten.scaled_dot_product_attention.default"@ && call_made(p, nodes, node) is Ok {
        let rank = b.len();
        let turned = swapped_dims(b, rank - 2, rank - 1);
        let p1 = p.with_step(
            TorchOp::Transpose { input: y, dim0: (rank - 2) as usize, dim1: (rank - 1) as usize },
            turned,
        );
        assert(p1.dims(x) == a);
        assert(p1.dims(p.next()) == turned);
        assert(matmul_made(p1, x, p.next()) is Ok);
        assert(turned[rank - 2] == b.last());
        let p2 = matmul_made(p1, x, p.next())->Ok_0.0;
        assert(p2.dims(p1.next()).len() == a.len());
        if rank > 2 {
            assert(a.take(a.len() - 2) == turned.take(rank - 2));
            assert forall|q: int| 0 <= q < rank - 2 implies #[trigger] a[q] == b[q] by {
                assert(a.take(a.len() - 2)[q] == turned.take(rank - 2)[q]);
            }
        }
    }
}

/// Axes are counted from the start, or from the end by negative numbers, and a transposition
/// of others is refused.
pub proof fn law_only_axes_are_exchanged(
    p: ProgramView,
    nodes: Seq<PyTorchGraphNode>,
    node: PyTorchGraphNode,
    x: usize,
    a: i32,
    b: i32,
)
    requires
        node.target@ == "aten.transpose.int"@,
        node.args@.len() >= 3,
        names_tensor(p, node, 0, x),
        small_int(node.args@[1].text@) == Some(a),
        small_int(node.args@[2].text@) == Some(b),
    ensures
        ({
            let rank = p.dims(x).len() as int;
            call_made(p, nodes, node) is Ok <==> -rank <= a < rank && -rank <= b < rank
        }),
{
    lemma_calls(p, nodes, node);
}

/// A view with two dimensions to be inferred, or with one that is neither positive nor to be
/// inferred, is refused.
pub proof fn law_view_is_definite(
    p: ProgramView,
    nodes: Seq<PyTorchGraphNode>,
    node: PyTorchGraphNode,
    i: int,
    j: int,
    a: i32,
    b: i32,
)
    requires
        node.target@ == "aten.view.default"@,
        1 <= i < j < node.args@.len(),
        small_int(node.args@[i].text@) == Some(a),
        small_int(node.args@[j].text@) == Some(b),
        a == -1 && b == -1 || a == 0 || a < -1 || b == 0 || b < -1,
    ensures
        call_made(p, nodes, node) is Err,
{
    lemma_calls(p, nodes, node);
    let args = node.args@;
    if let Ok(target) = wanted_dims(args, args.len() as int) {
        lemma_wanted_at(args, args.len() as int, i);
        lemma_wanted_at(args, args.len() as int, j);
        if let Ok((inferred, known)) = view_scan(target, target.len() as int) {
            lemma_scan_at(target, target.len() as int, i - 1);
            lemma_scan_at(target, target.len() as int, j - 1);
        }
    }
}

proof fn lemma_wanted_at(args: Seq<Arg>, n: int, i: int)
    requires
        1 <= i < n <= args.len(),
        wanted_dims(args, n) is Ok,
    ensures
        wanted_dims(args, n)->Ok_0.len() == n - 1,
        small_int(args[i].text@) == Some(wanted_dims(args, n)->Ok_0[i - 1]),
    decreases n,
{
    assert(wanted_dims(args, n - 1) is Ok);
    if i < n - 1 {
        lemma_wanted_at(args, n - 1, i);
    } else {
        lemma_wanted_len(args, n - 1);
    }
}

proof fn lemma_wanted_len(args: Seq<Arg>, n: int)
    requires
        1 <= n <= args.len(),
        wanted_dims(args, n) is Ok,
    ensures
        wanted_dims(args, n)->Ok_0.len() == n - 1,
    decreases n,
{
    if n > 1 {
        lemma_wanted_len(args, n - 1);
    }
}

proof fn lemma_scan_at(target: Seq<i32>, n: int, i: int)
    requires
        0 <= i < n <= target.len(),
        view_scan(target, n) is Ok,
    ensures
        target[i] > 0 || target[i] == -1,
        target[i] == -1 ==> view_scan(target, n)->Ok_0.0 == Some(i),
    decreases n,
{
    assert(view_scan(target, n - 1) is Ok);
    if i < n - 1 {
        lemma_scan_at(target, n - 1, i);
    }
}

/// A part that begins after the end of the tensor is refused.
pub proof fn law_part_begins_in_the_tensor(
    p: ProgramView,
    nodes: Seq<PyTorchGraphNode>,
    node: PyTorchGraphNode,
    x: usize,
    size: usize,
    axis: usize,
    index: usize,
)
    requires
        torch_data::takes_part(p, nodes, node, x, size, axis, index),
        index * size > p.dims(x)[axis as int],
    ensures
        call_made(p, nodes, node) is Err,
{
    lemma_calls(p, nodes, node);
}

/// A graph is read node by node: each node makes of the program what the nodes before it
/// have made, none is passed over, and reading ends at the first that cannot be read.
pub proof fn law_nodes_are_read_in_order(nodes: Seq<PyTorchGraphNode>, k: int)
    requires
        0 <= k < nodes.len(),
        nodes.len() <= usize::MAX,
    ensures
        compiled(nodes, 0) matches Ok(p) && p.steps.len() == 0 && p.outputs.len() == 0 && forall|
            name: Seq<char>,
        | !#[trigger] p.names.contains_key(name),
        compiled(nodes, nodes.len() as int) is Ok ==> (compiled(nodes, k) matches Ok(p) && compiled(
            nodes,
            k + 1,
        ) matches Ok(q) && node_made(p, nodes, nodes[k]) == Ok::<ProgramView, TorchError>(q)),
        compiled(nodes, nodes.len() as int) matches Err((at, e)) ==> at < nodes.len() && (compiled(
            nodes,
            at as int,
        ) matches Ok(p) && node_made(p, nodes, nodes[at as int]) == Err::<ProgramView, TorchError>(
            e,
        )),
{
    lemma_read_in_order(nodes, nodes.len() as int, k);
}

proof fn lemma_read_in_order(nodes: Seq<PyTorchGraphNode>, n: int, k: int)
    requires
        0 <= n <= nodes.len() <= usize::MAX,
        0 <= k < nodes.len(),
    ensures
        k < n && compiled(nodes, n) is Ok ==> compiled(nodes, k) is Ok && compiled(nodes, k + 1) is Ok
            && node_made(compiled(nodes, k)->Ok_0, nodes, nodes[k]) == Ok::<
            ProgramView,
            TorchError,
        >(compiled(nodes, k + 1)->Ok_0),
        compiled(nodes, n) matches Err((at, e)) ==> at < n && (compiled(
            nodes,
            at as int,
        ) matches Ok(p) && node_made(p, nodes, nodes[at as int]) == Err::<ProgramView, TorchError>(
            e,
        )),
    decreases n,
{
    if n > 0 {
        lemma_read_in_order(nodes, n - 1, k);
    }
}

/// Only tensors that an argument of the output names become outputs, none becomes one twice
/// for one argument, and "None" is not one.
pub proof fn law_outputs_are_named(p: ProgramView, args: Seq<Arg>, n: int, i: int)
    requires
        0 <= n <= args.len(),
        p.outputs.len() <= i < outputs_made(p, args, n).outputs.len(),
    ensures
        p.outputs.len() <= outputs_made(p, args, n).outputs.len() <= p.outputs.len() + n,
        outputs_made(p, args, n).outputs.take(p.outputs.len() as int) == p.outputs,
        outputs_made(p, args, n).outputs[i] != "None"@,
        p.names.contains_key(outputs_made(p, args, n).outputs[i]),
        exists|j: int|
            0 <= j < n && (#[trigger] args[j]).text@ == outputs_made(p, args, n).outputs[i],
    decreases n,
{
    lemma_outputs_kept(p, args, n);
    if n > 0 {
        lemma_outputs_kept(p, args, n - 1);
        let q = outputs_made(p, args, n - 1);
        if i < q.outputs.len() {
            law_outputs_are_named(p, args, n - 1, i);
            let j = choose|j: int| 0 <= j < n - 1 && (#[trigger] args[j]).text@ == q.outputs[i];
            assert(args[j].text@ == outputs_made(p, args, n).outputs[i]);
        } else {
            assert(args[n - 1].text@ == outputs_made(p, args, n).outputs[i]);
        }
    }
}

proof fn lemma_outputs_kept(p: ProgramView, args: Seq<Arg>, n: int)
    requires
        0 <= n <= args.len(),
    ensures
        outputs_made(p, args, n).names.dom() == p.names.dom(),
        p.outputs.len() <= outputs_made(p, args, n).outputs.len() <= p.outputs.len() + n,
        outputs_made(p, args, n).outputs.take(p.outputs.len() as int) == p.outputs,
    decreases n,
{
    if n > 0 {
        lemma_outputs_kept(p, args, n - 1);
        let q = outputs_made(p, args, n - 1);
        let r = outputs_made(p, args, n);
        assert(r.names.dom() =~= p.names.dom());
        assert(r.outputs.take(p.outputs.len() as int) =~= p.outputs) by {
            assert forall|k: int| 0 <= k < p.outputs.len() implies r.outputs[k] == p.outputs[k] by {
                assert(q.outputs.take(p.outputs.len() as int)[k] == p.outputs[k]);
                assert(q.outputs[k] == p.outputs[k]);
            }
        }
    } else {
        assert(p.outputs.take(p.outputs.len() as int) =~= p.outputs);
    }
}

} // verus!
