//! What layers of convolution do: where their windows lie, and which input each weight meets.

#[allow(unused_imports)]
use crate::convolution::{
    flat, padded_element, tap, upsampled_element, weight_element, ConvND, ConvTranspose1d,
};
#[allow(unused_imports)]
use crate::tensor::{
    element, inside, law_windows_are_complete, law_windows_are_those_that_fit, nested_sum, product,
    sum_to, windows, GraphTensor, Model, NodeView,
};
use vstd::prelude::*;

verus! {

/// Elements are whole numbers, computed with as such.
pub open spec fn whole_numbers(m: Model) -> bool {
    &&& m.zero == 0
    &&& forall|a: int, b: int| #[trigger] (m.plus)(a, b) == a + b
    &&& forall|a: int, b: int| #[trigger] (m.times)(a, b) == a * b
}

/// The element of a matrix in a row and a column.
pub open spec fn in_matrix(g: Seq<NodeView>, i: int, m: Model, row: int, column: int) -> int {
    element(g, i, m, seq![row, column])
}

/// The element of a tensor with three axes.
pub open spec fn at_three(g: Seq<NodeView>, i: int, m: Model, a: int, b: int, c: int) -> int {
    element(g, i, m, seq![a, b, c])
}

/// A convolution has its result at every place where the window lies within the padded input,
/// and at no other. Axes of the batch stay, and there is a place for every output channel.
pub proof fn law_convolution_has_every_place(
    conv: ConvND,
    dims: Seq<usize>,
    batch: int,
    q: int,
    i: int,
)
    requires
        conv.wf(),
        conv.accepts(dims),
        batch == dims.len() - conv.kernel@.len() - 1,
        0 <= q < conv.kernel@.len(),
        0 <= i,
    ensures
        ({
            let out = conv.out_dims(dims);
            &&& out.len() == dims.len()
            &&& forall|b: int| 0 <= b < batch ==> #[trigger] out[b] == dims[b]
            &&& out[batch] == conv.ch_out
            &&& i < out[batch + 1 + q] <==> i * conv.stride@[q] + (conv.kernel@[q] - 1)
                * conv.dilation@[q] < dims[batch + 1 + q] + 2 * conv.padding@[q]
            &&& out[batch + 1 + q] >= 1
        }),
{
    let out = conv.out_dims(dims);
    let inner = dims.skip(batch + 1);
    let (k, s, d, p) = (
        conv.kernel@[q] as int,
        conv.stride@[q] as int,
        conv.dilation@[q] as int,
        conv.padding@[q] as int,
    );
    let dim = inner[q] + 2 * p;
    assert(inner[q] == dims[batch + 1 + q]);
    assert(conv.kernel@[q] >= 1);
    assert(d * (k - 1) == (k - 1) * d) by (nonlinear_arith);
    law_windows_are_those_that_fit(dim, k, s, d, i);
    law_windows_are_those_that_fit(dim, k, s, d, 0);
    law_windows_are_complete(dim, k, s, d);
    assert(0 * s == 0);
    assert(out[batch + 1 + q] == windows(dim, k, s, d));
}

/// How many places a spatial axis has depends on the kernel, stride, dilation and padding along
/// it alone.
pub proof fn law_axes_are_independent(a: ConvND, b: ConvND, dims: Seq<usize>, q: int)
    requires
        a.wf() && b.wf(),
        a.accepts(dims) && b.accepts(dims),
        a.kernel@.len() == b.kernel@.len(),
        0 <= q < a.kernel@.len(),
        a.kernel@[q] == b.kernel@[q],
        a.stride@[q] == b.stride@[q],
        a.dilation@[q] == b.dilation@[q],
        a.padding@[q] == b.padding@[q],
    ensures
        a.out_dims(dims)[dims.len() - a.kernel@.len() + q] == b.out_dims(
            dims,
        )[dims.len() - a.kernel@.len() + q],
{
}

proof fn lemma_sum_of_one(m: Model, n: nat, term: spec_fn(int) -> int, k: int)
    requires
        whole_numbers(m),
        0 <= k < n,
        forall|i: int| 0 <= i < n && i != k ==> #[trigger] term(i) == 0,
    ensures
        sum_to(m, n, term) == term(k),
    decreases n,
{
    if k == n - 1 {
        lemma_sum_of_none(m, (n - 1) as nat, term);
    } else {
        lemma_sum_of_one(m, (n - 1) as nat, term, k);
        assert(term(n - 1) == 0);
    }
}

proof fn lemma_sum_of_none(m: Model, n: nat, term: spec_fn(int) -> int)
    requires
        whole_numbers(m),
        forall|i: int| 0 <= i < n ==> #[trigger] term(i) == 0,
    ensures
        sum_to(m, n, term) == 0,
    decreases n,
{
    if n > 0 {
        lemma_sum_of_none(m, (n - 1) as nat, term);
        assert(term(n - 1) == 0);
    }
}

proof fn lemma_nested_of_none(m: Model, dims: Seq<usize>, f: spec_fn(Seq<int>) -> int)
    requires
        whole_numbers(m),
        forall|t: Seq<int>| inside(t, dims) ==> #[trigger] f(t) == 0,
    ensures
        nested_sum(m, dims, f) == 0,
    decreases dims.len(),
{
    if dims.len() == 0 {
        assert(inside(Seq::empty(), dims));
    } else {
        let n = dims.last() as nat;
        let g = |t: Seq<int>| sum_to(m, n, |k: int| f(t.push(k)));
        assert forall|t: Seq<int>| inside(t, dims.drop_last()) implies #[trigger] g(t) == 0 by {
            let term = |k: int| f(t.push(k));
            assert forall|k: int| 0 <= k < n implies #[trigger] term(k) == 0 by {
                lemma_inside_push(t, k, dims);
            }
            lemma_sum_of_none(m, n, term);
        }
        lemma_nested_of_none(m, dims.drop_last(), g);
    }
}

proof fn lemma_inside_push(t: Seq<int>, k: int, dims: Seq<usize>)
    requires
        dims.len() > 0,
        inside(t, dims.drop_last()),
        0 <= k < dims.last(),
    ensures
        inside(t.push(k), dims),
{
    assert forall|q: int| 0 <= q < dims.len() implies 0 <= #[trigger] t.push(k)[q] < dims[q] by {
        if q < t.len() {
            assert(t.push(k)[q] == t[q]);
            assert(dims.drop_last()[q] == dims[q]);
        }
    }
}

/// A sum of which all terms but one are zero is that one.
proof fn lemma_nested_of_one(
    m: Model,
    dims: Seq<usize>,
    f: spec_fn(Seq<int>) -> int,
    at: Seq<int>,
)
    requires
        whole_numbers(m),
        inside(at, dims),
        forall|t: Seq<int>| inside(t, dims) && t != at ==> #[trigger] f(t) == 0,
    ensures
        nested_sum(m, dims, f) == f(at),
    decreases dims.len(),
{
    if dims.len() == 0 {
        assert(at =~= Seq::empty());
    } else {
        let n = dims.last() as nat;
        let front = at.drop_last();
        let last = at.last();
        assert(at[dims.len() - 1] == last);
        assert(front.push(last) =~= at);
        let g = |t: Seq<int>| sum_to(m, n, |k: int| f(t.push(k)));
        assert(inside(front, dims.drop_last())) by {
            assert forall|q: int| 0 <= q < dims.len() - 1 implies 0 <= #[trigger] front[q]
                < dims.drop_last()[q] by {
                assert(front[q] == at[q]);
            }
        }
        assert forall|t: Seq<int>| inside(t, dims.drop_last()) && t != front implies #[trigger] g(t)
            == 0 by {
            let term = |k: int| f(t.push(k));
            assert forall|k: int| 0 <= k < n implies #[trigger] term(k) == 0 by {
                lemma_inside_push(t, k, dims);
                assert(t.push(k).drop_last() =~= t);
            }
            lemma_sum_of_none(m, n, term);
        }
        lemma_nested_of_one(m, dims.drop_last(), g, front);
        let term = |k: int| f(front.push(k));
        assert forall|k: int| 0 <= k < n && k != last implies #[trigger] term(k) == 0 by {
            lemma_inside_push(front, k, dims);
            assert(front.push(k).last() == k);
        }
        lemma_sum_of_one(m, n, term, last);
    }
}

proof fn lemma_product_first(s: Seq<usize>)
    requires
        s.len() > 0,
    ensures
        product(s) == s[0] * product(s.drop_first()),
    decreases s.len(),
{
    if s.len() == 1 {
        assert(s.drop_last() =~= Seq::<usize>::empty());
        assert(s.drop_first() =~= Seq::<usize>::empty());
    } else {
        lemma_product_first(s.drop_last());
        assert(s.drop_last().drop_first() =~= s.drop_first().drop_last());
        let (a, b, c) = (s[0] as int, product(s.drop_first().drop_last()), s.last() as int);
        assert((a * b) * c == a * (b * c)) by (nonlinear_arith);
    }
}

/// The columns of a weight: the first of an input channel is the channel's number times the
/// number of places of the kernel, and one place further along an axis is so many columns
/// further as the axes after it have places.
pub proof fn law_columns_of_a_weight(channel: int, kernel: Seq<usize>, k: Seq<int>, q: int)
    requires
        k.len() == kernel.len(),
        0 <= q < kernel.len(),
    ensures
        flat(channel, kernel, Seq::new(kernel.len(), |i: int| 0int)) == channel * product(kernel),
        flat(channel, kernel, k.update(q, k[q] + 1)) == flat(channel, kernel, k) + product(
            kernel.skip(q + 1),
        ),
{
    lemma_first_column(channel, kernel);
    lemma_next_column(channel, kernel, k, q);
}

proof fn lemma_first_column(a: int, kernel: Seq<usize>)
    ensures
        flat(a, kernel, Seq::new(kernel.len(), |i: int| 0int)) == a * product(kernel),
    decreases kernel.len(),
{
    let zeros = Seq::new(kernel.len(), |i: int| 0int);
    if kernel.len() == 0 {
        assert(a * 1 == a);
    } else {
        let rest = kernel.drop_first();
        lemma_first_column(a * kernel[0] + 0, rest);
        assert(zeros.drop_first() =~= Seq::new(rest.len(), |i: int| 0int));
        lemma_product_first(kernel);
        let (b, c) = (kernel[0] as int, product(rest));
        assert((a * b + 0) * c == a * (b * c)) by (nonlinear_arith);
    }
}

/// A change of the first number moves the column by so many kernels.
proof fn lemma_flat_shift(a: int, d: int, kernel: Seq<usize>, k: Seq<int>)
    ensures
        flat(a + d, kernel, k) == flat(a, kernel, k) + d * product(kernel),
    decreases kernel.len(),
{
    if kernel.len() == 0 {
        assert(d * 1 == d);
    } else {
        let rest = kernel.drop_first();
        let b = kernel[0] as int;
        assert((a + d) * b + k[0] == (a * b + k[0]) + d * b) by (nonlinear_arith);
        lemma_flat_shift(a * b + k[0], d * b, rest, k.drop_first());
        lemma_product_first(kernel);
        let c = product(rest);
        assert((d * b) * c == d * (b * c)) by (nonlinear_arith);
    }
}

proof fn lemma_next_column(a: int, kernel: Seq<usize>, k: Seq<int>, q: int)
    requires
        k.len() == kernel.len(),
        0 <= q < kernel.len(),
    ensures
        flat(a, kernel, k.update(q, k[q] + 1)) == flat(a, kernel, k) + product(kernel.skip(q + 1)),
    decreases kernel.len(),
{
    let next = k.update(q, k[q] + 1);
    let rest = kernel.drop_first();
    let b = kernel[0] as int;
    if q == 0 {
        assert(next.drop_first() =~= k.drop_first());
        lemma_flat_shift(a * b + k[0], 1, rest, k.drop_first());
        assert(kernel.skip(1) =~= rest);
        assert(1 * product(rest) == product(rest));
        assert(a * b + (k[0] + 1) == a * b + k[0] + 1);
    } else {
        assert(next.drop_first() =~= k.drop_first().update(q - 1, k[q] + 1));
        assert(next[0] == k[0]);
        lemma_next_column(a * b + k[0], rest, k.drop_first(), q - 1);
        assert(rest.skip(q) =~= kernel.skip(q + 1));
    }
}

/// A column lies among those of its channel.
proof fn lemma_column_bounds(a: int, kernel: Seq<usize>, k: Seq<int>)
    requires
        inside(k, kernel),
    ensures
        a * product(kernel) <= flat(a, kernel, k) < (a + 1) * product(kernel),
    decreases kernel.len(),
{
    if kernel.len() == 0 {
        assert(a * 1 == a && (a + 1) * 1 == a + 1);
    } else {
        let rest = kernel.drop_first();
        let b = kernel[0] as int;
        let tail = k.drop_first();
        assert(0 <= k[0] < b);
        assert(inside(tail, rest)) by {
            assert forall|i: int| 0 <= i < rest.len() implies 0 <= #[trigger] tail[i] < rest[i] by {
                assert(tail[i] == k[i + 1]);
            }
        }
        lemma_column_bounds(a * b + k[0], rest, tail);
        lemma_product_first(kernel);
        let c = product(rest);
        crate::torch_data::lemma_product_not_negative(rest);
        let k0 = k[0];
        assert(a * (b * c) <= (a * b + k0) * c && (a * b + k0 + 1) * c <= (a + 1) * (b * c))
            by (nonlinear_arith)
            requires
                0 <= k0 < b,
                c >= 0,
        ;
    }
}

/// Channels and places of the kernel have columns of their own.
proof fn lemma_column_is_own(a: int, b: int, kernel: Seq<usize>, k: Seq<int>, l: Seq<int>)
    requires
        inside(k, kernel),
        inside(l, kernel),
        flat(a, kernel, k) == flat(b, kernel, l),
    ensures
        a == b,
        k == l,
    decreases kernel.len(),
{
    if kernel.len() == 0 {
        assert(k =~= l);
    } else {
        let rest = kernel.drop_first();
        let n = kernel[0] as int;
        assert(0 <= k[0] < n && 0 <= l[0] < n);
        let (k1, l1) = (k.drop_first(), l.drop_first());
        assert(inside(k1, rest)) by {
            assert forall|i: int| 0 <= i < rest.len() implies 0 <= #[trigger] k1[i] < rest[i] by {
                assert(k1[i] == k[i + 1]);
            }
        }
        assert(inside(l1, rest)) by {
            assert forall|i: int| 0 <= i < rest.len() implies 0 <= #[trigger] l1[i] < rest[i] by {
                assert(l1[i] == l[i + 1]);
            }
        }
        lemma_column_is_own(a * n + k[0], b * n + l[0], rest, k1, l1);
        vstd::arithmetic::div_mod::lemma_fundamental_div_mod_converse(a * n + k[0], n, a, k[0]);
        vstd::arithmetic::div_mod::lemma_fundamental_div_mod_converse(b * n + l[0], n, b, l[0]);
        assert(k =~= l) by {
            assert forall|i: int| 0 <= i < k.len() implies k[i] == l[i] by {
                if i > 0 {
                    assert(k1[i - 1] == l1[i - 1]);
                }
            }
        }
    }
}

/// What a single weight does. Where only the weight of an output channel for the `c`-th input
/// channel of its group and place `k` of the kernel is 1 and the others are 0, the layer gives,
/// at every place, the input of that channel at the place where the window stands and `k`
/// lies in it, and zero where that is outside. Channels are of one group if they are as many
/// groups' sizes from the first.
#[verifier::rlimit(50)]
pub proof fn law_a_single_weight(
    conv: ConvND,
    g: Seq<NodeView>,
    x: int,
    m: Model,
    idx: Seq<int>,
    batch: int,
    c: int,
    k: Seq<int>,
    channel: int,
    there: Seq<int>,
)
    requires
        conv.wf(),
        conv.bias is None,
        conv.accepts(g[x].dims),
        whole_numbers(m),
        g[conv.weight.id as int].dims.len() == 2,
        g[conv.weight.id as int].dims[1] == (conv.ch_in / conv.groups) * product(conv.kernel@),
        inside(idx, conv.out_dims(g[x].dims)),
        batch == g[x].dims.len() - conv.kernel@.len() - 1,
        0 <= c < conv.ch_in / conv.groups,
        inside(k, conv.kernel@),
        forall|j: int|
            0 <= j < g[conv.weight.id as int].dims[1] ==> #[trigger] in_matrix(
                g,
                conv.weight.id as int,
                m,
                idx[batch],
                j,
            ) == if j == flat(c, conv.kernel@, k) {
                1int
            } else {
                0
            },
        0 <= channel < conv.ch_in,
        channel / (conv.ch_in / conv.groups) as int == idx[batch] / (conv.ch_out
            / conv.groups) as int,
        channel % (conv.ch_in / conv.groups) as int == c,
        there.len() == idx.len(),
        forall|b: int| 0 <= b < batch ==> #[trigger] there[b] == idx[b],
        there[batch] == channel,
        forall|q: int|
            0 <= q < k.len() ==> #[trigger] there[batch + 1 + q] == idx[batch + 1 + q]
                * conv.stride@[q] + k[q] * conv.dilation@[q] - conv.padding@[q],
    ensures
        conv.result(g, x, m, idx) == if inside(there, g[x].dims) {
            element(g, x, m, there)
        } else {
            0
        },
{
    let w = conv.weight.id as int;
    let channels = (conv.ch_in / conv.groups) as usize;
    let kernel = conv.kernel@;
    let o = idx[batch];
    let group = o / (conv.ch_out / conv.groups) as int;
    let first = group * channels;
    let dims = seq![channels] + kernel;
    let f = |t: Seq<int>|
        (m.times)(
            padded_element(
                g,
                x,
                m,
                tap(
                    idx,
                    batch,
                    first + t[0],
                    t.skip(1),
                    conv.stride@,
                    conv.dilation@,
                    conv.padding@,
                ),
            ),
            weight_element(g, w, m, kernel, o, t),
        );
    let at = seq![c] + k;
    assert(at.skip(1) =~= k);
    assert(inside(at, dims)) by {
        assert forall|q: int| 0 <= q < dims.len() implies 0 <= #[trigger] at[q] < dims[q] by {
            if q > 0 {
                assert(at[q] == k[q - 1] && dims[q] == kernel[q - 1]);
            }
        }
    }
    assert forall|t: Seq<int>| inside(t, dims) implies weight_element(g, w, m, kernel, o, t) == (
    if t == at {
        1int
    } else {
        0
    }) by {
        let tail = t.skip(1);
        assert(0 <= t[0] < dims[0]);
        assert(inside(tail, kernel)) by {
            assert forall|q: int| 0 <= q < kernel.len() implies 0 <= #[trigger] tail[q] < kernel[q] by {
                assert(tail[q] == t[q + 1] && dims[q + 1] == kernel[q]);
            }
        }
        let j = flat(t[0], kernel, tail);
        lemma_column_bounds(t[0], kernel, tail);
        crate::torch_data::lemma_product_not_negative(kernel);
        let n = product(kernel);
        let t0 = t[0];
        assert(0 <= t0 * n && (t0 + 1) * n <= channels * n) by (nonlinear_arith)
            requires
                0 <= t0 < channels,
                n >= 0,
        ;
        assert(0 <= j < g[w].dims[1]);
        assert(in_matrix(g, w, m, o, j) == if j == flat(c, kernel, k) {
            1int
        } else {
            0
        });
        if j == flat(c, kernel, k) {
            lemma_column_is_own(t[0], c, kernel, tail, k);
            assert(t =~= at);
        }
    }
    assert forall|t: Seq<int>| inside(t, dims) && t != at implies #[trigger] f(t) == 0 by {
        assert(weight_element(g, w, m, kernel, o, t) == 0);
        let e = padded_element(
            g,
            x,
            m,
            tap(
                idx,
                batch,
                first + t[0],
                t.skip(1),
                conv.stride@,
                conv.dilation@,
                conv.padding@,
            ),
        );
        assert(e * 0 == 0);
    }
    lemma_nested_of_one(m, dims, f, at);
    vstd::arithmetic::div_mod::lemma_fundamental_div_mod(channel, channels as int);
    assert(first + c == channel) by (nonlinear_arith)
        requires
            channel == channels * group + c,
            first == group * channels,
    ;
    let place = tap(
        idx,
        batch,
        first + at[0],
        at.skip(1),
        conv.stride@,
        conv.dilation@,
        conv.padding@,
    );
    assert(place =~= there) by {
        assert(place.len() == there.len());
        assert forall|q: int| 0 <= q < place.len() implies place[q] == there[q] by {
            if q > batch {
                let s = q - batch - 1;
                assert(there[batch + 1 + s] == idx[batch + 1 + s] * conv.stride@[s] + k[s]
                    * conv.dilation@[s] - conv.padding@[s]);
            }
        }
    }
    assert(weight_element(g, w, m, kernel, o, at) == 1);
    let e = padded_element(g, x, m, place);
    assert(e * 1 == e);
    assert(f(at) == e);
}

/// A layer with a bias gives what it gives without, plus the bias of the output channel.
pub proof fn law_bias_is_added(
    conv: ConvND,
    g: Seq<NodeView>,
    x: int,
    m: Model,
    idx: Seq<int>,
    bias: GraphTensor,
)
    requires
        conv.bias == Some(bias),
        idx.len() >= conv.kernel@.len() + 1,
    ensures
        conv.result(g, x, m, idx) == (m.plus)(
            (ConvND { bias: None, ..conv }).result(g, x, m, idx),
            element(g, bias.id as int, m, seq![idx[idx.len() - conv.kernel@.len() - 1]]),
        ),
{
}

/// Where the input is zero everywhere, so is the result of a layer without bias.
pub proof fn law_nothing_comes_of_nothing(
    conv: ConvND,
    g: Seq<NodeView>,
    x: int,
    m: Model,
    idx: Seq<int>,
)
    requires
        conv.bias is None,
        whole_numbers(m),
        forall|at: Seq<int>| inside(at, g[x].dims) ==> #[trigger] element(g, x, m, at) == 0,
    ensures
        conv.result(g, x, m, idx) == 0,
{
    let batch = idx.len() - conv.kernel@.len() - 1;
    let channels = (conv.ch_in / conv.groups) as usize;
    let group = idx[batch] / (conv.ch_out / conv.groups) as int;
    let f = |t: Seq<int>|
        (m.times)(
            padded_element(
                g,
                x,
                m,
                tap(
                    idx,
                    batch,
                    group * channels + t[0],
                    t.skip(1),
                    conv.stride@,
                    conv.dilation@,
                    conv.padding@,
                ),
            ),
            weight_element(g, conv.weight.id as int, m, conv.kernel@, idx[batch], t),
        );
    assert forall|t: Seq<int>| #[trigger] f(t) == 0 by {
        let w = weight_element(g, conv.weight.id as int, m, conv.kernel@, idx[batch], t);
        assert(0 * w == 0);
    }
    lemma_nested_of_none(m, seq![channels] + conv.kernel@, f);
}

/// A transposed convolution reaches from the first place of the first input to the last of the
/// last, less the padding on both sides; a convolution with the same kernel, stride and
/// padding leads back to the length of the input.
pub proof fn law_transposed_length(conv: ConvTranspose1d, dims: Seq<usize>)
    requires
        conv.wf(),
        conv.accepts(dims),
    ensures
        ({
            let out = conv.out_dims(dims);
            &&& out.len() == 3
            &&& out[0] == dims[0]
            &&& out[1] == conv.ch_out
            &&& out[2] + 2 * conv.padding == (dims[2] - 1) * conv.stride + conv.kernel
            &&& windows(
                out[2] + 2 * conv.padding,
                conv.kernel as int,
                conv.stride as int,
                1,
            ) == dims[2]
        }),
{
    let (l, s, k) = (dims[2] as int, conv.stride as int, conv.kernel as int);
    assert((l - 1) * s <= l * s) by (nonlinear_arith)
        requires
            s >= 0,
    ;
    let dim = (l - 1) * s + k;
    assert(conv.out_dims(dims)[2] + 2 * conv.padding == dim);
    let w = windows(dim, k, s, 1);
    assert((l - 1) * s >= 0) by (nonlinear_arith)
        requires
            l >= 1,
            s >= 1,
    ;
    assert((k - 1) * 1 == k - 1);
    law_windows_are_those_that_fit(dim, k, s, 1, l);
    law_windows_are_those_that_fit(dim, k, s, 1, l - 1);
    assert(l * s >= (l - 1) * s + 1) by (nonlinear_arith)
        requires
            s >= 1,
    ;
}

/// What a single weight of a transposed convolution does. Where only the weight from input
/// channel `c` to an output channel at place `k` of the kernel is 1 and the others are 0, the
/// input of that channel at a place comes out at the stride times that place, plus `k`, less
/// the padding; and everywhere else there is zero.
#[verifier::rlimit(50)]
pub proof fn law_a_single_transposed_weight(
    conv: ConvTranspose1d,
    g: Seq<NodeView>,
    x: int,
    m: Model,
    idx: Seq<int>,
    c: int,
    k: int,
)
    requires
        conv.wf(),
        conv.bias is None,
        conv.accepts(g[x].dims),
        whole_numbers(m),
        inside(idx, conv.out_dims(g[x].dims)),
        0 <= c < conv.ch_in,
        0 <= k < conv.kernel,
        forall|d: int, l: int|
            0 <= d < conv.ch_in && 0 <= l < conv.kernel ==> #[trigger] at_three(
                g,
                conv.weight.id as int,
                m,
                d,
                idx[1],
                l,
            ) == if d == c && l == k {
                1int
            } else {
                0
            },
    ensures
        forall|at: int|
            0 <= at < g[x].dims[2] && idx[2] == at * conv.stride + k - conv.padding
                ==> conv.result(g, x, m, idx) == #[trigger] at_three(g, x, m, idx[0], c, at),
        (forall|at: int|
            0 <= at < g[x].dims[2] ==> idx[2] != #[trigger] (at * conv.stride) + k - conv.padding)
            ==> conv.result(g, x, m, idx) == 0,
{
    let w = conv.weight.id as int;
    let (n, s, p) = (conv.kernel as int, conv.stride as int, conv.padding as int);
    let dims = seq![conv.ch_in, conv.kernel];
    let f = |t: Seq<int>|
        (m.times)(
            upsampled_element(g, x, m, s, idx[0], t[0], idx[2] + t[1] - (n - 1 - p)),
            element(g, w, m, seq![t[0], idx[1], n - 1 - t[1]]),
        );
    let at = seq![c, n - 1 - k];
    assert(inside(at, dims));
    assert forall|t: Seq<int>| inside(t, dims) && t != at implies #[trigger] f(t) == 0 by {
        assert(0 <= t[0] < dims[0] && 0 <= t[1] < dims[1]);
        let l = n - 1 - t[1];
        assert(at_three(g, w, m, t[0], idx[1], l) == if t[0] == c && l == k {
            1int
        } else {
            0
        });
        if t[0] == c && l == k {
            assert(t =~= at);
        }
        let e = upsampled_element(g, x, m, s, idx[0], t[0], idx[2] + t[1] - (n - 1 - p));
        assert(e * 0 == 0);
    }
    lemma_nested_of_one(m, dims, f, at);
    let y = idx[2] - k + p;
    assert(idx[2] + at[1] - (n - 1 - p) == y);
    assert(n - 1 - at[1] == k);
    let e = upsampled_element(g, x, m, s, idx[0], c, y);
    assert(at_three(g, w, m, c, idx[1], k) == 1);
    assert(e * 1 == e);
    assert(conv.result(g, x, m, idx) == e);
    let len = g[x].dims[2] as int;
    assert forall|a: int| 0 <= a < len && idx[2] == a * s + k - p implies conv.result(
        g,
        x,
        m,
        idx,
    ) == #[trigger] at_three(g, x, m, idx[0], c, a) by {
        assert(y == a * s);
        vstd::arithmetic::div_mod::lemma_fundamental_div_mod_converse(y, s, a, 0);
        assert(0 <= a * s <= (len - 1) * s) by (nonlinear_arith)
            requires
                0 <= a <= len - 1,
                s >= 1,
        ;
    }
    if forall|a: int| 0 <= a < len ==> idx[2] != #[trigger] (a * s) + k - p {
        if 0 <= y < (len - 1) * s + 1 && y % s == 0 {
            let a = y / s;
            vstd::arithmetic::div_mod::lemma_fundamental_div_mod(y, s);
            vstd::arithmetic::div_mod::lemma_div_pos_is_pos(y, s);
            assert(a * s == s * a) by (nonlinear_arith);
            assert(a < len) by (nonlinear_arith)
                requires
                    a * s == y,
                    y <= (len - 1) * s,
                    s >= 1,
            ;
            assert(idx[2] == a * s + k - p);
        }
    }
}

/// A transposed convolution with a bias gives what it gives without, plus the bias of the
/// output channel.
pub proof fn law_transposed_bias_is_added(
    conv: ConvTranspose1d,
    g: Seq<NodeView>,
    x: int,
    m: Model,
    idx: Seq<int>,
    bias: GraphTensor,
)
    requires
        conv.bias == Some(bias),
    ensures
        conv.result(g, x, m, idx) == (m.plus)(
            (ConvTranspose1d { bias: None, ..conv }).result(g, x, m, idx),
            element(g, bias.id as int, m, seq![idx[1]]),
        ),
{
}

} // verus!
