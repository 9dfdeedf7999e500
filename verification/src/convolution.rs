//! Convolution layers, built from windows, products and sums.

use crate::tensor::{copy_dims, product_of, window_count, Graph, GraphTensor};
#[allow(unused_imports)]
use crate::tensor::{
    element, extends, inside, is_order, lemma_nested_same, lemma_product_positive,
    lemma_product_step, moved_back, nested_sum, permuted_dims, place_of, product, product_fits,
    reach_of, shifted, tail_sum, unmerged, unpermuted, unsplit, window_place, windows, Model,
    NodeView, Op,
};
use vstd::prelude::*;

verus! {

/// The place in a row of what stands at `a` and then, along axes of the sizes in
/// `kernel`, at `k`.
pub open spec fn flat(a: int, kernel: Seq<usize>, k: Seq<int>) -> int
    decreases kernel.len(),
{
    if kernel.len() == 0 {
        a
    } else {
        flat(a * kernel[0] + k[0], kernel.drop_first(), k.drop_first())
    }
}

/// The element of a tensor at a place, and zero outside of it.
pub open spec fn padded_element(g: Seq<NodeView>, i: int, m: Model, place: Seq<int>) -> int {
    if inside(place, g[i].dims) {
        element(g, i, m, place)
    } else {
        m.zero
    }
}

/// The same number over and over, and after that some values.
pub open spec fn after_fill(fill: usize, n: int, values: Seq<usize>) -> Seq<usize> {
    Seq::new(n as nat, |q: int| fill) + values
}

/// The numbers from `from` to before `to`.
pub open spec fn numbers(from: int, to: int) -> Seq<usize> {
    Seq::new((to - from) as nat, |q: int| (from + q) as usize)
}

/// How windows lie along the spatial axes.
pub open spec fn spatial_windows(
    dims: Seq<usize>,
    kernel: Seq<usize>,
    stride: Seq<usize>,
    dilation: Seq<usize>,
    padding: Seq<usize>,
) -> Seq<usize> {
    Seq::new(
        kernel.len(),
        |q: int|
            windows(
                dims[q] + 2 * padding[q],
                kernel[q] as int,
                stride[q] as int,
                dilation[q] as int,
            ) as usize,
    )
}

/// Whether windows fit along the spatial axes.
pub open spec fn windows_fit(
    dims: Seq<usize>,
    kernel: Seq<usize>,
    stride: Seq<usize>,
    dilation: Seq<usize>,
    padding: Seq<usize>,
) -> bool {
    &&& dims.len() == kernel.len()
    &&& stride.len() == kernel.len()
    &&& dilation.len() == kernel.len()
    &&& padding.len() == kernel.len()
    &&& forall|q: int|
        0 <= q < kernel.len() ==> #[trigger] kernel[q] >= 1 && stride[q] >= 1 && reach_of(
            kernel[q] as int,
            dilation[q] as int,
        ) <= dims[q] + 2 * padding[q] <= usize::MAX
}

fn push_fill(fill: usize, n: usize, values: &Vec<usize>) -> (r: Vec<usize>)
    ensures
        r@ == after_fill(fill, n as int, values@),
{
    let mut r: Vec<usize> = Vec::new();
    let mut i: usize = 0;
    while i < n
        invariant
            i <= n,
            r@ == Seq::new(i as nat, |q: int| fill),
        decreases n - i,
    {
        r.push(fill);
        proof {
            assert(r@ =~= Seq::new((i + 1) as nat, |q: int| fill));
        }
        i = i + 1;
    }
    let ghost first = r@;
    let mut j: usize = 0;
    while j < values.len()
        invariant
            j <= values@.len(),
            r@ == first + values@.take(j as int),
        decreases values@.len() - j,
    {
        r.push(values[j]);
        proof {
            assert(r@ =~= first + values@.take(j + 1));
        }
        j = j + 1;
    }
    proof {
        assert(r@ =~= after_fill(fill, n as int, values@));
    }
    r
}

fn push_numbers(v: &mut Vec<usize>, from: usize, to: usize)
    requires
        from <= to,
    ensures
        final(v)@ == old(v)@ + numbers(from as int, to as int),
{
    let ghost first = v@;
    let mut i: usize = from;
    while i < to
        invariant
            from <= i <= to,
            v@ == first + numbers(from as int, i as int),
        decreases to - i,
    {
        v.push(i);
        proof {
            assert(v@ =~= first + numbers(from as int, i + 1));
        }
        i = i + 1;
    }
}

/// The axes of windows: batch, places of the window, channel, the window, and last the
/// axes of the window that have size 1.
pub open spec fn window_order(batch: int, spatial: int) -> Seq<usize> {
    let rank = batch + 1 + spatial;
    numbers(0, batch) + numbers(batch + 1, rank) + numbers(batch, batch + 1) + numbers(
        rank + batch + 1,
        2 * rank,
    ) + numbers(rank, rank + batch + 1)
}

/// Where an axis of `window_order` stands before it is moved.
proof fn lemma_window_order(batch: int, spatial: int)
    requires
        0 <= batch,
        0 <= spatial,
        2 * (batch + 1 + spatial) <= usize::MAX,
    ensures
        is_order(window_order(batch, spatial), (2 * (batch + 1 + spatial)) as nat),
        forall|q: int|
            0 <= q < 2 * (batch + 1 + spatial) ==> #[trigger] place_of(
                window_order(batch, spatial),
                q,
            ) == window_axis(batch, spatial, q),
{
    let rank = batch + 1 + spatial;
    let order = window_order(batch, spatial);
    assert(order.len() == 2 * rank);
    assert forall|i: int| 0 <= i < 2 * rank implies #[trigger] order[i] == axis_at(
        batch,
        spatial,
        i,
    ) by {}
    assert forall|i: int, j: int| 0 <= i < 2 * rank && 0 <= j < 2 * rank && i != j implies order[i]
        != order[j] by {}
    assert forall|q: int| 0 <= q < 2 * rank implies #[trigger] place_of(order, q) == window_axis(
        batch,
        spatial,
        q,
    ) by {
        let w = window_axis(batch, spatial, q);
        assert(0 <= w < order.len() && order[w] == q);
        let p = place_of(order, q);
        assert(0 <= p < order.len() && order[p] == q);
    }
}

/// The axis that stands at `i` in `window_order`.
spec fn axis_at(batch: int, spatial: int, i: int) -> int {
    let rank = batch + 1 + spatial;
    if i < batch {
        i
    } else if i < batch + spatial {
        i + 1
    } else if i == batch + spatial {
        batch
    } else if i < rank + spatial {
        i + batch + 1
    } else {
        i - spatial
    }
}

/// Where the axis `q` stands in `window_order`.
spec fn window_axis(batch: int, spatial: int, q: int) -> int {
    let rank = batch + 1 + spatial;
    if q < batch {
        q
    } else if q == batch {
        batch + spatial
    } else if q < rank {
        q - 1
    } else if q < rank + batch + 1 {
        q + spatial
    } else {
        q - batch - 1
    }
}

/// The place in the input that a place among the patches comes from.
pub open spec fn patch_place(
    idx: Seq<int>,
    batch: int,
    spatial: int,
    stride: Seq<usize>,
    dilation: Seq<usize>,
    padding: Seq<usize>,
) -> Seq<int> {
    idx.take(batch).push(idx[batch + spatial]) + Seq::new(
        spatial as nat,
        |q: int|
            idx[batch + q] * stride[q] + idx[batch + spatial + 1 + q] * dilation[q] - padding[q],
    )
}

#[verifier::rlimit(50)]
proof fn lemma_patch_place(
    idx: Seq<int>,
    batch: int,
    spatial: int,
    stride: Seq<usize>,
    dilation: Seq<usize>,
    padding: Seq<usize>,
)
    requires
        0 <= batch,
        0 <= spatial,
        2 * (batch + 1 + spatial) <= usize::MAX,
        stride.len() == spatial,
        dilation.len() == spatial,
        padding.len() == spatial,
        idx.len() == batch + spatial + 1 + spatial,
    ensures
        ({
            let rank = batch + 1 + spatial;
            let full = idx + Seq::new((batch + 1) as nat, |q: int| 0int);
            let window = unpermuted(window_order(batch, spatial), full);
            let place = window_place(
                window,
                rank as nat,
                after_fill(1, batch + 1, stride),
                after_fill(1, batch + 1, dilation),
            );
            moved_back(place, after_fill(0, batch + 1, padding)) == patch_place(
                idx,
                batch,
                spatial,
                stride,
                dilation,
                padding,
            )
        }),
{
    let rank = batch + 1 + spatial;
    let order = window_order(batch, spatial);
    let full = idx + Seq::new((batch + 1) as nat, |q: int| 0int);
    lemma_window_order(batch, spatial);
    let window = unpermuted(order, full);
    let strides = after_fill(1, batch + 1, stride);
    let dilations = after_fill(1, batch + 1, dilation);
    let place = window_place(window, rank as nat, strides, dilations);
    let back = moved_back(place, after_fill(0, batch + 1, padding));
    let want = patch_place(idx, batch, spatial, stride, dilation, padding);
    assert(back.len() == want.len());
    assert forall|q: int| 0 <= q < rank implies #[trigger] back[q] == want[q] by {
        assert(window[q] == full[window_axis(batch, spatial, q)]) by {
            assert(place_of(order, q) == window_axis(batch, spatial, q));
        }
        assert(window[rank + q] == full[window_axis(batch, spatial, rank + q)]) by {
            assert(place_of(order, rank + q) == window_axis(batch, spatial, rank + q));
        }
        assert(place[q] == window[q] * strides[q] + window[rank + q] * dilations[q]);
        if q <= batch {
            assert(strides[q] == 1 && dilations[q] == 1);
            assert(window[rank + q] == 0);
            assert(window[q] * 1 + 0 * 1 == window[q]);
        } else {
            let s = q - batch - 1;
            assert(strides[q] == stride[s] && dilations[q] == dilation[s]);
            assert(window[q] == idx[batch + s]);
            assert(window[rank + q] == idx[batch + spatial + 1 + s]);
        }
    }
    assert(back =~= want);
}

proof fn lemma_unit_windows(dim: int)
    requires
        dim >= 0,
    ensures
        windows(dim, 1, 1, 1) == dim,
{
    assert(reach_of(1, 1) == 1) by (nonlinear_arith);
    assert((dim - 1) / 1 == dim - 1);
}

/// The patches of a tensor that windows see, with axes for the batch, the places of the
/// window, the channel, and the window.
#[verifier::rlimit(50)]
fn window_patches(
    cx: &mut Graph,
    input: GraphTensor,
    batch: usize,
    kernel: &Vec<usize>,
    stride: &Vec<usize>,
    dilation: &Vec<usize>,
    padding: &Vec<usize>,
) -> (r: GraphTensor)
    requires
        old(cx).has(input),
        old(cx).shape(input).len() == batch + 1 + kernel@.len(),
        2 * old(cx).shape(input).len() <= usize::MAX,
        windows_fit(
            old(cx).shape(input).skip(batch + 1),
            kernel@,
            stride@,
            dilation@,
            padding@,
        ),
    ensures
        extends(old(cx)@, final(cx)@),
        final(cx).has(r),
        final(cx).shape(r) == old(cx).shape(input).take(batch as int) + spatial_windows(
            old(cx).shape(input).skip(batch + 1),
            kernel@,
            stride@,
            dilation@,
            padding@,
        ) + seq![old(cx).shape(input)[batch as int]] + kernel@,
        forall|m: Model, idx: Seq<int>|
            idx.len() == batch + 1 + 2 * kernel@.len() ==> #[trigger] element(
                final(cx)@,
                r.id as int,
                m,
                idx,
            ) == padded_element(
                old(cx)@,
                input.id as int,
                m,
                patch_place(
                    idx,
                    batch as int,
                    kernel@.len() as int,
                    stride@,
                    dilation@,
                    padding@,
                ),
            ),
{
    let ghost g0 = cx@;
    let ghost dims = cx.shape(input);
    let ghost inner = dims.skip(batch + 1);
    let rank: usize = cx.dims(input).len();
    let spatial: usize = kernel.len();
    let lead: usize = batch + 1;
    let before = push_fill(0, lead, padding);
    let after = push_fill(0, lead, padding);
    proof {
        assert forall|q: int| 0 <= q < rank implies dims[q] + #[trigger] before@[q] + after@[q]
            <= usize::MAX by {
            if q > batch {
                assert(inner[q - lead] == dims[q]);
                assert(kernel@[q - lead] >= 1);
            }
        }
    }
    let padded = cx.pad(input, before, after);
    let ghost g1 = cx@;
    let ghost pdims = cx.shape(padded);
    let ks = push_fill(1, lead, kernel);
    let ss = push_fill(1, lead, stride);
    let ds = push_fill(1, lead, dilation);
    proof {
        assert forall|q: int| 0 <= q < ks@.len() implies #[trigger] ks@[q] >= 1 by {
            if q > batch {
                assert(kernel@[q - lead] >= 1);
            }
        }
        assert forall|q: int| 0 <= q < ss@.len() implies #[trigger] ss@[q] >= 1 by {
            if q > batch {
                assert(kernel@[q - lead] >= 1);
            }
        }
    }
    let unfolded = cx.unfold(padded, ks, ss, ds);
    let ghost g2 = cx@;
    let ghost udims = cx.shape(unfolded);
    let mut order: Vec<usize> = Vec::new();
    push_numbers(&mut order, 0, batch);
    push_numbers(&mut order, lead, rank);
    push_numbers(&mut order, batch, lead);
    push_numbers(&mut order, rank + lead, rank + rank);
    push_numbers(&mut order, rank, rank + lead);
    proof {
        assert(order@ =~= window_order(batch as int, spatial as int));
        lemma_window_order(batch as int, spatial as int);
    }
    let ghost ord = order@;
    let mut cur = cx.permute(unfolded, order);
    let ghost g3 = cx@;
    let ghost permuted = cur;
    let ghost wdims = cx.shape(cur);
    let ghost want = dims.take(batch as int) + spatial_windows(
        inner,
        kernel@,
        stride@,
        dilation@,
        padding@,
    ) + seq![dims[batch as int]] + kernel@;
    proof {
        assert forall|i: int| 0 <= i < want.len() implies #[trigger] want[i] == wdims[i] by {
            let q = axis_at(batch as int, spatial as int, i);
            assert(ord[i] == q);
            assert(wdims[i] == udims[q]);
            if q <= batch {
                assert(pdims[q] == dims[q]);
                assert(ds@[q] == 1 && ks@[q] == 1 && ss@[q] == 1);
                lemma_unit_windows(dims[q] as int);
                assert(udims[q] == windows(dims[q] as int, 1, 1, 1) as usize);
                assert(want[i] == dims[q]);
            } else if q < rank {
                let s = q - lead;
                assert(inner[s] == dims[q]);
                assert(kernel@[s] >= 1);
                assert(pdims[q] == dims[q] + 2 * padding@[s]);
                assert(ks@[q] == kernel@[s] && ss@[q] == stride@[s] && ds@[q] == dilation@[s]);
                assert(want[i] == spatial_windows(
                    inner,
                    kernel@,
                    stride@,
                    dilation@,
                    padding@,
                )[s]);
            } else {
                assert(udims[q] == ks@[q - rank]);
                assert(want[i] == kernel@[q - rank - lead]);
            }
        }
        assert forall|i: int| want.len() <= i < 2 * rank implies #[trigger] wdims[i] == 1 by {
            let q = axis_at(batch as int, spatial as int, i);
            assert(ord[i] == q);
            assert(wdims[i] == udims[q]);
            assert(udims[q] == ks@[q - rank]);
        }
        assert(wdims.take(2 * rank - 0) =~= wdims);
        assert forall|m: Model, idx: Seq<int>| idx.len() == 2 * rank implies #[trigger] element(
            cx@,
            cur.id as int,
            m,
            idx,
        ) == element(g3, permuted.id as int, m, idx + Seq::new(0, |q: int| 0int)) by {
            assert(idx + Seq::new(0, |q: int| 0int) =~= idx);
        }
    }
    let mut i: usize = 0;
    while i < lead
        invariant
            i <= lead,
            lead == batch + 1,
            rank == batch + 1 + spatial,
            2 * rank <= usize::MAX,
            extends(g3, cx@),
            cx.has(cur),
            wdims.len() == 2 * rank,
            cx.shape(cur) == wdims.take(2 * rank - i),
            forall|i: int| rank + spatial <= i < 2 * rank ==> #[trigger] wdims[i] == 1,
            forall|m: Model, idx: Seq<int>|
                idx.len() == 2 * rank - i ==> #[trigger] element(cx@, cur.id as int, m, idx)
                    == element(
                    g3,
                    permuted.id as int,
                    m,
                    idx + Seq::new(i as nat, |q: int| 0int),
                ),
        decreases lead - i,
    {
        let ghost last = cur;
        let ghost g = cx@;
        let axis: usize = rank + (rank - i) - 1;
        assert(wdims[axis as int] == 1);
        cur = cx.squeeze(cur, axis);
        proof {
            assert(wdims.take(2 * rank - i).remove(axis as int) =~= wdims.take(
                2 * rank - (i + 1),
            ));
            assert forall|m: Model, idx: Seq<int>|
                idx.len() == 2 * rank - (i + 1) implies #[trigger] element(
                cx@,
                cur.id as int,
                m,
                idx,
            ) == element(
                g3,
                permuted.id as int,
                m,
                idx + Seq::new((i + 1) as nat, |q: int| 0int),
            ) by {
                assert(element(cx@, cur.id as int, m, idx) == element(
                    g,
                    last.id as int,
                    m,
                    idx.insert(axis as int, 0),
                ));
                assert(idx.insert(axis as int, 0) + Seq::new(i as nat, |q: int| 0int) =~= idx
                    + Seq::new((i + 1) as nat, |q: int| 0int));
            }
        }
        i = i + 1;
    }
    proof {
        assert(wdims.take(2 * rank - lead) =~= want);
        assert forall|m: Model, idx: Seq<int>|
            idx.len() == batch + 1 + 2 * spatial implies #[trigger] element(
            cx@,
            cur.id as int,
            m,
            idx,
        ) == padded_element(
            g0,
            input.id as int,
            m,
            patch_place(idx, batch as int, spatial as int, stride@, dilation@, padding@),
        ) by {
            let full = idx + Seq::new(lead as nat, |q: int| 0int);
            assert(element(cx@, cur.id as int, m, idx) == element(
                g3,
                permuted.id as int,
                m,
                full,
            ));
            lemma_patch_place(idx, batch as int, spatial as int, stride@, dilation@, padding@);
            let window = unpermuted(ord, full);
            assert(element(g3, permuted.id as int, m, full) == element(
                g2,
                unfolded.id as int,
                m,
                window,
            ));
            let place = window_place(window, rank as nat, ss@, ds@);
            assert(element(g2, unfolded.id as int, m, window) == element(
                g1,
                padded.id as int,
                m,
                place,
            ));
        }
    }
    cur
}

/// The weight of a layer for output channel `o`, input channel and place in the window
/// `t`. A weight with two axes has all but the output channel in a row.
pub open spec fn weight_element(
    g: Seq<NodeView>,
    w: int,
    m: Model,
    kernel: Seq<usize>,
    o: int,
    t: Seq<int>,
) -> int {
    if g[w].dims.len() == 2 {
        element(g, w, m, seq![o, flat(t[0], kernel, t.skip(1))])
    } else {
        element(g, w, m, seq![o] + t)
    }
}

/// Whether a weight has the dimensions that a convolution asks for.
pub open spec fn weight_fits(
    dims: Seq<usize>,
    ch_in: usize,
    ch_out: usize,
    kernel: Seq<usize>,
) -> bool {
    if dims.len() == 2 {
        dims[0] == ch_out && dims[1] == ch_in * product(kernel)
    } else {
        dims == seq![ch_out, ch_in] + kernel
    }
}

/// The weight with an axis for the input channel and for each axis of the window.
#[verifier::rlimit(50)]
fn shaped_weight(
    cx: &mut Graph,
    weight: GraphTensor,
    ch_in: usize,
    ch_out: usize,
    kernel: &Vec<usize>,
) -> (r: GraphTensor)
    requires
        old(cx).has(weight),
        weight_fits(old(cx).shape(weight), ch_in, ch_out, kernel@),
        forall|q: int| 0 <= q < kernel@.len() ==> #[trigger] kernel@[q] >= 1,
        kernel@.len() >= 1,
    ensures
        extends(old(cx)@, final(cx)@),
        final(cx).has(r),
        final(cx).shape(r) == seq![ch_out, ch_in] + kernel@,
        forall|m: Model, idx: Seq<int>|
            idx.len() == kernel@.len() + 2 ==> #[trigger] element(final(cx)@, r.id as int, m, idx)
                == weight_element(
                old(cx)@,
                weight.id as int,
                m,
                kernel@,
                idx[0],
                idx.skip(1),
            ),
{
    let ghost g0 = cx@;
    if cx.dims(weight).len() != 2 {
        proof {
            assert forall|m: Model, idx: Seq<int>|
                idx.len() == kernel@.len() + 2 implies #[trigger] element(
                cx@,
                weight.id as int,
                m,
                idx,
            ) == weight_element(g0, weight.id as int, m, kernel@, idx[0], idx.skip(1)) by {
                assert(seq![idx[0]] + idx.skip(1) =~= idx);
            }
        }
        return weight;
    }
    let spatial: usize = kernel.len();
    let mut cur = weight;
    let mut r: usize = spatial;
    proof {
        assert(kernel@.take(spatial as int) =~= kernel@);
        assert(kernel@.skip(spatial as int) =~= Seq::<usize>::empty());
        assert(cx.shape(cur) =~= seq![ch_out, cx.shape(cur)[1]] + kernel@.skip(spatial as int));
        assert forall|m: Model, idx: Seq<int>| idx.len() == 2 implies #[trigger] element(
            cx@,
            cur.id as int,
            m,
            idx,
        ) == element(
            g0,
            weight.id as int,
            m,
            seq![idx[0], flat(idx[1], kernel@.skip(spatial as int), idx.skip(2))],
        ) by {
            assert(seq![idx[0], idx[1]] =~= idx);
        }
    }
    while r > 0
        invariant
            r <= spatial == kernel@.len(),
            forall|q: int| 0 <= q < kernel@.len() ==> #[trigger] kernel@[q] >= 1,
            extends(g0, cx@),
            cx.has(cur),
            cx.shape(cur).len() == 2 + spatial - r,
            cx.shape(cur)[1] == ch_in * product(kernel@.take(r as int)),
            cx.shape(cur) == seq![ch_out, cx.shape(cur)[1]] + kernel@.skip(r as int),
            forall|m: Model, idx: Seq<int>|
                idx.len() == 2 + spatial - r ==> #[trigger] element(cx@, cur.id as int, m, idx)
                    == element(
                    g0,
                    weight.id as int,
                    m,
                    seq![idx[0], flat(idx[1], kernel@.skip(r as int), idx.skip(2))],
                ),
        decreases r,
    {
        let ghost last = cur;
        let ghost g = cx@;
        let ghost shape = cx.shape(cur);
        let k: usize = kernel[r - 1];
        proof {
            lemma_product_step(kernel@, r as int);
            assert(kernel@[r - 1] >= 1);
            let p = product(kernel@.take(r - 1));
            let c = ch_in as int;
            let kk = k as int;
            let shorter = kernel@.take(r - 1);
            assert forall|q: int| 0 <= q < shorter.len() implies #[trigger] shorter[q] >= 1 by {
                assert(shorter[q] == kernel@[q]);
            }
            lemma_product_positive(shorter);
            assert(0 <= c * p) by (nonlinear_arith)
                requires
                    c >= 0,
                    p >= 1,
            ;
            assert((c * (p * kk)) % kk == 0 && (c * (p * kk)) / kk == c * p) by {
                assert(c * (p * kk) == (c * p) * kk) by (nonlinear_arith);
                vstd::arithmetic::div_mod::lemma_mod_multiples_basic(c * p, kk);
                vstd::arithmetic::div_mod::lemma_div_by_multiple(c * p, kk);
            }
        }
        cur = cx.split_dims(cur, 1, k);
        proof {
            let rest = kernel@.skip(r as int);
            let more = kernel@.skip(r - 1);
            assert(more.drop_first() =~= rest);
            assert(more[0] == k);
            let quotient = cx.shape(cur)[1];
            assert(cx.shape(cur) =~= seq![ch_out, quotient] + more);
            assert forall|m: Model, idx: Seq<int>|
                idx.len() == 2 + spatial - (r - 1) implies #[trigger] element(
                cx@,
                cur.id as int,
                m,
                idx,
            ) == element(
                g0,
                weight.id as int,
                m,
                seq![idx[0], flat(idx[1], more, idx.skip(2))],
            ) by {
                let before = unsplit(idx, 1, k as int);
                assert(element(cx@, cur.id as int, m, idx) == element(
                    g,
                    last.id as int,
                    m,
                    before,
                ));
                assert(before[0] == idx[0]);
                assert(before[1] == idx[1] * k + idx[2]);
                assert(before.skip(2) =~= idx.skip(2).drop_first());
                assert(idx.skip(2)[0] == idx[2]);
                assert(flat(idx[1], more, idx.skip(2)) == flat(
                    idx[1] * more[0] + idx.skip(2)[0],
                    more.drop_first(),
                    idx.skip(2).drop_first(),
                ));
            }
        }
        r = r - 1;
    }
    proof {
        assert(kernel@.take(0) =~= Seq::<usize>::empty());
        assert(product(kernel@.take(0)) == 1);
        assert(ch_in * 1 == ch_in);
        assert(kernel@.skip(0) =~= kernel@);
        assert forall|m: Model, idx: Seq<int>|
            idx.len() == kernel@.len() + 2 implies #[trigger] element(cx@, cur.id as int, m, idx)
            == weight_element(g0, weight.id as int, m, kernel@, idx[0], idx.skip(1)) by {
            assert(idx.skip(1)[0] == idx[1]);
            assert(idx.skip(1).skip(1) =~= idx.skip(2));
        }
    }
    cur
}

/// The place in the input that the window at `idx` sees at `t`: channel and place in the
/// window.
pub open spec fn tap(
    idx: Seq<int>,
    batch: int,
    channel: int,
    k: Seq<int>,
    stride: Seq<usize>,
    dilation: Seq<usize>,
    padding: Seq<usize>,
) -> Seq<int> {
    idx.take(batch).push(channel) + Seq::new(
        k.len(),
        |q: int| idx[batch + 1 + q] * stride[q] + k[q] * dilation[q] - padding[q],
    )
}

/// What the window at `idx` comes to: the sum, over the input channels from `first` on
/// and the places in the window, of input times weight.
pub open spec fn window_sum(
    g: Seq<NodeView>,
    x: int,
    w: int,
    m: Model,
    idx: Seq<int>,
    batch: int,
    first: int,
    channels: usize,
    kernel: Seq<usize>,
    stride: Seq<usize>,
    dilation: Seq<usize>,
    padding: Seq<usize>,
) -> int {
    nested_sum(
        m,
        seq![channels] + kernel,
        |t: Seq<int>|
            (m.times)(
                padded_element(
                    g,
                    x,
                    m,
                    tap(idx, batch, first + t[0], t.skip(1), stride, dilation, padding),
                ),
                weight_element(g, w, m, kernel, idx[batch], t),
            ),
    )
}

/// The dimensions of a convolution's result.
pub open spec fn conv_dims(
    dims: Seq<usize>,
    batch: int,
    ch_out: usize,
    kernel: Seq<usize>,
    stride: Seq<usize>,
    dilation: Seq<usize>,
    padding: Seq<usize>,
) -> Seq<usize> {
    dims.take(batch) + seq![ch_out] + spatial_windows(
        dims.skip(batch + 1),
        kernel,
        stride,
        dilation,
        padding,
    )
}

/// The channel's axis put before the spatial axes.
pub open spec fn channel_order(batch: int, spatial: int) -> Seq<usize> {
    numbers(0, batch) + numbers(batch + spatial, batch + spatial + 1) + numbers(
        batch,
        batch + spatial,
    )
}

proof fn lemma_channel_order(batch: int, spatial: int)
    requires
        0 <= batch,
        0 <= spatial,
        batch + 1 + spatial <= usize::MAX,
    ensures
        is_order(channel_order(batch, spatial), (batch + 1 + spatial) as nat),
        forall|idx: Seq<int>|
            idx.len() == batch + 1 + spatial ==> #[trigger] unpermuted(
                channel_order(batch, spatial),
                idx,
            ) == idx.take(batch) + idx.skip(batch + 1) + seq![idx[batch]],
{
    let rank = batch + 1 + spatial;
    let order = channel_order(batch, spatial);
    assert(order.len() == rank);
    assert forall|i: int| 0 <= i < rank implies #[trigger] order[i] == if i < batch {
        i
    } else if i == batch {
        batch + spatial
    } else {
        i - 1
    } by {}
    assert forall|idx: Seq<int>| idx.len() == rank implies #[trigger] unpermuted(order, idx)
        == idx.take(batch) + idx.skip(batch + 1) + seq![idx[batch]] by {
        let want = idx.take(batch) + idx.skip(batch + 1) + seq![idx[batch]];
        assert forall|q: int| 0 <= q < rank implies unpermuted(order, idx)[q] == want[q] by {
            let p = place_of(order, q);
            let w = if q < batch {
                q
            } else if q == batch + spatial {
                batch
            } else {
                q + 1
            };
            assert(0 <= w < order.len() && order[w] == q);
            assert(0 <= p < order.len() && order[p] == q);
            assert(p == w);
        }
        assert(unpermuted(order, idx) =~= want);
    }
}

/// Input times weight for every place of the windows, output channel, input channel and
/// place in the window.
#[verifier::rlimit(50)]
fn window_products(
    cx: &mut Graph,
    input: GraphTensor,
    weight: GraphTensor,
    ch_in: usize,
    ch_out: usize,
    kernel: &Vec<usize>,
    stride: &Vec<usize>,
    dilation: &Vec<usize>,
    padding: &Vec<usize>,
    batch: usize,
) -> (r: GraphTensor)
    requires
        old(cx).has(input),
        old(cx).has(weight),
        kernel@.len() >= 1,
        old(cx).shape(input).len() == batch + 1 + kernel@.len(),
        2 * old(cx).shape(input).len() <= usize::MAX,
        old(cx).shape(input)[batch as int] == ch_in,
        weight_fits(old(cx).shape(weight), ch_in, ch_out, kernel@),
        windows_fit(
            old(cx).shape(input).skip(batch + 1),
            kernel@,
            stride@,
            dilation@,
            padding@,
        ),
    ensures
        extends(old(cx)@, final(cx)@),
        final(cx).has(r),
        final(cx).shape(r) == old(cx).shape(input).take(batch as int) + spatial_windows(
            old(cx).shape(input).skip(batch + 1),
            kernel@,
            stride@,
            dilation@,
            padding@,
        ) + (seq![ch_out, ch_in] + kernel@),
        forall|m: Model, idx: Seq<int>|
            idx.len() == batch + 2 + 2 * kernel@.len() ==> #[trigger] element(
                final(cx)@,
                r.id as int,
                m,
                idx,
            ) == (m.times)(
                padded_element(
                    old(cx)@,
                    input.id as int,
                    m,
                    patch_place(
                        idx.remove(batch + kernel@.len()),
                        batch as int,
                        kernel@.len() as int,
                        stride@,
                        dilation@,
                        padding@,
                    ),
                ),
                weight_element(
                    old(cx)@,
                    weight.id as int,
                    m,
                    kernel@,
                    idx[batch + kernel@.len()],
                    idx.skip(batch + kernel@.len() + 1),
                ),
            ),
{
    let ghost g0 = cx@;
    let spatial: usize = kernel.len();
    let rank: usize = cx.dims(input).len();
    let ghost dims = cx.shape(input);
    let shaped = shaped_weight(cx, weight, ch_in, ch_out, kernel);
    let ghost g1 = cx@;
    let patches = window_patches(cx, input, batch, kernel, stride, dilation, padding);
    let ghost g2 = cx@;
    let ghost places = spatial_windows(dims.skip(batch + 1), kernel@, stride@, dilation@, padding@);
    let ghost lead_dims = dims.take(batch as int) + places;
    let ghost pdims = cx.shape(patches);
    let patch_dims = copy_dims(cx.dims(patches));
    let lead: usize = batch + spatial;
    let repeated = cx.expand_dim(patches, lead, ch_out);
    let ghost g3 = cx@;
    let weights = cx.expand_lhs(shaped, &patch_dims, lead);
    let ghost g4 = cx@;
    proof {
        assert(lead_dims.len() == lead);
        assert(pdims =~= lead_dims + (seq![ch_in] + kernel@));
        assert(pdims.take(lead as int) =~= lead_dims);
        assert(pdims.insert(lead as int, ch_out) =~= lead_dims + (seq![ch_out, ch_in] + kernel@));
        assert(cx.shape(repeated) =~= cx.shape(weights));
    }
    let r = cx.times(repeated, weights);
    proof {
        assert forall|m: Model, idx: Seq<int>|
            idx.len() == batch + 2 + 2 * spatial implies #[trigger] element(
            cx@,
            r.id as int,
            m,
            idx,
        ) == (m.times)(
            padded_element(
                g0,
                input.id as int,
                m,
                patch_place(
                    idx.remove(lead as int),
                    batch as int,
                    spatial as int,
                    stride@,
                    dilation@,
                    padding@,
                ),
            ),
            weight_element(
                g0,
                weight.id as int,
                m,
                kernel@,
                idx[lead as int],
                idx.skip(lead + 1),
            ),
        ) by {
            let place = idx.remove(lead as int);
            let from = patch_place(
                place,
                batch as int,
                spatial as int,
                stride@,
                dilation@,
                padding@,
            );
            let at = idx.skip(lead as int);
            assert(element(g4, repeated.id as int, m, idx) == element(
                g2,
                patches.id as int,
                m,
                place,
            )) by {
                assert(element(g4, repeated.id as int, m, idx) == element(
                    g3,
                    repeated.id as int,
                    m,
                    idx,
                ));
            }
            assert(element(g2, patches.id as int, m, place) == padded_element(
                g1,
                input.id as int,
                m,
                from,
            ));
            assert(element(g1, input.id as int, m, from) == element(
                g0,
                input.id as int,
                m,
                from,
            ));
            assert(element(g4, weights.id as int, m, idx) == element(
                g3,
                shaped.id as int,
                m,
                at,
            ));
            assert(element(g3, shaped.id as int, m, at) == element(g2, shaped.id as int, m, at));
            assert(element(g2, shaped.id as int, m, at) == element(g1, shaped.id as int, m, at));
            assert(at.skip(1) =~= idx.skip(lead + 1));
        }
    }
    r
}

proof fn lemma_conv_dims(
    dims: Seq<usize>,
    batch: int,
    ch_out: usize,
    kernel: Seq<usize>,
    stride: Seq<usize>,
    dilation: Seq<usize>,
    padding: Seq<usize>,
)
    requires
        0 <= batch,
        dims.len() == batch + 1 + kernel.len(),
        dims.len() <= usize::MAX,
    ensures
        permuted_dims(
            dims.take(batch) + spatial_windows(
                dims.skip(batch + 1),
                kernel,
                stride,
                dilation,
                padding,
            ) + seq![ch_out],
            channel_order(batch, kernel.len() as int),
        ) == conv_dims(dims, batch, ch_out, kernel, stride, dilation, padding),
{
    let spatial = kernel.len() as int;
    let places = spatial_windows(dims.skip(batch + 1), kernel, stride, dilation, padding);
    let have = dims.take(batch) + places + seq![ch_out];
    let want = conv_dims(dims, batch, ch_out, kernel, stride, dilation, padding);
    let order = channel_order(batch, spatial);
    let got = permuted_dims(have, order);
    assert(order.len() == batch + 1 + spatial);
    assert forall|i: int| 0 <= i < want.len() implies #[trigger] want[i] == got[i] by {
        assert(got[i] == have[order[i] as int]);
        if i < batch {
            assert(order[i] == i);
        } else if i == batch {
            assert(order[i] == batch + spatial);
        } else {
            assert(order[i] == i - 1);
            assert(want[i] == places[i - batch - 1]);
        }
    }
    assert(got =~= want);
}

#[verifier::rlimit(50)]
proof fn lemma_sum_of_products(
    g0: Seq<NodeView>,
    g: Seq<NodeView>,
    x: int,
    w: int,
    products: int,
    m: Model,
    idx: Seq<int>,
    batch: int,
    ch_in: usize,
    kernel: Seq<usize>,
    stride: Seq<usize>,
    dilation: Seq<usize>,
    padding: Seq<usize>,
)
    requires
        0 <= batch,
        idx.len() == batch + 1 + kernel.len(),
        forall|p: Seq<int>|
            p.len() == batch + 2 + 2 * kernel.len() ==> #[trigger] element(g, products, m, p) == (
            m.times)(
                padded_element(
                    g0,
                    x,
                    m,
                    patch_place(
                        p.remove(batch + kernel.len()),
                        batch,
                        kernel.len() as int,
                        stride,
                        dilation,
                        padding,
                    ),
                ),
                weight_element(
                    g0,
                    w,
                    m,
                    kernel,
                    p[batch + kernel.len()],
                    p.skip(batch + kernel.len() + 1),
                ),
            ),
    ensures
        tail_sum(
            g,
            products,
            seq![ch_in] + kernel,
            m,
            idx.take(batch) + idx.skip(batch + 1) + seq![idx[batch]],
        ) == window_sum(
            g0,
            x,
            w,
            m,
            idx,
            batch,
            0,
            ch_in,
            kernel,
            stride,
            dilation,
            padding,
        ),
{
    let spatial = kernel.len() as int;
    let lead = batch + spatial;
    let j = idx.take(batch) + idx.skip(batch + 1) + seq![idx[batch]];
    let tail = seq![ch_in] + kernel;
    let a = |p: Seq<int>| element(g, products, m, j + p);
    let b = |t: Seq<int>|
        (m.times)(
            padded_element(
                g0,
                x,
                m,
                tap(idx, batch, 0 + t[0], t.skip(1), stride, dilation, padding),
            ),
            weight_element(g0, w, m, kernel, idx[batch], t),
        );
    assert forall|t: Seq<int>| inside(t, tail) implies #[trigger] a(t) == b(t) by {
        assert(t.len() == 1 + spatial);
        let full = j + t;
        let from = patch_place(full.remove(lead), batch, spatial, stride, dilation, padding);
        assert(from =~= tap(idx, batch, 0 + t[0], t.skip(1), stride, dilation, padding));
        assert(full.skip(lead + 1) =~= t);
        assert(full[lead] == idx[batch]);
    }
    lemma_nested_same(m, tail, a, b);
}

/// A convolution of one group of channels.
#[verifier::rlimit(50)]
fn conv_forward_unfold(
    cx: &mut Graph,
    input: GraphTensor,
    weight: GraphTensor,
    ch_in: usize,
    ch_out: usize,
    kernel: &Vec<usize>,
    stride: &Vec<usize>,
    dilation: &Vec<usize>,
    padding: &Vec<usize>,
    batch: usize,
) -> (r: GraphTensor)
    requires
        old(cx).has(input),
        old(cx).has(weight),
        kernel@.len() >= 1,
        old(cx).shape(input).len() == batch + 1 + kernel@.len(),
        2 * old(cx).shape(input).len() <= usize::MAX,
        old(cx).shape(input)[batch as int] == ch_in,
        weight_fits(old(cx).shape(weight), ch_in, ch_out, kernel@),
        windows_fit(
            old(cx).shape(input).skip(batch + 1),
            kernel@,
            stride@,
            dilation@,
            padding@,
        ),
    ensures
        extends(old(cx)@, final(cx)@),
        final(cx).has(r),
        final(cx).shape(r) == conv_dims(
            old(cx).shape(input),
            batch as int,
            ch_out,
            kernel@,
            stride@,
            dilation@,
            padding@,
        ),
        forall|m: Model, idx: Seq<int>|
            idx.len() == batch + 1 + kernel@.len() ==> #[trigger] element(
                final(cx)@,
                r.id as int,
                m,
                idx,
            ) == window_sum(
                old(cx)@,
                input.id as int,
                weight.id as int,
                m,
                idx,
                batch as int,
                0,
                ch_in,
                kernel@,
                stride@,
                dilation@,
                padding@,
            ),
{
    let ghost g0 = cx@;
    let spatial: usize = kernel.len();
    let rank: usize = cx.dims(input).len();
    let ghost dims = cx.shape(input);
    let lead: usize = batch + spatial;
    let ghost places = spatial_windows(dims.skip(batch + 1), kernel@, stride@, dilation@, padding@);
    let ghost lead_dims = dims.take(batch as int) + places;
    let products = window_products(
        cx,
        input,
        weight,
        ch_in,
        ch_out,
        kernel,
        stride,
        dilation,
        padding,
        batch,
    );
    let ghost g5 = cx@;
    let sums = cx.sum_last(products, spatial + 1);
    let ghost g6 = cx@;
    proof {
        let all = lead_dims + (seq![ch_out, ch_in] + kernel@);
        assert(all.take(lead + 1) =~= lead_dims + seq![ch_out]);
        assert(all.skip(lead + 1) =~= seq![ch_in] + kernel@);
    }
    let mut order: Vec<usize> = Vec::new();
    push_numbers(&mut order, 0, batch);
    push_numbers(&mut order, lead, lead + 1);
    push_numbers(&mut order, batch, lead);
    proof {
        assert(order@ =~= channel_order(batch as int, spatial as int));
        lemma_channel_order(batch as int, spatial as int);
    }
    let ghost ord = order@;
    let r = cx.permute(sums, order);
    proof {
        lemma_conv_dims(dims, batch as int, ch_out, kernel@, stride@, dilation@, padding@);
        assert forall|m: Model, idx: Seq<int>| idx.len() == rank implies #[trigger] element(
            cx@,
            r.id as int,
            m,
            idx,
        ) == window_sum(
            g0,
            input.id as int,
            weight.id as int,
            m,
            idx,
            batch as int,
            0,
            ch_in,
            kernel@,
            stride@,
            dilation@,
            padding@,
        ) by {
            let j = idx.take(batch as int) + idx.skip(batch + 1) + seq![idx[batch as int]];
            assert(unpermuted(ord, idx) == j);
            assert(element(cx@, r.id as int, m, idx) == element(g6, sums.id as int, m, j));
            let tail = seq![ch_in] + kernel@;
            assert(element(g6, sums.id as int, m, j) == tail_sum(
                g5,
                products.id as int,
                tail,
                m,
                j,
            ));
            lemma_sum_of_products(
                g0,
                g5,
                input.id as int,
                weight.id as int,
                products.id as int,
                m,
                idx,
                batch as int,
                ch_in,
                kernel@,
                stride@,
                dilation@,
                padding@,
            );
        }
    }
    r
}

/// The windows' sums of a group of channels are those of the whole, seen from the group's
/// first channels.
#[verifier::rlimit(50)]
proof fn lemma_group_sum(
    g0: Seq<NodeView>,
    g: Seq<NodeView>,
    x: int,
    xs: int,
    w: int,
    ws: int,
    m: Model,
    idx: Seq<int>,
    batch: int,
    in_start: usize,
    out_start: usize,
    channels: usize,
    kernel: Seq<usize>,
    stride: Seq<usize>,
    dilation: Seq<usize>,
    padding: Seq<usize>,
)
    requires
        0 <= batch,
        idx.len() == batch + 1 + kernel.len(),
        g0[x].dims.len() == batch + 1 + kernel.len(),
        in_start + channels <= g0[x].dims[batch],
        g[xs].dims == g0[x].dims.update(batch, channels),
        g[ws].dims.len() == g0[w].dims.len(),
        forall|p: Seq<int>| #[trigger]
            element(g, xs, m, p) == element(g0, x, m, shifted(p, batch, in_start as int)),
        forall|p: Seq<int>| #[trigger]
            element(g, ws, m, p) == element(g0, w, m, shifted(p, 0, out_start as int)),
    ensures
        window_sum(g, xs, ws, m, idx, batch, 0, channels, kernel, stride, dilation, padding)
            == window_sum(
            g0,
            x,
            w,
            m,
            shifted(idx, batch, out_start as int),
            batch,
            in_start as int,
            channels,
            kernel,
            stride,
            dilation,
            padding,
        ),
{
    let whole = shifted(idx, batch, out_start as int);
    let a = |t: Seq<int>|
        (m.times)(
            padded_element(
                g,
                xs,
                m,
                tap(idx, batch, 0 + t[0], t.skip(1), stride, dilation, padding),
            ),
            weight_element(g, ws, m, kernel, idx[batch], t),
        );
    let b = |t: Seq<int>|
        (m.times)(
            padded_element(
                g0,
                x,
                m,
                tap(whole, batch, in_start + t[0], t.skip(1), stride, dilation, padding),
            ),
            weight_element(g0, w, m, kernel, whole[batch], t),
        );
    let tail = seq![channels] + kernel;
    assert forall|t: Seq<int>| inside(t, tail) implies #[trigger] a(t) == b(t) by {
        let p = tap(idx, batch, 0 + t[0], t.skip(1), stride, dilation, padding);
        let q = tap(whole, batch, in_start + t[0], t.skip(1), stride, dilation, padding);
        assert(q =~= shifted(p, batch, in_start as int));
        assert(0 <= t[0] < tail[0]);
        let dims = g0[x].dims;
        let part = g[xs].dims;
        assert(inside(p, part) == inside(q, dims)) by {
            assert(p[batch] == t[0] && q[batch] == in_start + t[0]);
            if inside(p, part) {
                assert forall|i: int| 0 <= i < dims.len() implies 0 <= #[trigger] q[i] < dims[i] by {
                    if i != batch {
                        assert(q[i] == p[i]);
                        assert(part[i] == dims[i]);
                    }
                }
            }
            if inside(q, dims) {
                assert forall|i: int| 0 <= i < part.len() implies 0 <= #[trigger] p[i] < part[i] by {
                    if i != batch {
                        assert(q[i] == p[i]);
                        assert(part[i] == dims[i]);
                    }
                }
            }
        }
        let o = idx[batch];
        let f = flat(t[0], kernel, t.skip(1));
        assert(shifted(seq![o, f], 0, out_start as int) =~= seq![o + out_start, f]);
        assert(shifted(seq![o] + t, 0, out_start as int) =~= seq![o + out_start] + t);
    }
    lemma_nested_same(m, tail, a, b);
}

/// A bias for every channel, added.
fn add_channel_bias(cx: &mut Graph, out: GraphTensor, bias: GraphTensor, batch: usize) -> (r:
    GraphTensor)
    requires
        old(cx).has(out),
        old(cx).has(bias),
        batch < old(cx).shape(out).len(),
        old(cx).shape(bias) == seq![old(cx).shape(out)[batch as int]],
    ensures
        extends(old(cx)@, final(cx)@),
        final(cx).has(r),
        final(cx).shape(r) == old(cx).shape(out),
        forall|m: Model, idx: Seq<int>|
            idx.len() == old(cx).shape(out).len() ==> #[trigger] element(
                final(cx)@,
                r.id as int,
                m,
                idx,
            ) == (m.plus)(
                element(old(cx)@, out.id as int, m, idx),
                element(old(cx)@, bias.id as int, m, seq![idx[batch as int]]),
            ),
{
    let ghost g0 = cx@;
    let out_dims = copy_dims(cx.dims(out));
    let rank: usize = out_dims.len();
    let left = cx.expand_lhs(bias, &out_dims, batch);
    let ghost g1 = cx@;
    assert(cx.shape(left).len() == batch + 1);
    let both = cx.expand_rhs(left, &out_dims, batch + 1);
    let ghost g2 = cx@;
    proof {
        assert(cx.shape(both) =~= out_dims@);
    }
    let r = cx.plus(out, both);
    proof {
        assert forall|m: Model, idx: Seq<int>| idx.len() == rank implies #[trigger] element(
            cx@,
            r.id as int,
            m,
            idx,
        ) == (m.plus)(
            element(g0, out.id as int, m, idx),
            element(g0, bias.id as int, m, seq![idx[batch as int]]),
        ) by {
            assert(element(g2, out.id as int, m, idx) == element(g1, out.id as int, m, idx));
            let p = idx.take(batch + 1);
            assert(element(g2, both.id as int, m, idx) == element(g1, left.id as int, m, p));
            assert(p.skip(batch as int) =~= seq![idx[batch as int]]);
        }
    }
    r
}

/// A convolution over any number of spatial axes. Inputs have axes for the batch, then
/// one for the channel, and then the spatial ones, as many as the kernel has.
#[derive(Debug)]
pub struct ConvND {
    /// A row for every output channel, with the input channels of its group and the
    /// places of the kernel.
    pub weight: GraphTensor,
    pub bias: Option<GraphTensor>,
    pub kernel: Vec<usize>,
    pub stride: Vec<usize>,
    pub dilation: Vec<usize>,
    pub padding: Vec<usize>,
    pub ch_in: usize,
    pub ch_out: usize,
    pub groups: usize,
}

impl ConvND {
    /// The layer's sizes go together.
    pub open spec fn wf(self) -> bool {
        &&& self.kernel@.len() > 0
        &&& self.groups > 0
        &&& self.ch_in % self.groups == 0
        &&& self.ch_out % self.groups == 0
        &&& self.stride@.len() == self.kernel@.len()
        &&& self.dilation@.len() == self.kernel@.len()
        &&& self.padding@.len() == self.kernel@.len()
    }

    /// How many axes of an input of this rank are for the batch.
    pub open spec fn batch_axes(self, rank: int) -> int {
        rank - self.kernel@.len() - 1
    }

    /// Whether the layer can be applied to an input of these dimensions.
    pub open spec fn accepts(self, dims: Seq<usize>) -> bool {
        let batch = self.batch_axes(dims.len() as int);
        &&& batch >= 0
        &&& 2 * dims.len() <= usize::MAX
        &&& dims[batch] == self.ch_in
        &&& windows_fit(
            dims.skip(batch + 1),
            self.kernel@,
            self.stride@,
            self.dilation@,
            self.padding@,
        )
    }

    /// Whether weight and bias are tensors of the graph with the right dimensions.
    pub open spec fn parameters_fit(self, g: Graph) -> bool {
        let channels = (self.ch_in / self.groups) as usize;
        &&& g.has(self.weight)
        &&& weight_fits(g.shape(self.weight), channels, self.ch_out, self.kernel@)
        &&& g.shape(self.weight)[1] == channels * product(self.kernel@)
        &&& self.bias matches Some(b) ==> g.has(b) && g.shape(b) == seq![self.ch_out]
    }

    /// The dimensions of the layer's result.
    pub open spec fn out_dims(self, dims: Seq<usize>) -> Seq<usize> {
        conv_dims(
            dims,
            self.batch_axes(dims.len() as int),
            self.ch_out,
            self.kernel@,
            self.stride@,
            self.dilation@,
            self.padding@,
        )
    }

    /// The layer's result at a place, without the bias: what the windows come to over the
    /// input channels of the output channel's group.
    pub open spec fn convolved(self, g: Seq<NodeView>, x: int, m: Model, idx: Seq<int>) -> int {
        let batch = self.batch_axes(idx.len() as int);
        let channels = (self.ch_in / self.groups) as usize;
        let group = idx[batch] / (self.ch_out / self.groups) as int;
        window_sum(
            g,
            x,
            self.weight.id as int,
            m,
            idx,
            batch,
            group * channels,
            channels,
            self.kernel@,
            self.stride@,
            self.dilation@,
            self.padding@,
        )
    }

    /// The layer's result at a place.
    pub open spec fn result(self, g: Seq<NodeView>, x: int, m: Model, idx: Seq<int>) -> int {
        let sum = self.convolved(g, x, m, idx);
        match self.bias {
            Some(b) => (m.plus)(
                sum,
                element(g, b.id as int, m, seq![idx[self.batch_axes(idx.len() as int)]]),
            ),
            None => sum,
        }
    }

    /// A layer with new parameters in the graph.
    #[verifier::rlimit(50)]
    pub fn new(
        ch_in: usize,
        ch_out: usize,
        kernel: Vec<usize>,
        stride: Vec<usize>,
        dilation: Vec<usize>,
        padding: Vec<usize>,
        bias: bool,
        groups: usize,
        cx: &mut Graph,
    ) -> (r: ConvND)
        requires
            kernel@.len() > 0,
            groups > 0,
            ch_in % groups == 0,
            ch_out % groups == 0,
            stride@.len() == kernel@.len(),
            dilation@.len() == kernel@.len(),
            padding@.len() == kernel@.len(),
            product_fits(kernel@),
            (ch_in / groups) * product(kernel@) <= usize::MAX,
        ensures
            r.wf(),
            r.parameters_fit(*final(cx)),
            (r.kernel, r.stride, r.dilation, r.padding) == (kernel, stride, dilation, padding),
            (r.ch_in, r.ch_out, r.groups) == (ch_in, ch_out, groups),
            extends(old(cx)@, final(cx)@),
            final(cx)@.len() == old(cx)@.len() + if bias {
                2int
            } else {
                1
            },
            r.weight.id == old(cx)@.len(),
            r.bias == if bias {
                Some(GraphTensor { id: (old(cx)@.len() + 1) as usize })
            } else {
                None
            },
            final(cx).shape(r.weight) == seq![
                ch_out,
                ((ch_in / groups) * product(kernel@)) as usize,
            ],
            final(cx)@[r.weight.id as int].op matches Op::Tensor { name } && name@ == "ConvWeight"@,
            r.bias matches Some(b) ==> (final(cx)@[b.id as int].op matches Op::Tensor { name }
                && name@ == "ConvBias"@),
    {
        let kernel_product: usize = product_of(&kernel);
        let channels: usize = ch_in / groups;
        let weight_dims: Vec<usize> = vec![ch_out, channels * kernel_product];
        let weight = cx.named_tensor("ConvWeight", weight_dims);
        let ghost g1 = cx@;
        assert(cx.shape(weight) =~= seq![ch_out, (channels * kernel_product) as usize]);
        let b: Option<GraphTensor> = if bias {
            let bias_dims: Vec<usize> = vec![ch_out];
            let t = cx.named_tensor("ConvBias", bias_dims);
            assert(cx.shape(t) =~= seq![ch_out]);
            Some(t)
        } else {
            None
        };
        assert(cx@[weight.id as int] == g1[weight.id as int]);
        ConvND {
            weight,
            bias: b,
            kernel,
            stride,
            dilation,
            padding,
            ch_in,
            ch_out,
            groups,
        }
    }

    /// The dimensions of the layer's result for an input of these dimensions.
    #[verifier::rlimit(50)]
    pub fn infer_output_shape(&self, input: &[usize]) -> (r: Vec<usize>)
        requires
            self.wf(),
            self.accepts(input@),
        ensures
            r@ == self.out_dims(input@),
    {
        let rank: usize = input.len();
        let spatial: usize = self.kernel.len();
        let batch: usize = rank - spatial - 1;
        let mut shape: Vec<usize> = Vec::new();
        let mut i: usize = 0;
        while i < batch
            invariant
                i <= batch < input@.len(),
                shape@ == input@.take(i as int),
            decreases batch - i,
        {
            shape.push(input[i]);
            proof {
                assert(input@.take(i + 1) =~= input@.take(i as int).push(input@[i as int]));
            }
            i = i + 1;
        }
        shape.push(self.ch_out);
        let ghost lead = shape@;
        let ghost inner = input@.skip(batch + 1);
        let ghost places = spatial_windows(
            inner,
            self.kernel@,
            self.stride@,
            self.dilation@,
            self.padding@,
        );
        let mut q: usize = 0;
        while q < spatial
            invariant
                q <= spatial == self.kernel@.len(),
                rank == input@.len() == batch + 1 + spatial,
                inner == input@.skip(batch + 1),
                windows_fit(
                    inner,
                    self.kernel@,
                    self.stride@,
                    self.dilation@,
                    self.padding@,
                ),
                places == spatial_windows(
                    inner,
                    self.kernel@,
                    self.stride@,
                    self.dilation@,
                    self.padding@,
                ),
                shape@ == lead + places.take(q as int),
            decreases spatial - q,
        {
            assert(self.kernel@[q as int] >= 1);
            let dim: usize = input[batch + 1 + q];
            assert(inner[q as int] == dim);
            let n: usize = window_count(
                dim + 2 * self.padding[q],
                self.kernel[q],
                self.stride[q],
                self.dilation[q],
            );
            shape.push(n);
            proof {
                assert(lead + places.take(q + 1) =~= (lead + places.take(q as int)).push(
                    places[q as int],
                ));
            }
            q = q + 1;
        }
        proof {
            assert(places.take(q as int) =~= places);
            assert(shape@ =~= self.out_dims(input@));
        }
        shape
    }
}

/// What a layer does with a group of channels.
proof fn lemma_groups(total: int, groups: int, group: int)
    requires
        groups > 0,
        total >= 0,
        total % groups == 0,
        0 <= group < groups,
    ensures
        0 <= group * (total / groups),
        group * (total / groups) + total / groups <= total,
        (group + 1) * (total / groups) == group * (total / groups) + total / groups,
        groups * (total / groups) == total,
{
    let part = total / groups;
    vstd::arithmetic::div_mod::lemma_fundamental_div_mod(total, groups);
    assert(part >= 0) by {
        vstd::arithmetic::div_mod::lemma_div_pos_is_pos(total, groups);
    }
    assert(0 <= group * part && group * part + part <= groups * part && (group + 1) * part == group
        * part + part) by (nonlinear_arith)
        requires
            part >= 0,
            0 <= group < groups,
    ;
}

impl ConvND {
    /// The result of one group: what it is made from, and what it comes to.
    #[verifier::rlimit(50)]
    fn group_forward(
        &self,
        cx: &mut Graph,
        input: GraphTensor,
        batch: usize,
        group: usize,
        channels: usize,
        per_group: usize,
    ) -> (r: GraphTensor)
        requires
            self.wf(),
            self.parameters_fit(*old(cx)),
            old(cx).has(input),
            self.accepts(old(cx).shape(input)),
            batch == self.batch_axes(old(cx).shape(input).len() as int),
            group < self.groups,
            channels == self.ch_in / self.groups,
            per_group == self.ch_out / self.groups,
        ensures
            extends(old(cx)@, final(cx)@),
            final(cx).has(r),
            final(cx).shape(r) == conv_dims(
                old(cx).shape(input),
                batch as int,
                per_group,
                self.kernel@,
                self.stride@,
                self.dilation@,
                self.padding@,
            ),
            forall|m: Model, idx: Seq<int>|
                idx.len() == old(cx).shape(input).len() ==> #[trigger] element(
                    final(cx)@,
                    r.id as int,
                    m,
                    idx,
                ) == window_sum(
                    old(cx)@,
                    input.id as int,
                    self.weight.id as int,
                    m,
                    shifted(idx, batch as int, group * per_group),
                    batch as int,
                    group * channels,
                    channels,
                    self.kernel@,
                    self.stride@,
                    self.dilation@,
                    self.padding@,
                ),
    {
        let ghost g0 = cx@;
        let ghost dims = cx.shape(input);
        let ghost wdims = cx.shape(self.weight);
        proof {
            lemma_groups(self.ch_in as int, self.groups as int, group as int);
            lemma_groups(self.ch_out as int, self.groups as int, group as int);
        }
        let in_start: usize = group * channels;
        let out_start: usize = group * per_group;
        let xs = cx.slice_along(input, in_start, in_start + channels, batch);
        let ghost g1 = cx@;
        let ws = cx.slice_along(self.weight, out_start, out_start + per_group, 0);
        let ghost g2 = cx@;
        proof {
            assert(cx.shape(xs) == dims.update(batch as int, channels));
            assert(cx.shape(xs).skip(batch + 1) =~= dims.skip(batch + 1));
            assert(cx.shape(ws) == wdims.update(0, per_group));
            if wdims.len() != 2 {
                assert(cx.shape(ws) =~= seq![per_group, channels] + self.kernel@);
            }
            assert(weight_fits(cx.shape(ws), channels, per_group, self.kernel@));
        }
        let r = conv_forward_unfold(
            cx,
            xs,
            ws,
            channels,
            per_group,
            &self.kernel,
            &self.stride,
            &self.dilation,
            &self.padding,
            batch,
        );
        proof {
            assert(dims.update(batch as int, channels).take(batch as int) =~= dims.take(
                batch as int,
            ));
            assert forall|m: Model, idx: Seq<int>| idx.len() == dims.len() implies #[trigger] element(
                cx@,
                r.id as int,
                m,
                idx,
            ) == window_sum(
                g0,
                input.id as int,
                self.weight.id as int,
                m,
                shifted(idx, batch as int, group * per_group),
                batch as int,
                group * channels,
                channels,
                self.kernel@,
                self.stride@,
                self.dilation@,
                self.padding@,
            ) by {
                assert forall|p: Seq<int>| #[trigger] element(g2, xs.id as int, m, p) == element(
                    g0,
                    input.id as int,
                    m,
                    shifted(p, batch as int, in_start as int),
                ) by {
                    assert(element(g2, xs.id as int, m, p) == element(g1, xs.id as int, m, p));
                }
                assert forall|p: Seq<int>| #[trigger] element(g2, ws.id as int, m, p) == element(
                    g0,
                    self.weight.id as int,
                    m,
                    shifted(p, 0, out_start as int),
                ) by {
                    let q = shifted(p, 0, out_start as int);
                    assert(element(g2, ws.id as int, m, p) == element(
                        g1,
                        self.weight.id as int,
                        m,
                        q,
                    ));
                }
                lemma_group_sum(
                    g0,
                    g2,
                    input.id as int,
                    xs.id as int,
                    self.weight.id as int,
                    ws.id as int,
                    m,
                    idx,
                    batch as int,
                    in_start,
                    out_start,
                    channels,
                    self.kernel@,
                    self.stride@,
                    self.dilation@,
                    self.padding@,
                );
            }
        }
        r
    }

    /// The convolution without the bias.
    #[verifier::rlimit(50)]
    fn convolve(&self, cx: &mut Graph, input: GraphTensor, batch: usize) -> (r: GraphTensor)
        requires
            self.wf(),
            self.parameters_fit(*old(cx)),
            old(cx).has(input),
            self.accepts(old(cx).shape(input)),
            batch == self.batch_axes(old(cx).shape(input).len() as int),
        ensures
            extends(old(cx)@, final(cx)@),
            final(cx).has(r),
            final(cx).shape(r) == self.out_dims(old(cx).shape(input)),
            forall|m: Model, idx: Seq<int>|
                inside(idx, self.out_dims(old(cx).shape(input))) ==> #[trigger] element(
                    final(cx)@,
                    r.id as int,
                    m,
                    idx,
                ) == self.convolved(old(cx)@, input.id as int, m, idx),
    {
        let ghost g0 = cx@;
        let ghost dims = cx.shape(input);
        let ghost rank = dims.len();
        let ghost out = self.out_dims(dims);
        let channels: usize = self.ch_in / self.groups;
        let per_group: usize = self.ch_out / self.groups;
        if self.groups == 1 {
            let r = conv_forward_unfold(
                cx,
                input,
                self.weight,
                self.ch_in,
                self.ch_out,
                &self.kernel,
                &self.stride,
                &self.dilation,
                &self.padding,
                batch,
            );
            proof {
                assert forall|m: Model, idx: Seq<int>| inside(idx, out) implies #[trigger] element(
                    cx@,
                    r.id as int,
                    m,
                    idx,
                ) == self.convolved(g0, input.id as int, m, idx) by {
                    let o = idx[batch as int];
                    assert(out[batch as int] == self.ch_out);
                    assert(0 <= o < self.ch_out);
                    assert(o / (self.ch_out as int) == 0) by {
                        vstd::arithmetic::div_mod::lemma_basic_div(o, self.ch_out as int);
                    }
                    assert(0 * channels == 0);
                }
            }
            return r;
        }
        let mut cur = self.group_forward(cx, input, batch, 0, channels, per_group);
        let mut group: usize = 1;
        proof {
            lemma_groups(self.ch_out as int, self.groups as int, 0);
            assert(1 * per_group == per_group);
            assert(0 * per_group == 0 && 0 * channels == 0);
            let part = out.update(batch as int, per_group);
            assert(cx.shape(cur) =~= part);
            assert forall|m: Model, idx: Seq<int>| inside(idx, part) implies #[trigger] element(
                cx@,
                cur.id as int,
                m,
                idx,
            ) == self.convolved(g0, input.id as int, m, idx) by {
                let o = idx[batch as int];
                assert(0 <= o < part[batch as int]);
                vstd::arithmetic::div_mod::lemma_basic_div(o, per_group as int);
                assert(shifted(idx, batch as int, 0) =~= idx);
            }
        }
        while group < self.groups
            invariant
                self.wf(),
                1 <= group <= self.groups,
                extends(g0, cx@),
                cx.has(input),
                cx.has(cur),
                input.id < g0.len(),
                cx.shape(input) == dims,
                rank == dims.len(),
                self.accepts(dims),
                self.parameters_fit(*cx),
                self.weight.id < g0.len(),
                batch == self.batch_axes(rank as int),
                out == self.out_dims(dims),
                channels == self.ch_in / self.groups,
                per_group == self.ch_out / self.groups,
                group * per_group <= self.ch_out,
                cx.shape(cur) == out.update(batch as int, (group * per_group) as usize),
                forall|m: Model, idx: Seq<int>|
                    inside(idx, out.update(batch as int, (group * per_group) as usize))
                        ==> #[trigger] element(cx@, cur.id as int, m, idx) == self.convolved(
                        g0,
                        input.id as int,
                        m,
                        idx,
                    ),
            decreases self.groups - group,
        {
            let ghost g1 = cx@;
            let ghost last = cur;
            let next = self.group_forward(cx, input, batch, group, channels, per_group);
            let ghost g2 = cx@;
            proof {
                lemma_groups(self.ch_out as int, self.groups as int, group as int);
                assert(cx.shape(next) =~= out.update(batch as int, per_group));
                assert(out[batch as int] == self.ch_out);
            }
            cur = cx.concat_along(cur, next, batch);
            proof {
                let done = (group * per_group) as usize;
                let more = (done + per_group) as usize;
                assert((group + 1) * per_group == more);
                let before = out.update(batch as int, done);
                let part = out.update(batch as int, more);
                assert(cx.shape(cur) =~= part);
                assert forall|m: Model, idx: Seq<int>| inside(idx, part) implies #[trigger] element(
                    cx@,
                    cur.id as int,
                    m,
                    idx,
                ) == self.convolved(g0, input.id as int, m, idx) by {
                    let o = idx[batch as int];
                    assert(0 <= o < part[batch as int]);
                    if o < done {
                        assert forall|q: int| 0 <= q < before.len() implies 0 <= #[trigger] idx[q]
                            < before[q] by {
                            if q != batch {
                                assert(before[q] == part[q]);
                            }
                        }
                        assert(inside(idx, before));
                        assert(element(g2, last.id as int, m, idx) == element(
                            g1,
                            last.id as int,
                            m,
                            idx,
                        ));
                    } else {
                        let back = shifted(idx, batch as int, -done);
                        assert(element(cx@, cur.id as int, m, idx) == element(
                            g2,
                            next.id as int,
                            m,
                            back,
                        ));
                        assert(shifted(back, batch as int, done as int) =~= idx);
                        let gr = group as int;
                        let pg = per_group as int;
                        assert(o / pg == gr) by {
                            vstd::arithmetic::div_mod::lemma_fundamental_div_mod_converse(
                                o,
                                pg,
                                gr,
                                o - gr * pg,
                            );
                        }
                        lemma_window_sum_kept(
                            g0,
                            g1,
                            input.id as int,
                            self.weight.id as int,
                            m,
                            idx,
                            batch as int,
                            group * channels,
                            channels,
                            self.kernel@,
                            self.stride@,
                            self.dilation@,
                            self.padding@,
                        );
                    }
                }
            }
            group = group + 1;
        }
        proof {
            lemma_groups(self.ch_out as int, self.groups as int, 0);
            assert(out[batch as int] == self.ch_out);
            assert(out.update(batch as int, (group * per_group) as usize) =~= out);
        }
        cur
    }

    /// The layer applied to a tensor.
    pub fn forward(&self, cx: &mut Graph, input: GraphTensor) -> (r: GraphTensor)
        requires
            self.wf(),
            self.parameters_fit(*old(cx)),
            old(cx).has(input),
            self.accepts(old(cx).shape(input)),
        ensures
            extends(old(cx)@, final(cx)@),
            final(cx).has(r),
            final(cx).shape(r) == self.out_dims(old(cx).shape(input)),
            forall|m: Model, idx: Seq<int>|
                inside(idx, self.out_dims(old(cx).shape(input))) ==> #[trigger] element(
                    final(cx)@,
                    r.id as int,
                    m,
                    idx,
                ) == self.result(old(cx)@, input.id as int, m, idx),
    {
        let ghost g0 = cx@;
        let ghost out = self.out_dims(cx.shape(input));
        let rank: usize = cx.dims(input).len();
        let batch: usize = rank - self.kernel.len() - 1;
        let sum = self.convolve(cx, input, batch);
        let ghost g1 = cx@;
        match self.bias {
            None => sum,
            Some(bias) => {
                assert(cx.shape(bias) == seq![self.ch_out]);
                assert(out[batch as int] == self.ch_out);
                let r = add_channel_bias(cx, sum, bias, batch);
                proof {
                    assert forall|m: Model, idx: Seq<int>| inside(idx, out) implies #[trigger] element(
                        cx@,
                        r.id as int,
                        m,
                        idx,
                    ) == self.result(g0, input.id as int, m, idx) by {
                        let at = seq![idx[batch as int]];
                        assert(element(g1, sum.id as int, m, idx) == self.convolved(
                            g0,
                            input.id as int,
                            m,
                            idx,
                        ));
                        assert(element(g1, bias.id as int, m, at) == element(
                            g0,
                            bias.id as int,
                            m,
                            at,
                        ));
                    }
                }
                r
            },
        }
    }
}

/// The windows' sums do not change when operations are added.
#[verifier::rlimit(50)]
proof fn lemma_window_sum_kept(
    g: Seq<NodeView>,
    h: Seq<NodeView>,
    x: int,
    w: int,
    m: Model,
    idx: Seq<int>,
    batch: int,
    first: int,
    channels: usize,
    kernel: Seq<usize>,
    stride: Seq<usize>,
    dilation: Seq<usize>,
    padding: Seq<usize>,
)
    requires
        extends(g, h),
        0 <= x < g.len(),
        0 <= w < g.len(),
    ensures
        window_sum(g, x, w, m, idx, batch, first, channels, kernel, stride, dilation, padding)
            == window_sum(
            h,
            x,
            w,
            m,
            idx,
            batch,
            first,
            channels,
            kernel,
            stride,
            dilation,
            padding,
        ),
{
    let a = |t: Seq<int>|
        (m.times)(
            padded_element(
                g,
                x,
                m,
                tap(idx, batch, first + t[0], t.skip(1), stride, dilation, padding),
            ),
            weight_element(g, w, m, kernel, idx[batch], t),
        );
    let b = |t: Seq<int>|
        (m.times)(
            padded_element(
                h,
                x,
                m,
                tap(idx, batch, first + t[0], t.skip(1), stride, dilation, padding),
            ),
            weight_element(h, w, m, kernel, idx[batch], t),
        );
    let tail = seq![channels] + kernel;
    assert forall|t: Seq<int>| inside(t, tail) implies #[trigger] a(t) == b(t) by {
        let p = tap(idx, batch, first + t[0], t.skip(1), stride, dilation, padding);
        assert(element(h, x, m, p) == element(g, x, m, p));
        let s = seq![idx[batch], flat(t[0], kernel, t.skip(1))];
        assert(element(h, w, m, s) == element(g, w, m, s));
        assert(element(h, w, m, seq![idx[batch]] + t) == element(g, w, m, seq![idx[batch]] + t));
        assert(h[x] == g[x] && h[w] == g[w]);
    }
    lemma_nested_same(m, tail, a, b);
}

/// The weight with the places of the kernel in reverse.
#[verifier::rlimit(50)]
fn reverse_kernel_1d(cx: &mut Graph, weight: GraphTensor, kernel: usize) -> (r: GraphTensor)
    requires
        old(cx).has(weight),
        old(cx).shape(weight).len() == 3,
        old(cx).shape(weight)[2] == kernel,
        kernel > 0,
    ensures
        extends(old(cx)@, final(cx)@),
        final(cx).has(r),
        final(cx).shape(r) == old(cx).shape(weight),
        forall|m: Model, idx: Seq<int>|
            idx.len() == 3 && 0 <= idx[2] < kernel ==> #[trigger] element(
                final(cx)@,
                r.id as int,
                m,
                idx,
            ) == element(
                old(cx)@,
                weight.id as int,
                m,
                seq![idx[0], idx[1], kernel - 1 - idx[2]],
            ),
{
    let ghost g0 = cx@;
    let ghost dims = cx.shape(weight);
    let mut cur = cx.slice_along(weight, kernel - 1, kernel, 2);
    let mut done: usize = 1;
    proof {
        assert forall|m: Model, idx: Seq<int>|
            idx.len() == 3 && 0 <= idx[2] < 1 implies #[trigger] element(
            cx@,
            cur.id as int,
            m,
            idx,
        ) == element(
            g0,
            weight.id as int,
            m,
            seq![idx[0], idx[1], kernel - 1 - idx[2]],
        ) by {
            assert(shifted(idx, 2, kernel - 1) =~= seq![idx[0], idx[1], kernel - 1 - idx[2]]);
        }
    }
    while done < kernel
        invariant
            1 <= done <= kernel,
            extends(g0, cx@),
            weight.id < g0.len(),
            cx.has(cur),
            dims.len() == 3,
            dims[2] == kernel,
            g0[weight.id as int].dims == dims,
            cx.shape(cur) == dims.update(2, done),
            forall|m: Model, idx: Seq<int>|
                idx.len() == 3 && 0 <= idx[2] < done ==> #[trigger] element(
                    cx@,
                    cur.id as int,
                    m,
                    idx,
                ) == element(
                    g0,
                    weight.id as int,
                    m,
                    seq![idx[0], idx[1], kernel - 1 - idx[2]],
                ),
        decreases kernel - done,
    {
        let ghost g1 = cx@;
        let ghost last = cur;
        let k: usize = kernel - 1 - done;
        let part = cx.slice_along(weight, k, k + 1, 2);
        let ghost g2 = cx@;
        cur = cx.concat_along(cur, part, 2);
        proof {
            assert(dims.update(2, done).update(2, (done + 1) as usize) =~= dims.update(
                2,
                (done + 1) as usize,
            ));
            assert forall|m: Model, idx: Seq<int>|
                idx.len() == 3 && 0 <= idx[2] < done + 1 implies #[trigger] element(
                cx@,
                cur.id as int,
                m,
                idx,
            ) == element(
                g0,
                weight.id as int,
                m,
                seq![idx[0], idx[1], kernel - 1 - idx[2]],
            ) by {
                if idx[2] < done {
                    assert(element(g2, last.id as int, m, idx) == element(
                        g1,
                        last.id as int,
                        m,
                        idx,
                    ));
                } else {
                    let back = shifted(idx, 2, -done);
                    let at = shifted(back, 2, k as int);
                    assert(element(g2, part.id as int, m, back) == element(
                        g1,
                        weight.id as int,
                        m,
                        at,
                    ));
                    assert(at =~= seq![idx[0], idx[1], kernel - 1 - idx[2]]);
                }
            }
        }
        done = done + 1;
    }
    proof {
        assert(dims.update(2, done) =~= dims);
    }
    cur
}

/// A transposed convolution over one spatial axis. Inputs have an axis for the batch, one
/// for the channel, and the spatial one.
#[derive(Debug)]
pub struct ConvTranspose1d {
    /// With axes for the input channel, the output channel and the place in the kernel.
    pub weight: GraphTensor,
    pub bias: Option<GraphTensor>,
    pub kernel: usize,
    pub stride: usize,
    pub padding: usize,
    pub ch_in: usize,
    pub ch_out: usize,
}

/// The place that a window of one axis sees, where it moves by single steps.
proof fn lemma_patch_of_one(idx: Seq<int>, t: Seq<int>, ones: Seq<usize>, padding: Seq<usize>)
    requires
        idx.len() == 3,
        t.len() == 2,
        ones.len() == 1,
        ones[0] == 1,
    ensures
        patch_place((idx + t).remove(1), 1, 1, ones, ones, padding) == seq![
            idx[0],
            t[0],
            idx[2] + t[1] - padding[0],
        ],
{
    let place = (idx + t).remove(1);
    assert(place =~= seq![idx[0], idx[2], t[0], t[1]]);
    let from = patch_place(place, 1, 1, ones, ones, padding);
    assert(from.len() == 3);
    assert(place.take(1).push(place[2]) =~= seq![idx[0], t[0]]);
    assert(from[0] == idx[0] && from[1] == t[0]);
    assert(from[2] == place[1] * ones[0] + place[3] * ones[0] - padding[0]);
    assert(place[1] * 1 == place[1] && place[3] * 1 == place[3]);
    assert(from =~= seq![idx[0], t[0], idx[2] + t[1] - padding[0]]);
}

/// How long an axis is with gaps of `stride - 1` between the places.
pub open spec fn upsampled_len(length: int, stride: int) -> int {
    (length - 1) * stride + 1
}

/// The input with gaps between the places: the input at every `stride`-th place, and zero
/// in between and outside.
pub open spec fn upsampled_element(
    g: Seq<NodeView>,
    x: int,
    m: Model,
    stride: int,
    b: int,
    c: int,
    y: int,
) -> int {
    if 0 <= y < upsampled_len(g[x].dims[2] as int, stride) && y % stride == 0 {
        element(g, x, m, seq![b, c, y / stride])
    } else {
        m.zero
    }
}

/// The input with gaps between the places.
#[verifier::rlimit(50)]
fn upsample(cx: &mut Graph, input: GraphTensor, stride: usize) -> (r: GraphTensor)
    requires
        old(cx).has(input),
        old(cx).shape(input).len() == 3,
        old(cx).shape(input)[2] >= 1,
        stride >= 1,
        old(cx).shape(input)[2] * stride <= usize::MAX,
    ensures
        extends(old(cx)@, final(cx)@),
        final(cx).has(r),
        final(cx).shape(r) == old(cx).shape(input).update(
            2,
            upsampled_len(old(cx).shape(input)[2] as int, stride as int) as usize,
        ),
        upsampled_len(old(cx).shape(input)[2] as int, stride as int) <= old(cx).shape(input)[2]
            * stride,
        forall|m: Model, idx: Seq<int>|
            inside(idx, final(cx).shape(r)) ==> #[trigger] element(
                final(cx)@,
                r.id as int,
                m,
                idx,
            ) == upsampled_element(
                old(cx)@,
                input.id as int,
                m,
                stride as int,
                idx[0],
                idx[1],
                idx[2],
            ),
{
    let ghost g0 = cx@;
    let ghost dims = cx.shape(input);
    let length: usize = cx.dims(input)[2];
    proof {
        let l = length as int;
        let st = stride as int;
        assert((l - 1) * st + st == l * st && (l - 1) * st >= 0) by (nonlinear_arith)
            requires
                l >= 1,
                st >= 1,
        ;
    }
    let up_len: usize = (length - 1) * stride + 1;
    let lifted = cx.expand_dim(input, 3, 1);
    let ghost g1 = cx@;
    assert(cx.shape(lifted) =~= dims.push(1));
    let before: Vec<usize> = vec![0, 0, 0, 0];
    let after: Vec<usize> = vec![0, 0, 0, stride - 1];
    let padded = cx.pad(lifted, before, after);
    let ghost g2 = cx@;
    proof {
        assert(cx.shape(padded) =~= dims.push(stride));
    }
    let merged = cx.merge_dims(padded, 2);
    let ghost g3 = cx@;
    proof {
        assert(cx.shape(merged) =~= dims.update(2, (length * stride) as usize));
    }
    let r = cx.slice_along(merged, 0, up_len, 2);
    proof {
        assert(cx.shape(r) =~= dims.update(2, up_len));
        let out = dims.update(2, up_len);
        assert forall|m: Model, idx: Seq<int>| inside(idx, out) implies #[trigger] element(
            cx@,
            r.id as int,
            m,
            idx,
        ) == upsampled_element(
            g0,
            input.id as int,
            m,
            stride as int,
            idx[0],
            idx[1],
            idx[2],
        ) by {
            assert(idx.len() == 3);
            let y = idx[2];
            let st = stride as int;
            assert(0 <= idx[0] < out[0] && 0 <= idx[1] < out[1] && 0 <= y < out[2]);
            assert(shifted(idx, 2, 0) =~= idx);
            let at = unmerged(idx, 2, st);
            assert(element(cx@, r.id as int, m, idx) == element(g3, merged.id as int, m, idx));
            assert(element(g3, merged.id as int, m, idx) == element(
                g2,
                padded.id as int,
                m,
                at,
            ));
            assert(moved_back(at, before@) =~= at);
            vstd::arithmetic::div_mod::lemma_fundamental_div_mod(y, st);
            vstd::arithmetic::div_mod::lemma_mod_bound(y, st);
            vstd::arithmetic::div_mod::lemma_div_pos_is_pos(y, st);
            let d = y / st;
            let l = length as int;
            assert(d < l) by (nonlinear_arith)
                requires
                    y == st * d + y % st,
                    y < (l - 1) * st + 1,
                    0 <= y % st,
                    st >= 1,
            ;
            let lifted_dims = dims.push(1);
            assert(at =~= seq![idx[0], idx[1], d, y % st]);
            if y % st == 0 {
                assert forall|q: int| 0 <= q < 4 implies 0 <= #[trigger] at[q] < lifted_dims[q] by {}
                assert(inside(at, lifted_dims));
                assert(at.remove(3) =~= seq![idx[0], idx[1], d]);
            } else {
                assert(at[3] == y % st);
                assert(!inside(at, lifted_dims));
            }
        }
    }
    r
}

impl ConvTranspose1d {
    /// The layer's sizes go together.
    pub open spec fn wf(self) -> bool {
        self.kernel > 0 && self.stride > 0 && self.padding < self.kernel
    }

    /// The length of the layer's result.
    pub open spec fn out_len(self, length: int) -> int {
        (length - 1) * self.stride - 2 * self.padding + self.kernel
    }

    /// Whether the layer can be applied to an input of these dimensions.
    pub open spec fn accepts(self, dims: Seq<usize>) -> bool {
        &&& dims.len() == 3
        &&& dims[1] == self.ch_in
        &&& dims[2] >= 1
        &&& self.out_len(dims[2] as int) >= 1
        &&& dims[2] * self.stride + 2 * self.kernel <= usize::MAX
    }

    /// Whether weight and bias are tensors of the graph with the right dimensions.
    pub open spec fn parameters_fit(self, g: Graph) -> bool {
        &&& g.has(self.weight)
        &&& g.shape(self.weight) == seq![self.ch_in, self.ch_out, self.kernel]
        &&& self.bias matches Some(b) ==> g.has(b) && g.shape(b) == seq![self.ch_out]
    }

    /// The dimensions of the layer's result.
    pub open spec fn out_dims(self, dims: Seq<usize>) -> Seq<usize> {
        seq![dims[0], self.ch_out, self.out_len(dims[2] as int) as usize]
    }

    /// The layer's result at a place, without the bias: the sum, over the input channels
    /// and the places of the kernel, of the input with gaps times the weight with the
    /// kernel in reverse.
    pub open spec fn convolved(self, g: Seq<NodeView>, x: int, m: Model, idx: Seq<int>) -> int {
        nested_sum(
            m,
            seq![self.ch_in, self.kernel],
            |t: Seq<int>|
                (m.times)(
                    upsampled_element(
                        g,
                        x,
                        m,
                        self.stride as int,
                        idx[0],
                        t[0],
                        idx[2] + t[1] - (self.kernel - 1 - self.padding),
                    ),
                    element(
                        g,
                        self.weight.id as int,
                        m,
                        seq![t[0], idx[1], self.kernel - 1 - t[1]],
                    ),
                ),
        )
    }

    /// The layer's result at a place.
    pub open spec fn result(self, g: Seq<NodeView>, x: int, m: Model, idx: Seq<int>) -> int {
        let sum = self.convolved(g, x, m, idx);
        match self.bias {
            Some(b) => (m.plus)(sum, element(g, b.id as int, m, seq![idx[1]])),
            None => sum,
        }
    }

    /// A layer with new parameters in the graph.
    pub fn new(
        ch_in: usize,
        ch_out: usize,
        kernel: usize,
        stride: usize,
        padding: usize,
        bias: bool,
        cx: &mut Graph,
    ) -> (r: ConvTranspose1d)
        requires
            kernel > 0,
            stride > 0,
            padding < kernel,
        ensures
            r.wf(),
            r.parameters_fit(*final(cx)),
            (r.ch_in, r.ch_out) == (ch_in, ch_out),
            (r.kernel, r.stride, r.padding) == (kernel, stride, padding),
            extends(old(cx)@, final(cx)@),
            final(cx)@.len() == old(cx)@.len() + if bias {
                2int
            } else {
                1
            },
            r.weight.id == old(cx)@.len(),
            r.bias == if bias {
                Some(GraphTensor { id: (old(cx)@.len() + 1) as usize })
            } else {
                None
            },
            final(cx)@[r.weight.id as int].op matches Op::Tensor { name } && name@
                == "ConvTranspose1dWeight"@,
            r.bias matches Some(b) ==> (final(cx)@[b.id as int].op matches Op::Tensor { name }
                && name@ == "ConvTranspose1dBias"@),
    {
        let weight_dims: Vec<usize> = vec![ch_in, ch_out, kernel];
        let weight = cx.named_tensor("ConvTranspose1dWeight", weight_dims);
        let ghost g1 = cx@;
        assert(cx.shape(weight) =~= seq![ch_in, ch_out, kernel]);
        let b: Option<GraphTensor> = if bias {
            let bias_dims: Vec<usize> = vec![ch_out];
            let t = cx.named_tensor("ConvTranspose1dBias", bias_dims);
            assert(cx.shape(t) =~= seq![ch_out]);
            Some(t)
        } else {
            None
        };
        assert(cx@[weight.id as int] == g1[weight.id as int]);
        ConvTranspose1d { weight, bias: b, kernel, stride, padding, ch_in, ch_out }
    }

    /// The dimensions of the layer's result for an input of these dimensions.
    pub fn infer_output_shape(&self, input: &[usize]) -> (r: Vec<usize>)
        requires
            self.wf(),
            self.accepts(input@),
        ensures
            r@ == self.out_dims(input@),
    {
        let length: usize = input[2];
        proof {
            lemma_gaps(length as int, self.stride as int);
        }
        let reach: usize = (length - 1) * self.stride + self.kernel;
        let out_len: usize = reach - 2 * self.padding;
        let r: Vec<usize> = vec![input[0], self.ch_out, out_len];
        assert(r@ =~= self.out_dims(input@));
        r
    }

    /// The sums of the layer's result, without the bias.
    #[verifier::rlimit(50)]
    fn convolve(&self, cx: &mut Graph, input: GraphTensor) -> (r: GraphTensor)
        requires
            self.wf(),
            self.parameters_fit(*old(cx)),
            old(cx).has(input),
            self.accepts(old(cx).shape(input)),
        ensures
            extends(old(cx)@, final(cx)@),
            final(cx).has(r),
            final(cx).shape(r) == self.out_dims(old(cx).shape(input)),
            forall|m: Model, idx: Seq<int>|
                inside(idx, self.out_dims(old(cx).shape(input))) ==> #[trigger] element(
                    final(cx)@,
                    r.id as int,
                    m,
                    idx,
                ) == self.convolved(old(cx)@, input.id as int, m, idx),
    {
        let ghost g0 = cx@;
        let ghost dims = cx.shape(input);
        let ghost out = self.out_dims(dims);
        proof {
            lemma_gaps(dims[2] as int, self.stride as int);
        }
        let up = upsample(cx, input, self.stride);
        let ghost g1 = cx@;
        let ghost up_dims = cx.shape(up);
        let conv_padding: usize = self.kernel - 1 - self.padding;
        let kernel: Vec<usize> = vec![self.kernel];
        let ones: Vec<usize> = vec![1];
        let padding: Vec<usize> = vec![conv_padding];
        proof {
            let inner = up_dims.skip(2);
            assert(inner =~= seq![up_dims[2]]);
            let k = self.kernel as int;
            assert(reach_of(k, 1) == k) by (nonlinear_arith);
            assert(kernel@[0] == self.kernel && ones@[0] == 1 && padding@[0] == conv_padding);
        }
        let patches = window_patches(cx, up, 1, &kernel, &ones, &ones, &padding);
        let ghost g2 = cx@;
        let patch_dims = copy_dims(cx.dims(patches));
        let ghost places = self.out_len(dims[2] as int) as usize;
        proof {
            assert(patch_dims@ =~= seq![dims[0], places, self.ch_in, self.kernel]);
        }
        let reversed = reverse_kernel_1d(cx, self.weight, self.kernel);
        let ghost g3 = cx@;
        let order: Vec<usize> = vec![1, 0, 2];
        let swapped = cx.permute(reversed, order);
        let ghost g4 = cx@;
        proof {
            assert(cx.shape(swapped) =~= seq![self.ch_out, self.ch_in, self.kernel]);
        }
        let lifted = cx.expand_lhs(swapped, &patch_dims, 1);
        let ghost g5 = cx@;
        let weights = cx.expand_dim(lifted, 2, patch_dims[1]);
        let ghost g6 = cx@;
        let repeated = cx.expand_dim(patches, 1, self.ch_out);
        let ghost g7 = cx@;
        let ghost all = seq![dims[0], self.ch_out, places, self.ch_in, self.kernel];
        proof {
            assert(cx.shape(weights) =~= all);
            assert(cx.shape(repeated) =~= all);
        }
        let products = cx.times(repeated, weights);
        let ghost g8 = cx@;
        let r = cx.sum_last(products, 2);
        proof {
            assert(all.take(3) =~= out);
            let tail = seq![self.ch_in, self.kernel];
            assert(all.skip(3) =~= tail);
            assert forall|m: Model, idx: Seq<int>| inside(idx, out) implies #[trigger] element(
                cx@,
                r.id as int,
                m,
                idx,
            ) == self.convolved(g0, input.id as int, m, idx) by {
                assert(0 <= idx[0] < out[0] && 0 <= idx[1] < out[1] && 0 <= idx[2] < out[2]);
                let a = |p: Seq<int>| element(g8, products.id as int, m, idx + p);
                let b = |t: Seq<int>|
                    (m.times)(
                        upsampled_element(
                            g0,
                            input.id as int,
                            m,
                            self.stride as int,
                            idx[0],
                            t[0],
                            idx[2] + t[1] - (self.kernel - 1 - self.padding),
                        ),
                        element(
                            g0,
                            self.weight.id as int,
                            m,
                            seq![t[0], idx[1], self.kernel - 1 - t[1]],
                        ),
                    );
                assert forall|t: Seq<int>| inside(t, tail) implies #[trigger] a(t) == b(t) by {
                    assert(0 <= t[0] < tail[0] && 0 <= t[1] < tail[1]);
                    let full = idx + t;
                    let place = full.remove(1);
                    assert(element(g7, repeated.id as int, m, full) == element(
                        g6,
                        patches.id as int,
                        m,
                        place,
                    ));
                    assert(element(g6, patches.id as int, m, place) == element(
                        g2,
                        patches.id as int,
                        m,
                        place,
                    )) by {
                        assert(element(g6, patches.id as int, m, place) == element(
                            g5,
                            patches.id as int,
                            m,
                            place,
                        ));
                        assert(element(g5, patches.id as int, m, place) == element(
                            g4,
                            patches.id as int,
                            m,
                            place,
                        ));
                        assert(element(g4, patches.id as int, m, place) == element(
                            g3,
                            patches.id as int,
                            m,
                            place,
                        ));
                    }
                    let from = patch_place(place, 1, 1, ones@, ones@, padding@);
                    let y = idx[2] + t[1] - (self.kernel - 1 - self.padding);
                    lemma_patch_of_one(idx, t, ones@, padding@);
                    assert(from =~= seq![idx[0], t[0], y]);
                    assert(element(g2, patches.id as int, m, place) == padded_element(
                        g1,
                        up.id as int,
                        m,
                        from,
                    ));
                    assert(inside(from, up_dims) == (0 <= y < up_dims[2])) by {
                        assert(from[0] == idx[0] && from[1] == t[0] && from[2] == y);
                        if 0 <= y < up_dims[2] {
                            assert forall|q: int| 0 <= q < 3 implies 0 <= #[trigger] from[q]
                                < up_dims[q] by {}
                        }
                    }
                    let at = full.remove(2);
                    assert(element(g7, weights.id as int, m, full) == element(
                        g6,
                        weights.id as int,
                        m,
                        full,
                    ));
                    assert(element(g6, weights.id as int, m, full) == element(
                        g5,
                        lifted.id as int,
                        m,
                        at,
                    ));
                    let sw = at.skip(1);
                    assert(element(g5, lifted.id as int, m, at) == element(
                        g4,
                        swapped.id as int,
                        m,
                        sw,
                    ));
                    assert(sw =~= seq![idx[1], t[0], t[1]]);
                    lemma_swap_first(order@, sw);
                    let rv = seq![t[0], idx[1], t[1]];
                    assert(element(g4, swapped.id as int, m, sw) == element(
                        g3,
                        reversed.id as int,
                        m,
                        rv,
                    ));
                    let wt = seq![t[0], idx[1], self.kernel - 1 - t[1]];
                    assert(element(g3, reversed.id as int, m, rv) == element(
                        g2,
                        self.weight.id as int,
                        m,
                        wt,
                    ));
                    assert(element(g2, self.weight.id as int, m, wt) == element(
                        g1,
                        self.weight.id as int,
                        m,
                        wt,
                    ));
                }
                lemma_nested_same(m, tail, a, b);
            }
        }
        r
    }

    /// The layer applied to a tensor.
    pub fn forward(&self, cx: &mut Graph, input: GraphTensor) -> (r: GraphTensor)
        requires
            self.wf(),
            self.parameters_fit(*old(cx)),
            old(cx).has(input),
            self.accepts(old(cx).shape(input)),
        ensures
            extends(old(cx)@, final(cx)@),
            final(cx).has(r),
            final(cx).shape(r) == self.out_dims(old(cx).shape(input)),
            forall|m: Model, idx: Seq<int>|
                inside(idx, self.out_dims(old(cx).shape(input))) ==> #[trigger] element(
                    final(cx)@,
                    r.id as int,
                    m,
                    idx,
                ) == self.result(old(cx)@, input.id as int, m, idx),
    {
        let ghost g0 = cx@;
        let ghost out = self.out_dims(cx.shape(input));
        let sum = self.convolve(cx, input);
        let ghost g1 = cx@;
        match self.bias {
            None => sum,
            Some(bias) => {
                assert(cx.shape(bias) == seq![self.ch_out]);
                let r = add_channel_bias(cx, sum, bias, 1);
                proof {
                    assert forall|m: Model, idx: Seq<int>| inside(idx, out) implies #[trigger] element(
                        cx@,
                        r.id as int,
                        m,
                        idx,
                    ) == self.result(g0, input.id as int, m, idx) by {
                        let at = seq![idx[1]];
                        assert(element(g1, sum.id as int, m, idx) == self.convolved(
                            g0,
                            input.id as int,
                            m,
                            idx,
                        ));
                        assert(element(g1, bias.id as int, m, at) == element(
                            g0,
                            bias.id as int,
                            m,
                            at,
                        ));
                    }
                }
                r
            },
        }
    }
}

proof fn lemma_gaps(length: int, stride: int)
    requires
        length >= 1,
        stride >= 1,
    ensures
        0 <= (length - 1) * stride,
        (length - 1) * stride + stride == length * stride,
{
    assert(0 <= (length - 1) * stride && (length - 1) * stride + stride == length * stride)
        by (nonlinear_arith)
        requires
            length >= 1,
            stride >= 1,
    ;
}

proof fn lemma_swap_first(order: Seq<usize>, idx: Seq<int>)
    requires
        order == seq![1usize, 0usize, 2usize],
        idx.len() == 3,
    ensures
        unpermuted(order, idx) == seq![idx[1], idx[0], idx[2]],
{
    assert(order[0] == 1 && order[1] == 0 && order[2] == 2);
    assert forall|q: int| 0 <= q < 3 implies unpermuted(order, idx)[q] == seq![
        idx[1],
        idx[0],
        idx[2],
    ][q] by {
        let p = place_of(order, q);
        let w = if q == 0 {
            1int
        } else if q == 1 {
            0
        } else {
            2
        };
        assert(0 <= w < order.len() && order[w] == q);
        assert(0 <= p < order.len() && order[p] == q);
    }
    assert(unpermuted(order, idx) =~= seq![idx[1], idx[0], idx[2]]);
}

} // verus!
