use candle_core::{Device, Tensor};
use luminal_runtime::convolution::{ConvND, ConvTranspose1d};
use luminal_runtime::tensor::{window_count, Graph, GraphTensor, Op};

/// All places of a tensor of these dimensions, the last axis fastest.
fn places(dims: &[usize]) -> Vec<Vec<usize>> {
    let mut all: Vec<Vec<usize>> = vec![vec![]];
    for d in dims {
        let mut next = Vec::new();
        for p in &all {
            for i in 0..*d {
                let mut q = p.clone();
                q.push(i);
                next.push(q);
            }
        }
        all = next;
    }
    all
}

fn offset(dims: &[usize], place: &[usize]) -> usize {
    dims.iter().zip(place).fold(0, |acc, (d, p)| acc * d + p)
}

/// Runs a program on given tensors, in single precision.
fn run(cx: &Graph, given: &[(GraphTensor, Vec<f32>)], out: GraphTensor) -> Vec<f32> {
    let mut values: Vec<Vec<f32>> = Vec::new();
    for (id, node) in cx.nodes.iter().enumerate() {
        let dims = |t: usize| cx.nodes[t].dims.as_slice();
        let at = |t: usize, p: &[usize]| values[t][offset(&cx.nodes[t].dims, p)];
        let mut data = Vec::new();
        for p in places(&node.dims) {
            let v = match &node.op {
                Op::Tensor { .. } => match given.iter().find(|(t, _)| t.id == id) {
                    Some((_, d)) => d[offset(&node.dims, &p)],
                    None => 0.0,
                },
                Op::Pad { input, before, .. } => {
                    let mut q = Vec::new();
                    let mut inside = true;
                    for (a, x) in p.iter().enumerate() {
                        if *x < before[a] || *x - before[a] >= dims(*input)[a] {
                            inside = false;
                        } else {
                            q.push(*x - before[a]);
                        }
                    }
                    if inside { at(*input, &q) } else { 0.0 }
                }
                Op::Unfold { input, kernel, stride, dilation } => {
                    let n = kernel.len();
                    let q: Vec<usize> = (0..n)
                        .map(|a| p[a] * stride[a] + p[n + a] * dilation[a])
                        .collect();
                    at(*input, &q)
                }
                Op::Permute { input, order } => {
                    let mut q = vec![0; order.len()];
                    for (i, a) in order.iter().enumerate() {
                        q[*a] = p[i];
                    }
                    at(*input, &q)
                }
                Op::Squeeze { input, axis } => {
                    let mut q = p.clone();
                    q.insert(*axis, 0);
                    at(*input, &q)
                }
                Op::ExpandDim { input, axis, .. } => {
                    let mut q = p.clone();
                    q.remove(*axis);
                    at(*input, &q)
                }
                Op::SplitDims { input, axis, size } => {
                    let mut q = p.clone();
                    let second = q.remove(*axis + 1);
                    q[*axis] = q[*axis] * size + second;
                    at(*input, &q)
                }
                Op::MergeDims { input, axis } => {
                    let size = dims(*input)[*axis + 1];
                    let mut q = p.clone();
                    q.insert(*axis + 1, p[*axis] % size);
                    q[*axis] = p[*axis] / size;
                    at(*input, &q)
                }
                Op::Slice { input, axis, start, .. } => {
                    let mut q = p.clone();
                    q[*axis] += start;
                    at(*input, &q)
                }
                Op::Concat { left, right, axis } => {
                    let first = dims(*left)[*axis];
                    if p[*axis] < first {
                        at(*left, &p)
                    } else {
                        let mut q = p.clone();
                        q[*axis] -= first;
                        at(*right, &q)
                    }
                }
                Op::Add { left, right } => at(*left, &p) + at(*right, &p),
                Op::Mul { left, right } => at(*left, &p) * at(*right, &p),
                Op::Sum { input, axis } => {
                    let mut total = 0.0;
                    for k in 0..dims(*input)[*axis] {
                        let mut q = p.clone();
                        q.insert(*axis, k);
                        total += at(*input, &q);
                    }
                    total
                }
            };
            data.push(v);
        }
        values.push(data);
    }
    values[out.id].clone()
}

fn assert_close(a: &[f32], b: &[f32]) {
    assert_eq!(a.len(), b.len(), "length mismatch: {} vs {}", a.len(), b.len());
    for (idx, (lhs, rhs)) in a.iter().zip(b.iter()).enumerate() {
        let diff = (lhs - rhs).abs();
        if diff > 1e-4 {
            panic!("values differ at {idx}: {lhs} vs {rhs} (diff {diff})");
        }
    }
}

fn input_of(cx: &mut Graph, dims: &[usize]) -> GraphTensor {
    cx.named_tensor("Input", dims.to_vec())
}

/// What a layer comes to on this input, and its dimensions.
fn conv_output(
    cx: &mut Graph,
    conv: &ConvND,
    dims: &[usize],
    input: &[f32],
    weight: &[f32],
    bias: Option<&[f32]>,
) -> (Vec<usize>, Vec<f32>) {
    let x = input_of(cx, dims);
    let out = conv.forward(cx, x);
    let mut given = vec![(x, input.to_vec()), (conv.weight, weight.to_vec())];
    if let Some(b) = bias {
        given.push((conv.bias.unwrap(), b.to_vec()));
    }
    (cx.dims(out).clone(), run(cx, &given, out))
}

fn transposed_output(
    cx: &mut Graph,
    conv: &ConvTranspose1d,
    dims: &[usize],
    input: &[f32],
    weight: &[f32],
    bias: Option<&[f32]>,
) -> (Vec<usize>, Vec<f32>) {
    let x = input_of(cx, dims);
    let out = conv.forward(cx, x);
    let mut given = vec![(x, input.to_vec()), (conv.weight, weight.to_vec())];
    if let Some(b) = bias {
        given.push((conv.bias.unwrap(), b.to_vec()));
    }
    (cx.dims(out).clone(), run(cx, &given, out))
}

fn candle_conv1d_output(
    conv: &ConvND,
    input: &[f32],
    width: usize,
    weight: &[f32],
    bias: Option<&[f32]>,
) -> candle_core::Result<Vec<f32>> {
    let device = Device::Cpu;
    let input = Tensor::from_vec(input.to_vec(), (1, conv.ch_in, width), &device)?;
    let weight = Tensor::from_vec(
        weight.to_vec(),
        (conv.ch_out, conv.ch_in / conv.groups, conv.kernel[0]),
        &device,
    )?;
    let bias = match bias {
        Some(b) => Some(Tensor::from_vec(b.to_vec(), conv.ch_out, &device)?),
        None => None,
    };

    let output = input.conv1d(
        &weight,
        conv.padding[0],
        conv.stride[0],
        conv.dilation[0],
        conv.groups,
    )?;
    let output = match bias {
        Some(bias) => {
            let bias = bias.reshape((1, conv.ch_out, 1))?;
            output.broadcast_add(&bias)?
        }
        None => output,
    };
    output.flatten_all()?.to_vec1::<f32>()
}

fn candle_conv2d_output(
    conv: &ConvND,
    input: &[f32],
    height: usize,
    width: usize,
    weight: &[f32],
    bias: Option<&[f32]>,
) -> candle_core::Result<Vec<f32>> {
    let device = Device::Cpu;
    let input = Tensor::from_vec(input.to_vec(), (1, conv.ch_in, height, width), &device)?;
    let weight = Tensor::from_vec(
        weight.to_vec(),
        (
            conv.ch_out,
            conv.ch_in / conv.groups,
            conv.kernel[0],
            conv.kernel[1],
        ),
        &device,
    )?;
    let bias = match bias {
        Some(b) => Some(Tensor::from_vec(b.to_vec(), conv.ch_out, &device)?),
        None => None,
    };

    assert_eq!(conv.padding[0], conv.padding[1], "Candle conv2d only supports equal padding");
    assert_eq!(conv.stride[0], conv.stride[1], "Candle conv2d only supports equal stride");
    assert_eq!(conv.dilation[0], conv.dilation[1], "Candle conv2d only supports equal dilation");

    let output = input.conv2d(
        &weight,
        conv.padding[0],
        conv.stride[0],
        conv.dilation[0],
        conv.groups,
    )?;
    let output = match bias {
        Some(bias) => {
            let bias = bias.reshape((1, conv.ch_out, 1, 1))?;
            output.broadcast_add(&bias)?
        }
        None => output,
    };
    output.flatten_all()?.to_vec1::<f32>()
}

fn candle_conv_transpose1d_output(
    conv: &ConvTranspose1d,
    input: &[f32],
    width: usize,
    weight: &[f32],
    bias: Option<&[f32]>,
) -> candle_core::Result<Vec<f32>> {
    let device = Device::Cpu;
    let input = Tensor::from_vec(input.to_vec(), (1, conv.ch_in, width), &device)?;
    let weight = Tensor::from_vec(
        weight.to_vec(),
        (conv.ch_in, conv.ch_out, conv.kernel),
        &device,
    )?;
    let output = input.conv_transpose1d(&weight, conv.padding, 0, conv.stride, 1, 1)?;
    let output = match bias {
        Some(bias) => {
            let bias = Tensor::from_vec(bias.to_vec(), conv.ch_out, &device)?;
            let bias = bias.reshape((1, conv.ch_out, 1))?;
            output.broadcast_add(&bias)?
        }
        None => output,
    };
    output.flatten_all()?.to_vec1::<f32>()
}

#[test]
fn conv1d_values_match_expected_window_sums() -> candle_core::Result<()> {
    let mut cx = Graph::new();
    let conv = ConvND::new(1, 1, vec![3], vec![1], vec![1], vec![1], true, 1, &mut cx);

    let input = [1., 2., 3., 4., 5.];
    let weight = [1., 1., 1.];
    let bias = [0.5];

    let out = candle_conv1d_output(&conv, &input, input.len(), &weight, Some(&bias))?;
    assert_close(&out, &[3.5, 6.5, 9.5, 12.5, 9.5]);

    let (dims, out) = conv_output(&mut cx, &conv, &[1, 1, 5], &input, &weight, Some(&bias));
    assert_eq!(dims, vec![1, 1, 5]);
    assert_close(&out, &[3.5, 6.5, 9.5, 12.5, 9.5]);
    Ok(())
}

#[test]
fn conv2d_values_accumulate_across_channels() -> candle_core::Result<()> {
    let mut cx = Graph::new();
    let conv = ConvND::new(
        2,
        1,
        vec![2, 2],
        vec![1, 1],
        vec![1, 1],
        vec![0, 0],
        true,
        1,
        &mut cx,
    );

    let input = [
        1., 2., 3., 4., 5., 6., 7., 8., 9., // channel 0
        9., 8., 7., 6., 5., 4., 3., 2., 1., // channel 1
    ];
    let weight = [1., 1., 1., 1., 2., 2., 2., 2.];
    let bias = [0.25];

    let out = candle_conv2d_output(&conv, &input, 3, 3, &weight, Some(&bias))?;
    assert_close(&out, &[68.25, 64.25, 56.25, 52.25]);

    let (dims, out) = conv_output(&mut cx, &conv, &[1, 2, 3, 3], &input, &weight, Some(&bias));
    assert_eq!(dims, vec![1, 1, 2, 2]);
    assert_close(&out, &[68.25, 64.25, 56.25, 52.25]);
    Ok(())
}

#[test]
fn conv1d_shapes_follow_stride_and_padding() {
    let mut cx = Graph::new();
    let conv = ConvND::new(1, 1, vec![3], vec![2], vec![1], vec![1], false, 1, &mut cx);

    // expected length: floor((padded_len - dilation*(k-1) -1)/stride +1)
    // padded_len = 7 + 2 = 9
    // effective kernel = 3
    // => (9 -3)/2 +1 = 4
    let inferred = conv.infer_output_shape(&[2, 1, 7]);
    assert_eq!(inferred, vec![2, 1, 4]);

    let x = input_of(&mut cx, &[2, 1, 7]);
    let out = conv.forward(&mut cx, x);
    assert_eq!(cx.dims(out), &vec![2, 1, 4]);
}

#[test]
fn conv2d_shapes_follow_stride_and_padding() {
    let mut cx = Graph::new();
    let conv = ConvND::new(
        3,
        2,
        vec![2, 3],
        vec![1, 2],
        vec![1, 1],
        vec![0, 1],
        true,
        1,
        &mut cx,
    );

    // height: (5 - dilation*(2-1) -1 + 0 +0)/1 +1 = 4
    // width: (6 - dilation*(3-1) -1 + 1 +1)/2 +1 = 3
    let inferred = conv.infer_output_shape(&[1, 3, 5, 6]);
    assert_eq!(inferred, vec![1, 2, 4, 3]);

    let x = input_of(&mut cx, &[1, 3, 5, 6]);
    let out = conv.forward(&mut cx, x);
    assert_eq!(cx.dims(out), &vec![1, 2, 4, 3]);
}

#[test]
fn test_conv1d_with_bias() -> candle_core::Result<()> {
    let mut cx = Graph::new();
    let conv = ConvND::new(1, 1, vec![3], vec![1], vec![1], vec![1], true, 1, &mut cx);

    let width = 5;
    let input_values = vec![1.0, 2.0, 0.0, -1.0, 3.0];
    let weight_values = vec![1.0, -0.5, 0.25];
    let bias_values = vec![0.1];

    let (_, out) = conv_output(
        &mut cx,
        &conv,
        &[1, conv.ch_in, width],
        &input_values,
        &weight_values,
        Some(&bias_values),
    );
    let expected = candle_conv1d_output(
        &conv,
        &input_values,
        width,
        &weight_values,
        Some(&bias_values),
    )?;

    assert_close(&out, &expected);
    Ok(())
}

#[test]
fn test_grouped_conv1d_depthwise_vs_candle() -> candle_core::Result<()> {
    let mut cx = Graph::new();
    let conv = ConvND::new(3, 3, vec![7], vec![1], vec![1], vec![3], false, 3, &mut cx);

    let width = 12;
    let input_values: Vec<f32> = (0..(conv.ch_in * width))
        .map(|i| (i as f32 - 6.0) * 0.2)
        .collect();
    let weight_values: Vec<f32> = (0..(conv.ch_out * (conv.ch_in / conv.groups) * conv.kernel[0]))
        .map(|i| (i as f32 - 5.0) * 0.1)
        .collect();

    let (_, out) = conv_output(
        &mut cx,
        &conv,
        &[1, conv.ch_in, width],
        &input_values,
        &weight_values,
        None,
    );
    let expected = candle_conv1d_output(&conv, &input_values, width, &weight_values, None)?;
    assert_close(&out, &expected);
    Ok(())
}

#[test]
fn test_grouped_conv1d_vs_candle() -> candle_core::Result<()> {
    let mut cx = Graph::new();
    let conv = ConvND::new(4, 6, vec![3], vec![2], vec![1], vec![1], true, 2, &mut cx);

    let width = 9;
    let input_values: Vec<f32> = (0..(conv.ch_in * width))
        .map(|i| (i as f32 - 7.0) * 0.15)
        .collect();
    let weight_values: Vec<f32> = (0..(conv.ch_out * (conv.ch_in / conv.groups) * conv.kernel[0]))
        .map(|i| (i as f32 - 9.0) * 0.07)
        .collect();
    let bias_values: Vec<f32> = (0..conv.ch_out).map(|i| i as f32 * 0.25 - 0.4).collect();

    let (_, out) = conv_output(
        &mut cx,
        &conv,
        &[1, conv.ch_in, width],
        &input_values,
        &weight_values,
        Some(&bias_values),
    );
    let expected = candle_conv1d_output(
        &conv,
        &input_values,
        width,
        &weight_values,
        Some(&bias_values),
    )?;
    assert_close(&out, &expected);
    Ok(())
}

#[test]
fn test_conv_transpose1d_basic_shape() {
    let mut cx = Graph::new();
    let conv = ConvTranspose1d::new(2, 3, 4, 2, 1, false, &mut cx);

    let inferred = conv.infer_output_shape(&[1, 2, 5]);
    assert_eq!(inferred, vec![1, 3, 10]);

    let x = input_of(&mut cx, &[1, 2, 5]);
    let out = conv.forward(&mut cx, x);
    assert_eq!(cx.dims(out), &vec![1, 3, 10]);
}

#[test]
fn test_conv_transpose1d_vs_candle() -> candle_core::Result<()> {
    let mut cx = Graph::new();
    let conv = ConvTranspose1d::new(2, 3, 4, 2, 1, false, &mut cx);

    let width = 6;
    let input_values: Vec<f32> = (0..(conv.ch_in * width))
        .map(|i| (i as f32 - 3.0) * 0.2)
        .collect();
    let weight_values: Vec<f32> = (0..(conv.ch_in * conv.ch_out * conv.kernel))
        .map(|i| (i as f32 - 8.0) * 0.1)
        .collect();

    let (_, out) = transposed_output(
        &mut cx,
        &conv,
        &[1, conv.ch_in, width],
        &input_values,
        &weight_values,
        None,
    );
    let expected =
        candle_conv_transpose1d_output(&conv, &input_values, width, &weight_values, None)?;
    assert_close(&out, &expected);
    Ok(())
}

#[test]
fn test_conv_transpose1d_with_bias() -> candle_core::Result<()> {
    let mut cx = Graph::new();
    let conv = ConvTranspose1d::new(1, 2, 5, 3, 2, true, &mut cx);

    let width = 4;
    let input_values: Vec<f32> = vec![1.0, -2.0, 0.5, 3.0];
    let weight_values: Vec<f32> = (0..(conv.ch_in * conv.ch_out * conv.kernel))
        .map(|i| (i as f32 - 4.0) * 0.08)
        .collect();
    let bias_values: Vec<f32> = vec![0.3, -0.25];

    let (_, out) = transposed_output(
        &mut cx,
        &conv,
        &[1, conv.ch_in, width],
        &input_values,
        &weight_values,
        Some(&bias_values),
    );
    let expected = candle_conv_transpose1d_output(
        &conv,
        &input_values,
        width,
        &weight_values,
        Some(&bias_values),
    )?;
    assert_close(&out, &expected);
    Ok(())
}

#[test]
fn dilated_strided_padded_grouped_conv2d_agrees() -> candle_core::Result<()> {
    let mut cx = Graph::new();
    let conv = ConvND::new(
        4,
        2,
        vec![2, 3],
        vec![2, 2],
        vec![2, 2],
        vec![1, 1],
        false,
        2,
        &mut cx,
    );
    let input: Vec<f32> = (0..4 * 7 * 8).map(|i| (i % 11) as f32 - 5.0).collect();
    let weight: Vec<f32> = (0..2 * 2 * 6).map(|i| (i % 7) as f32 * 0.5 - 1.0).collect();
    let (dims, out) = conv_output(&mut cx, &conv, &[1, 4, 7, 8], &input, &weight, None);
    assert_eq!(dims, conv.infer_output_shape(&[1, 4, 7, 8]));
    let expected = candle_conv2d_output(&conv, &input, 7, 8, &weight, None)?;
    assert_close(&out, &expected);
    Ok(())
}

#[test]
fn batches_are_convolved_one_by_one() {
    let mut cx = Graph::new();
    let conv = ConvND::new(1, 1, vec![2], vec![1], vec![1], vec![0], false, 1, &mut cx);
    let (dims, out) = conv_output(
        &mut cx,
        &conv,
        &[2, 1, 3],
        &[1., 2., 3., 10., 20., 30.],
        &[1., 1.],
        None,
    );
    assert_eq!(dims, vec![2, 1, 2]);
    assert_close(&out, &[3., 5., 30., 50.]);
}

#[test]
fn a_shaped_weight_does_as_well_where_it_has_one_place() {
    let mut cx = Graph::new();
    let mut conv = ConvND::new(2, 1, vec![1], vec![1], vec![1], vec![0], false, 1, &mut cx);
    conv.weight = cx.named_tensor("Shaped", vec![1, 2, 1]);
    let (dims, out) =
        conv_output(&mut cx, &conv, &[1, 2, 2], &[1., 2., 3., 4.], &[10., 1.], None);
    assert_eq!(dims, vec![1, 1, 2]);
    assert_close(&out, &[13., 24.]);
}

#[test]
fn parameters_are_named() {
    let mut cx = Graph::new();
    let conv = ConvND::new(2, 4, vec![3], vec![1], vec![1], vec![0], true, 2, &mut cx);
    assert_eq!(cx.dims(conv.weight), &vec![4, 3]);
    assert_eq!(cx.dims(conv.bias.unwrap()), &vec![4]);
    assert!(matches!(&cx.nodes[conv.weight.id].op, Op::Tensor { name } if name == "ConvWeight"));
    assert!(
        matches!(&cx.nodes[conv.bias.unwrap().id].op, Op::Tensor { name } if name == "ConvBias")
    );
    let up = ConvTranspose1d::new(2, 4, 3, 1, 0, true, &mut cx);
    assert_eq!(cx.dims(up.weight), &vec![2, 4, 3]);
    assert!(
        matches!(&cx.nodes[up.weight.id].op, Op::Tensor { name } if name == "ConvTranspose1dWeight")
    );
    assert!(
        matches!(&cx.nodes[up.bias.unwrap().id].op, Op::Tensor { name } if name == "ConvTranspose1dBias")
    );
    let plain = ConvTranspose1d::new(2, 4, 3, 1, 0, false, &mut cx);
    assert!(plain.bias.is_none());
}

#[test]
fn windows_are_counted() {
    assert_eq!(window_count(9, 3, 2, 1), 4);
    assert_eq!(window_count(5, 3, 1, 2), 1);
    assert_eq!(window_count(4, 3, 1, 2), 0);
    assert_eq!(window_count(0, 1, 1, 1), 0);
    assert_eq!(window_count(7, 1, 1, 1), 7);
    assert_eq!(window_count(usize::MAX, usize::MAX, 1, usize::MAX), 0);
}
