use luminal_runtime::parse::{parse_i32, parse_usize};
use luminal_runtime::torch::{
    compile, Arg, Keyword, Notice, Program, PyTorchGraphNode, TorchError, TorchOp,
    DEFAULT_EPS_BITS, ONE_BITS,
};

fn arg(text: &str) -> Arg {
    Arg {
        text: text.to_string(),
        number: text.parse::<f32>().ok().map(|x| x.to_bits()),
    }
}

fn args(texts: &[&str]) -> Vec<Arg> {
    texts.iter().map(|t| arg(t)).collect()
}

fn node(name: &str, op: &str, target: &str, texts: &[&str]) -> PyTorchGraphNode {
    PyTorchGraphNode {
        name: name.to_string(),
        op: op.to_string(),
        target: target.to_string(),
        args: args(texts),
        kwargs: vec![],
        shape: vec![],
        dtype: "torch.float32".to_string(),
        length: 0,
    }
}

fn call(name: &str, target: &str, texts: &[&str]) -> PyTorchGraphNode {
    node(name, "call_function", target, texts)
}

fn call_with(name: &str, target: &str, texts: &[&str], kw: &[(&str, &str)]) -> PyTorchGraphNode {
    let mut n = call(name, target, texts);
    n.kwargs = kw
        .iter()
        .map(|(k, v)| Keyword { key: k.to_string(), value: arg(v) })
        .collect();
    n
}

fn input(name: &str, shape: &[usize]) -> PyTorchGraphNode {
    let mut n = node(name, "placeholder", name, &[]);
    n.shape = shape.to_vec();
    n
}

fn int_input(name: &str, shape: &[usize]) -> PyTorchGraphNode {
    let mut n = input(name, shape);
    n.dtype = "torch.int64".to_string();
    n
}

fn ops(p: &Program) -> Vec<TorchOp> {
    p.steps.iter().map(|s| s.op).collect()
}

fn last_dims(p: &Program) -> Vec<usize> {
    p.steps.last().unwrap().dims.clone()
}

fn error_of(nodes: Vec<PyTorchGraphNode>) -> (usize, TorchError) {
    match compile(&nodes, false).0 {
        Ok(_) => panic!("the graph was read"),
        Err(e) => e,
    }
}

fn read(nodes: Vec<PyTorchGraphNode>) -> Program {
    match compile(&nodes, false).0 {
        Ok(p) => p,
        Err(e) => panic!("the graph was not read: {:?}", e),
    }
}

#[test]
fn sums_and_products_of_tensors_and_numbers() {
    let p = read(vec![
        input("x", &[2, 3]),
        input("y", &[2, 3]),
        call("s", "aten.add.Tensor", &["x", "y"]),
        call("t", "aten.mul", &["s", "2.5"]),
        call("u", "aten.add", &["1", "t"]),
        node("output", "output", "output", &["u", "None", "nothing"]),
    ]);
    assert_eq!(
        ops(&p),
        vec![
            TorchOp::Input,
            TorchOp::Input,
            TorchOp::Add { left: 0, right: 1 },
            TorchOp::MulScalar { input: 2, bits: 2.5f32.to_bits() },
            TorchOp::AddScalar { input: 3, bits: 1.0f32.to_bits() },
            TorchOp::Output { input: 4 },
        ]
    );
    assert_eq!(last_dims(&p), vec![2, 3]);
    assert_eq!(p.outputs, vec!["u".to_string()]);
    assert_eq!(p.names.last().unwrap(), &("u".to_string(), 5));
}

#[test]
fn constants_have_the_bits_of_their_numbers() {
    assert_eq!(ONE_BITS, 1.0f32.to_bits());
    assert_eq!(DEFAULT_EPS_BITS, 1e-5f32.to_bits());
}

#[test]
fn arithmetic_errors() {
    assert_eq!(
        error_of(vec![input("x", &[2]), call("s", "aten.add.Tensor", &["x"])]),
        (1, TorchError::TooFewArgs)
    );
    assert_eq!(
        error_of(vec![input("x", &[2]), call("s", "aten.mul.Tensor", &["x", "why"])]),
        (1, TorchError::BadNumber(1))
    );
    assert_eq!(
        error_of(vec![input("x", &[2]), call("s", "aten.mul.Tensor", &["why", "x"])]),
        (1, TorchError::BadNumber(0))
    );
    assert_eq!(
        error_of(vec![call("s", "aten.add.Tensor", &["1", "2"])]),
        (0, TorchError::MissingTensor(0))
    );
    assert_eq!(
        error_of(vec![
            input("x", &[2]),
            input("y", &[3]),
            call("s", "aten.add.Tensor", &["x", "y"]),
        ]),
        (2, TorchError::DimsMismatch)
    );
}

#[test]
fn a_linear_layer_with_bias() {
    let p = read(vec![
        input("x", &[4, 3]),
        input("w", &[5, 3]),
        input("b", &[5]),
        call("y", "aten.linear.default", &["x", "w", "b"]),
    ]);
    assert_eq!(
        ops(&p)[3..].to_vec(),
        vec![
            TorchOp::Transpose { input: 1, dim0: 1, dim1: 0 },
            TorchOp::Matmul { left: 0, right: 3 },
            TorchOp::ExpandDim { input: 2, axis: 0, size: 4 },
            TorchOp::Add { left: 4, right: 5 },
        ]
    );
    assert_eq!(p.steps[3].dims, vec![3, 5]);
    assert_eq!(last_dims(&p), vec![4, 5]);
}

#[test]
fn linear_errors() {
    let x = || input("x", &[4, 3]);
    assert_eq!(
        error_of(vec![x(), call("y", "aten.linear.default", &["x"])]),
        (1, TorchError::TooFewArgs)
    );
    assert_eq!(
        error_of(vec![x(), call("y", "aten.linear.default", &["z", "x"])]),
        (1, TorchError::MissingTensor(0))
    );
    assert_eq!(
        error_of(vec![x(), call("y", "aten.linear.default", &["x", "w"])]),
        (1, TorchError::MissingTensor(1))
    );
    assert_eq!(
        error_of(vec![
            x(),
            input("w", &[3]),
            call("y", "aten.linear.default", &["x", "w"]),
        ]),
        (2, TorchError::WrongRank)
    );
    assert_eq!(
        error_of(vec![
            x(),
            input("w", &[5, 4]),
            call("y", "aten.linear.default", &["x", "w"]),
        ]),
        (2, TorchError::DimsMismatch)
    );
}

#[test]
fn a_view_infers_one_dimension() {
    let p = read(vec![
        input("x", &[4, 6]),
        call("y", "aten.view.default", &["x", "2", "-1", "3"]),
    ]);
    assert_eq!(ops(&p)[1], TorchOp::Reinterpret { input: 0 });
    assert_eq!(last_dims(&p), vec![2, 4, 3]);
    assert_eq!(last_dims(&p).iter().product::<usize>(), 24);
    let q = read(vec![input("x", &[4, 6]), call("y", "aten.view.default", &["x", "+24"])]);
    assert_eq!(last_dims(&q), vec![24]);
}

#[test]
fn view_errors() {
    let x = || input("x", &[4, 6]);
    let view = |a: &[&str]| call("y", "aten.view.default", a);
    assert_eq!(error_of(vec![x(), view(&["x"])]), (1, TorchError::TooFewArgs));
    assert_eq!(error_of(vec![x(), view(&["z", "2"])]), (1, TorchError::MissingTensor(0)));
    assert_eq!(error_of(vec![x(), view(&["x", "2", "2.0"])]), (1, TorchError::BadNumber(2)));
    assert_eq!(error_of(vec![x(), view(&["x", "-1", "-1"])]), (1, TorchError::TwoInferred));
    assert_eq!(error_of(vec![x(), view(&["x", "0", "-1"])]), (1, TorchError::BadDim));
    assert_eq!(error_of(vec![x(), view(&["x", "-2"])]), (1, TorchError::BadDim));
    let huge = usize::MAX / 2;
    assert_eq!(
        error_of(vec![input("x", &[huge, 4]), view(&["x", "1"])]),
        (1, TorchError::TooLarge)
    );
}

#[test]
fn axes_are_exchanged() {
    let p = read(vec![
        input("x", &[2, 3, 4]),
        call("y", "aten.transpose.int", &["x", "-1", "0"]),
    ]);
    assert_eq!(
        ops(&p)[1..].to_vec(),
        vec![
            TorchOp::Transpose { input: 0, dim0: 2, dim1: 0 },
            TorchOp::MulScalar { input: 1, bits: 1.0f32.to_bits() },
        ]
    );
    assert_eq!(last_dims(&p), vec![4, 3, 2]);
    let t = |a: &[&str]| error_of(vec![input("x", &[2, 3]), call("y", "aten.transpose.int", a)]).1;
    assert_eq!(t(&["x", "0"]), TorchError::TooFewArgs);
    assert_eq!(t(&["z", "0", "1"]), TorchError::MissingTensor(0));
    assert_eq!(t(&["x", "a", "1"]), TorchError::BadNumber(1));
    assert_eq!(t(&["x", "0", ""]), TorchError::BadNumber(2));
    assert_eq!(t(&["x", "0", "2"]), TorchError::DimOutOfRange);
    assert_eq!(t(&["x", "-3", "0"]), TorchError::DimOutOfRange);
}

#[test]
fn dropout_and_copies_are_the_tensor_itself() {
    let p = read(vec![
        input("x", &[2]),
        call("y", "aten.dropout.default", &["x", "0.5", "False"]),
        call("z", "aten.lift_fresh_copy.default", &["y"]),
        call("w", "aten.dropout.default", &["unknown"]),
        call("v", "aten.dropout.default", &[]),
    ]);
    assert_eq!(p.steps.len(), 1);
    assert_eq!(
        p.names,
        vec![
            ("x".to_string(), 0),
            ("y".to_string(), 0),
            ("z".to_string(), 0),
        ]
    );
    assert_eq!(
        error_of(vec![call("z", "aten.lift_fresh_copy.default", &[])]),
        (0, TorchError::TooFewArgs)
    );
    assert_eq!(
        error_of(vec![call("z", "aten.lift_fresh_copy.default", &["q"])]),
        (0, TorchError::MissingTensor(0))
    );
}

#[test]
fn layer_norm_with_weight_and_bias() {
    let p = read(vec![
        input("x", &[4, 3]),
        input("w", &[3]),
        input("b", &[3]),
        call_with("y", "aten.layer_norm.default", &["x", "[3]", "w", "b"], &[("eps", "0.001")]),
    ]);
    assert_eq!(
        ops(&p)[3..].to_vec(),
        vec![
            TorchOp::LayerNorm { input: 0, axis: 1, eps_bits: 0.001f32.to_bits() },
            TorchOp::ExpandDim { input: 1, axis: 0, size: 4 },
            TorchOp::Mul { left: 3, right: 4 },
            TorchOp::ExpandDim { input: 2, axis: 0, size: 4 },
            TorchOp::Add { left: 5, right: 6 },
        ]
    );
    let q = read(vec![
        input("x", &[4, 3]),
        input("None", &[3]),
        call("y", "aten.layer_norm.default", &["x", "[3]", "None", "None"]),
    ]);
    assert_eq!(
        ops(&q)[2..].to_vec(),
        vec![TorchOp::LayerNorm { input: 0, axis: 1, eps_bits: 1e-5f32.to_bits() }]
    );
    assert_eq!(read(vec![call("y", "aten.layer_norm.default", &["x"])]).steps.len(), 0);
    assert_eq!(
        error_of(vec![
            input("x", &[1]),
            call("y", "aten.squeeze.dim", &["x", "0"]),
            call("z", "aten.layer_norm.default", &["y"]),
        ]),
        (2, TorchError::WrongRank)
    );
    // A weight is repeated along one new axis only.
    assert_eq!(
        error_of(vec![
            input("x", &[2, 4, 3]),
            input("w", &[3]),
            call("y", "aten.layer_norm.default", &["x", "[3]", "w"]),
        ]),
        (2, TorchError::DimsMismatch)
    );
}

#[test]
fn the_parts_of_a_split() {
    let split = |index: &str| {
        vec![
            input("x", &[2, 7]),
            call("s", "aten.split.Tensor", &["x", "3", "-1"]),
            call("c", "<built-in function getitem>", &["s", index]),
        ]
    };
    let part = |index: &str| {
        let p = read(split(index));
        assert_eq!(p.steps.len(), 3);
        assert_eq!(ops(&p)[2], TorchOp::MulScalar { input: 1, bits: 1.0f32.to_bits() });
        ops(&p)[1]
    };
    assert_eq!(part("0"), TorchOp::Slice { input: 0, axis: 1, start: 0, end: 3 });
    assert_eq!(part("1"), TorchOp::Slice { input: 0, axis: 1, start: 3, end: 6 });
    assert_eq!(part("2"), TorchOp::Slice { input: 0, axis: 1, start: 6, end: 7 });
    assert_eq!(last_dims(&read(split("2"))), vec![2, 1]);
    assert_eq!(error_of(split("3")), (2, TorchError::BadRange));
    assert_eq!(error_of(split("x")), (2, TorchError::BadNumber(1)));
    assert_eq!(error_of(split("18446744073709551615")), (2, TorchError::TooLarge));
}

#[test]
fn split_and_getitem_errors() {
    let x = || input("x", &[4]);
    assert_eq!(
        error_of(vec![x(), call("s", "aten.split.Tensor", &["x"])]),
        (1, TorchError::TooFewArgs)
    );
    assert_eq!(
        error_of(vec![x(), call("c", "getitem", &["x"])]),
        (1, TorchError::TooFewArgs)
    );
    assert_eq!(
        error_of(vec![x(), call("c", "operator.getitem", &["y", "0"])]),
        (1, TorchError::MissingTensor(0))
    );
    assert_eq!(
        error_of(vec![x(), call("c", "getitem", &["x", "0"])]),
        (1, TorchError::NotASplit)
    );
    let after = |a: &[&str]| {
        error_of(vec![x(), call("s", "aten.split.Tensor", a), call("c", "getitem", &["s", "0"])])
    };
    assert_eq!(after(&["x", "-2"]), (2, TorchError::BadNumber(1)));
    assert_eq!(after(&["x", "2", "z"]), (2, TorchError::BadNumber(2)));
    assert_eq!(after(&["x", "2", "1"]), (2, TorchError::DimOutOfRange));
    let p = read(vec![
        x(),
        call("s", "aten.split.Tensor", &["x", "2"]),
        call("c", "getitem", &["s", "1"]),
    ]);
    assert_eq!(ops(&p)[1], TorchOp::Slice { input: 0, axis: 0, start: 2, end: 4 });
}

#[test]
fn axes_of_size_one_come_and_go() {
    let p = read(vec![
        input("x", &[2, 3]),
        call("y", "aten.unsqueeze.default", &["x", "-1"]),
        call("z", "aten.squeeze.dim", &["y", "2"]),
    ]);
    assert_eq!(
        ops(&p)[1..].to_vec(),
        vec![
            TorchOp::Unsqueeze { input: 0, axis: 2 },
            TorchOp::Squeeze { input: 1, axis: 2 },
        ]
    );
    assert_eq!(p.steps[1].dims, vec![2, 3, 1]);
    assert_eq!(p.steps[2].dims, vec![2, 3]);
    let un = |a: &[&str]| error_of(vec![input("x", &[2, 3]), call("y", "aten.unsqueeze.default", a)]).1;
    assert_eq!(un(&["x"]), TorchError::TooFewArgs);
    assert_eq!(un(&["q", "0"]), TorchError::MissingTensor(0));
    assert_eq!(un(&["x", "one"]), TorchError::BadNumber(1));
    assert_eq!(un(&["x", "3"]), TorchError::DimOutOfRange);
    assert_eq!(un(&["x", "-4"]), TorchError::DimOutOfRange);
    let sq = |a: &[&str]| error_of(vec![input("x", &[2, 1]), call("y", "aten.squeeze.dim", a)]).1;
    assert_eq!(sq(&["x"]), TorchError::TooFewArgs);
    assert_eq!(sq(&["q", "0"]), TorchError::MissingTensor(0));
    assert_eq!(sq(&["x", "one"]), TorchError::BadNumber(1));
    assert_eq!(sq(&["x", "2"]), TorchError::DimOutOfRange);
    assert_eq!(sq(&["x", "0"]), TorchError::NotUnit);
}

#[test]
fn ranges_of_numbers() {
    let p = read(vec![call("r", "aten.arange.default", &["5"])]);
    assert_eq!(ops(&p), vec![TorchOp::Arange]);
    assert_eq!(last_dims(&p), vec![5]);
    let mut from = call("r", "aten.arange.start", &["2", "5.5"]);
    from.length = 4;
    let p = read(vec![from]);
    assert_eq!(
        ops(&p),
        vec![TorchOp::Arange, TorchOp::AddScalar { input: 0, bits: 2.0f32.to_bits() }]
    );
    assert_eq!(last_dims(&p), vec![4]);
    let mut step = call("r", "aten.arange.start_step", &["1", "2", "0.5"]);
    step.length = 2;
    let p = read(vec![step]);
    assert_eq!(
        ops(&p),
        vec![
            TorchOp::Arange,
            TorchOp::MulScalar { input: 0, bits: 0.5f32.to_bits() },
            TorchOp::AddScalar { input: 1, bits: 1.0f32.to_bits() },
        ]
    );
    let e = |t: &str, a: &[&str]| error_of(vec![call("r", t, a)]).1;
    assert_eq!(e("aten.arange.default", &[]), TorchError::TooFewArgs);
    assert_eq!(e("aten.arange.default", &["1.5"]), TorchError::BadNumber(0));
    assert_eq!(e("aten.arange.start", &["1"]), TorchError::TooFewArgs);
    assert_eq!(e("aten.arange.start", &["a", "1"]), TorchError::BadNumber(0));
    assert_eq!(e("aten.arange.start", &["1", "a"]), TorchError::BadNumber(1));
    assert_eq!(e("aten.arange.start_step", &["1", "2"]), TorchError::TooFewArgs);
    assert_eq!(e("aten.arange.start_step", &["a", "2", "3"]), TorchError::BadNumber(0));
    assert_eq!(e("aten.arange.start_step", &["1", "a", "3"]), TorchError::BadNumber(1));
    assert_eq!(e("aten.arange.start_step", &["1", "2", "a"]), TorchError::BadNumber(2));
}

#[test]
fn attention_is_scaled_by_the_head_size() {
    let target = "aten.scaled_dot_product_attention.default";
    let p = read(vec![
        input("q", &[1, 2, 3, 8]),
        input("k", &[1, 2, 5, 8]),
        input("v", &[1, 2, 5, 8]),
        call("a", target, &["q", "k", "v"]),
    ]);
    assert_eq!(
        ops(&p)[3..].to_vec(),
        vec![
            TorchOp::Transpose { input: 1, dim0: 2, dim1: 3 },
            TorchOp::Matmul { left: 0, right: 3 },
            TorchOp::ScaleByRoot { input: 4, size: 8 },
            TorchOp::Softmax { input: 5, axis: 3 },
            TorchOp::Matmul { left: 6, right: 2 },
        ]
    );
    assert_eq!(p.steps[4].dims, vec![1, 2, 3, 5]);
    assert_eq!(last_dims(&p), vec![1, 2, 3, 8]);
    let e = |q: &[usize], k: &[usize], v: &[usize], a: &[&str]| {
        error_of(vec![input("q", q), input("k", k), input("v", v), call("a", target, a)]).1
    };
    let s: &[usize] = &[2, 3];
    assert_eq!(e(s, s, s, &["q", "k"]), TorchError::TooFewArgs);
    assert_eq!(e(s, s, s, &["x", "k", "v"]), TorchError::MissingTensor(0));
    assert_eq!(e(s, s, s, &["q", "x", "v"]), TorchError::MissingTensor(1));
    assert_eq!(e(s, s, s, &["q", "k", "x"]), TorchError::MissingTensor(2));
    assert_eq!(e(s, &[3], s, &["q", "k", "v"]), TorchError::WrongRank);
    assert_eq!(e(s, &[2, 4], s, &["q", "k", "v"]), TorchError::DimsMismatch);
    assert_eq!(e(s, s, &[7, 3], &["q", "k", "v"]), TorchError::DimsMismatch);
}

#[test]
fn only_approximate_gelu_is_supported() {
    let target = "aten.gelu.default";
    let p = read(vec![
        input("x", &[2]),
        call_with("y", target, &["x"], &[("approximate", "tanh")]),
        call_with("z", target, &["unknown"], &[("approximate", "tanh")]),
        call_with("w", target, &[], &[("approximate", "tanh")]),
    ]);
    assert_eq!(ops(&p), vec![TorchOp::Input, TorchOp::Gelu { input: 0 }]);
    assert_eq!(p.names.len(), 2);
    assert_eq!(
        error_of(vec![input("x", &[2]), call("y", target, &["x"])]),
        (1, TorchError::ExactGelu)
    );
    assert_eq!(
        error_of(vec![call_with("y", target, &["x"], &[("approximate", "none")])]),
        (0, TorchError::ExactGelu)
    );
}

#[test]
fn an_embedding_gathers_rows() {
    let p = read(vec![
        input("w", &[10, 4]),
        int_input("i", &[2, 3]),
        call("e", "aten.embedding.default", &["w", "i"]),
    ]);
    assert_eq!(
        ops(&p),
        vec![
            TorchOp::Input,
            TorchOp::Input,
            TorchOp::AsInt { input: 1 },
            TorchOp::MulSize { input: 2, size: 4 },
            TorchOp::ExpandDim { input: 3, axis: 2, size: 4 },
            TorchOp::Arange,
            TorchOp::ExpandDim { input: 5, axis: 0, size: 2 },
            TorchOp::ExpandDim { input: 6, axis: 1, size: 3 },
            TorchOp::Add { left: 4, right: 7 },
            TorchOp::Gather { input: 0, indices: 8 },
        ]
    );
    assert_eq!(last_dims(&p), vec![2, 3, 4]);
    let e = |a: &[&str]| {
        error_of(vec![input("w", &[10]), input("i", &[2]), call("e", "aten.embedding.default", a)]).1
    };
    assert_eq!(e(&["w"]), TorchError::TooFewArgs);
    assert_eq!(e(&["z", "i"]), TorchError::MissingTensor(0));
    assert_eq!(e(&["w", "z"]), TorchError::MissingTensor(1));
    assert_eq!(e(&["w", "i"]), TorchError::WrongRank);
}

#[test]
fn one_place_is_picked_along_an_axis() {
    let p = read(vec![
        input("x", &[2, 3, 4]),
        int_input("i", &[2]),
        call_with("y", "aten.index.Tensor", &["x"], &[("index_dim", "1"), ("index_tensor", "i")]),
    ]);
    assert_eq!(
        ops(&p)[3..].to_vec(),
        vec![
            TorchOp::Reinterpret { input: 0 },
            TorchOp::Arange,
            TorchOp::MulNumber { input: 4, number: 3 },
            TorchOp::Add { left: 5, right: 2 },
            TorchOp::MulSize { input: 6, size: 4 },
            TorchOp::ExpandDim { input: 7, axis: 1, size: 4 },
            TorchOp::Arange,
            TorchOp::ExpandDim { input: 9, axis: 0, size: 2 },
            TorchOp::Add { left: 8, right: 10 },
            TorchOp::Gather { input: 3, indices: 11 },
            TorchOp::Reinterpret { input: 12 },
        ]
    );
    assert_eq!(p.steps[3].dims, vec![6, 4]);
    assert_eq!(last_dims(&p), vec![2, 1, 4]);
}

#[test]
fn indexing_errors() {
    let e = |idx: &[usize], a: &[&str], kw: &[(&str, &str)]| {
        error_of(vec![
            input("x", &[2, 3]),
            int_input("i", idx),
            call_with("y", "aten.index.Tensor", a, kw),
        ])
        .1
    };
    let good: &[(&str, &str)] = &[("index_dim", "1"), ("index_tensor", "i")];
    assert_eq!(e(&[2], &[], good), TorchError::TooFewArgs);
    assert_eq!(e(&[2], &["z"], good), TorchError::MissingTensor(0));
    assert_eq!(e(&[2], &["x"], &[("index_tensor", "i")]), TorchError::MissingIndexDim);
    assert_eq!(
        e(&[2], &["x"], &[("index_dim", "-1"), ("index_tensor", "i")]),
        TorchError::MissingIndexDim
    );
    assert_eq!(e(&[2], &["x"], &[("index_dim", "1")]), TorchError::MissingIndexTensor);
    assert_eq!(
        e(&[2], &["x"], &[("index_dim", "1"), ("index_tensor", "z")]),
        TorchError::UnknownIndexTensor
    );
    assert_eq!(
        e(&[2], &["x"], &[("index_dim", "2"), ("index_tensor", "i")]),
        TorchError::DimOutOfRange
    );
    assert_eq!(e(&[3], &["x"], good), TorchError::UnsupportedIndices);
    assert_eq!(e(&[2, 1], &["x"], good), TorchError::DimsMismatch);
}

#[test]
fn one_index_is_used_everywhere() {
    for (shape, steps) in [(vec![1], 1), (vec![1, 1], 2)] {
        let p = read(vec![
            input("x", &[2, 3]),
            int_input("i", &shape),
            call_with(
                "y",
                "aten.index.Tensor",
                &["x"],
                &[("index_dim", "1"), ("index_tensor", "i")],
            ),
        ]);
        assert_eq!(ops(&p)[4], TorchOp::ExpandDim { input: 2, axis: 0, size: 2 });
        assert_eq!(ops(&p)[5], TorchOp::Squeeze { input: 4, axis: 1 });
        assert_eq!(p.steps[4 + steps].dims, vec![2]);
        assert_eq!(last_dims(&p), vec![2, 1]);
    }
}

#[test]
fn inputs_and_parameters() {
    let mut parameter = node("p", "get_attr", "p", &[]);
    parameter.shape = vec![2, 2];
    let mut long = input("l", &[3]);
    long.dtype = "long".to_string();
    let p = read(vec![
        input("scalar", &[]),
        input("five", &[1, 2, 3, 4, 5]),
        parameter,
        long,
        node("skipped", "call_module", "m", &[]),
    ]);
    assert_eq!(p.steps[0].dims, vec![1]);
    assert_eq!(p.steps[1].dims, vec![1]);
    assert_eq!(p.steps[2].dims, vec![2, 2]);
    assert_eq!(p.steps[4].op, TorchOp::AsInt { input: 3 });
    assert_eq!(p.steps.len(), 5);
    assert_eq!(
        error_of(vec![call("y", "aten.conv2d.default", &["x"])]),
        (0, TorchError::Unsupported)
    );
}

#[test]
fn a_later_node_of_the_same_name_counts() {
    let p = read(vec![
        input("x", &[2]),
        input("x", &[3]),
        call("y", "aten.add", &["x", "1"]),
    ]);
    assert_eq!(ops(&p)[2], TorchOp::AddScalar { input: 1, bits: 1.0f32.to_bits() });
}

#[test]
fn whole_numbers_are_read() {
    assert_eq!(parse_usize("0"), Some(0));
    assert_eq!(parse_usize("+12"), Some(12));
    assert_eq!(parse_usize("007"), Some(7));
    assert_eq!(parse_usize("18446744073709551615"), Some(usize::MAX));
    for bad in ["", "+", "-0", "1_0", " 1", "1.0", "18446744073709551616", "٣"] {
        assert_eq!(parse_usize(bad), None, "{bad}");
        assert!(bad.parse::<usize>().is_err());
    }
    assert_eq!(parse_i32("-2147483648"), Some(i32::MIN));
    assert_eq!(parse_i32("2147483647"), Some(i32::MAX));
    assert_eq!(parse_i32("+5"), Some(5));
    assert_eq!(parse_i32("-0"), Some(0));
    for bad in ["", "-", "--1", "-+1", "2147483648", "-2147483649", "1e3"] {
        assert_eq!(parse_i32(bad), None, "{bad}");
        assert!(bad.parse::<i32>().is_err());
    }
    for n in [0usize, 9, 10, 99, 12345, usize::MAX] {
        assert_eq!(parse_usize(&n.to_string()), Some(n));
    }
}

/// The elements of each tensor, row by row, for programs of inputs, transposes, slices,
/// products with a number, and outputs.
fn run(p: &Program, given: &[f32]) -> Vec<Vec<f32>> {
    fn places(dims: &[usize]) -> Vec<Vec<usize>> {
        let mut all = vec![vec![]];
        for d in dims {
            let mut next = vec![];
            for at in &all {
                for i in 0..*d {
                    let mut longer: Vec<usize> = at.clone();
                    longer.push(i);
                    next.push(longer);
                }
            }
            all = next;
        }
        all
    }
    fn number(at: &[usize], dims: &[usize]) -> usize {
        at.iter().zip(dims).fold(0, |n, (i, d)| n * d + i)
    }
    let mut made: Vec<Vec<f32>> = vec![];
    for s in &p.steps {
        let tensor = match s.op {
            TorchOp::Input => given.to_vec(),
            TorchOp::Transpose { input, dim0, dim1 } => places(&s.dims)
                .into_iter()
                .map(|mut at| {
                    at.swap(dim0, dim1);
                    made[input][number(&at, &p.steps[input].dims)]
                })
                .collect(),
            TorchOp::Slice { input, axis, start, .. } => places(&s.dims)
                .into_iter()
                .map(|mut at| {
                    at[axis] += start;
                    made[input][number(&at, &p.steps[input].dims)]
                })
                .collect(),
            TorchOp::MulScalar { input, bits } => {
                made[input].iter().map(|v| v * f32::from_bits(bits)).collect()
            }
            TorchOp::Output { input } => made[input].clone(),
            _ => panic!("not in these programs"),
        };
        made.push(tensor);
    }
    made
}

fn handed_out(nodes: Vec<PyTorchGraphNode>, given: &[f32]) -> (Vec<usize>, Vec<f32>) {
    let p = read(nodes);
    assert_eq!(p.outputs.len(), 1);
    let name = p.outputs[0].clone();
    let id = p.names.iter().rev().find(|(n, _)| *n == name).unwrap().1;
    (p.steps[id].dims.clone(), run(&p, given)[id].clone())
}

fn numbers(n: usize) -> Vec<f32> {
    (0..n).map(|i| i as f32 + 0.5).collect()
}

#[test]
fn transposed_data_do_not_depend_on_how_axes_are_named() {
    let given = numbers(6);
    let graph = |a: &str, b: &str| {
        vec![
            input("x", &[2, 3]),
            call("t", "aten.transpose.int", &["x", a, b]),
            node("out", "output", "output", &["t"]),
        ]
    };
    let (dims, data) = handed_out(graph("0", "1"), &given);
    assert_eq!(dims, vec![3, 2]);
    assert_eq!(data, vec![0.5, 3.5, 1.5, 4.5, 2.5, 5.5]);
    for (a, b) in [("1", "0"), ("-1", "0"), ("0", "-1"), ("-2", "-1")] {
        assert_eq!(handed_out(graph(a, b), &given), (dims.clone(), data.clone()));
    }
}

#[test]
fn transposing_twice_gives_the_input_back() {
    let given = numbers(24);
    let nodes = vec![
        input("x", &[2, 3, 4]),
        call("t", "aten.transpose.int", &["x", "0", "2"]),
        call("u", "aten.transpose.int", &["t", "0", "2"]),
        node("out", "output", "output", &["u"]),
    ];
    assert_eq!(handed_out(nodes, &given), (vec![2, 3, 4], given.clone()));
}

#[test]
fn parts_of_a_split_give_the_input_back() {
    let given = numbers(14);
    let part = |i: usize| {
        handed_out(
            vec![
                input("x", &[2, 7]),
                call("s", "aten.split.Tensor", &["x", "3", "-1"]),
                call("g", "getitem", &["s", &i.to_string()]),
                node("out", "output", "output", &["g"]),
            ],
            &given,
        )
    };
    let parts: Vec<(Vec<usize>, Vec<f32>)> = (0..3).map(part).collect();
    let extents: Vec<usize> = parts.iter().map(|p| p.0[1]).collect();
    assert_eq!(extents, vec![3, 3, 1]);
    let mut joined = vec![];
    for row in 0..2 {
        for (dims, data) in &parts {
            joined.extend_from_slice(&data[row * dims[1]..(row + 1) * dims[1]]);
        }
    }
    assert_eq!(joined, given);
}

#[test]
fn notices_leave_the_outcome_as_it_is() {
    let good = vec![input("x", &[2]), call("y", "aten.mul", &["x", "2"])];
    let (quiet, none) = compile(&good, false);
    let (loud, told) = compile(&good, true);
    assert_eq!(ops(&quiet.unwrap()), ops(&loud.unwrap()));
    assert!(none.is_empty());
    let listed = vec![Notice::Loading(2), Notice::Node(0), Notice::Node(1)];
    assert_eq!(told[..3], listed[..]);
    assert_eq!(told[3..], [Notice::Read(0), Notice::Read(1)]);
    let bad = vec![input("x", &[2]), call("y", "aten.cos", &["x"])];
    let (quiet, _) = compile(&bad, false);
    let (loud, told) = compile(&bad, true);
    assert_eq!(quiet.unwrap_err(), (1, TorchError::Unsupported));
    assert_eq!(loud.unwrap_err(), (1, TorchError::Unsupported));
    assert_eq!(told[3..], [Notice::Read(0)]);
}
