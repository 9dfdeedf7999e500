//! Tensors from files in the format of the `safetensors` crate.

use crate::text::same_text;
use safetensors::{SafeTensorError, SafeTensors};
use vstd::prelude::*;

verus! {

/// `safetensors::SafeTensors`, opaque: the tensors in it are `tensor_map`.
#[verifier::external_type_specification]
#[verifier::external_body]
pub struct ExSafeTensors<'data>(SafeTensors<'data>);

/// `safetensors::SafeTensorError`, opaque.
#[verifier::external_type_specification]
#[verifier::external_body]
pub struct ExSafeTensorError(SafeTensorError);

/// The tensors by name: the name of the element type, and the data.
pub uninterp spec fn tensor_map(st: SafeTensors<'_>) -> Map<Seq<char>, (Seq<char>, Seq<u8>)>;

/// The tensors in a file of these bytes, if they are one.
pub uninterp spec fn parsed_tensors(bytes: Seq<u8>) -> Option<
    Map<Seq<char>, (Seq<char>, Seq<u8>)>,
>;

/// `SafeTensors::deserialize`: the tensors in a file of these bytes.
#[verifier::external_body]
fn deserialize<'a>(bytes: &'a [u8]) -> (r: Result<SafeTensors<'a>, SafeTensorError>)
    ensures
        r is Ok <==> parsed_tensors(bytes@) is Some,
        r matches Ok(st) ==> parsed_tensors(bytes@) == Some(tensor_map(st)),
{
    SafeTensors::deserialize(bytes)
}

/// `SafeTensors::tensor`: the tensor of a name, if there is one, with the name of its
/// element type as `Dtype` displays it.
#[verifier::external_body]
fn find_tensor(st: &SafeTensors<'_>, name: &str) -> (r: Option<(String, Vec<u8>)>)
    ensures
        r is Some <==> tensor_map(*st).contains_key(name@),
        r matches Some(t) ==> tensor_map(*st)[name@] == (t.0@, t.1@),
{
    st.tensor(name).ok().map(|t| (t.dtype().to_string(), t.data().to_vec()))
}

/// The data of a tensor.
#[derive(Debug)]
pub enum TensorData {
    /// Bytes that go to the device as they are.
    Bytes(Vec<u8>),
    /// Half-precision numbers by their bits, which are widened on the way.
    Halves(Vec<u16>),
}

/// Why tensors could not be loaded.
#[derive(Debug)]
pub enum LoadError {
    /// The file is none of tensors.
    Malformed,
    /// The tensor of the node has elements of this type.
    Unsupported(usize, String),
}

/// The half-precision number at position `i`, by its bits, low byte first.
pub open spec fn half_at(data: Seq<u8>, i: int) -> u16 {
    (data[2 * i] + 256 * data[2 * i + 1]) as u16
}

/// The half-precision numbers in the data; an odd byte at the end is left out.
pub open spec fn halves(data: Seq<u8>) -> Seq<u16> {
    Seq::new((data.len() / 2) as nat, |i: int| half_at(data, i))
}

/// The element type can be loaded.
pub open spec fn loadable(dtype: Seq<char>) -> bool {
    dtype == "F32"@ || dtype == "F16"@ || dtype == "U8"@
}

/// `d` is the data of a tensor: half-precision numbers one by one, the rest as bytes.
pub open spec fn data_of(dtype: Seq<char>, data: Seq<u8>, d: TensorData) -> bool {
    match d {
        TensorData::Bytes(b) => dtype != "F16"@ && b@ == data,
        TensorData::Halves(h) => dtype == "F16"@ && h@ == halves(data),
    }
}

/// The inputs with a tensor of their name, up to the `k`-th.
pub open spec fn named_inputs(
    inputs: Seq<(usize, String)>,
    tensors: Map<Seq<char>, (Seq<char>, Seq<u8>)>,
    k: int,
) -> Seq<(usize, String)> {
    inputs.take(k).filter(|p: (usize, String)| tensors.contains_key(p.1@))
}

/// The data of the named inputs.
pub open spec fn loaded(
    named: Seq<(usize, String)>,
    tensors: Map<Seq<char>, (Seq<char>, Seq<u8>)>,
    out: Seq<(usize, TensorData)>,
) -> bool {
    &&& out.len() == named.len()
    &&& forall|i: int|
        0 <= i < out.len() ==> (#[trigger] out[i]).0 == named[i].0 && loadable(
            tensors[named[i].1@].0,
        ) && data_of(tensors[named[i].1@].0, tensors[named[i].1@].1, out[i].1)
}

fn read_halves(data: &Vec<u8>) -> (r: Vec<u16>)
    ensures
        r@ == halves(data@),
{
    let mut r: Vec<u16> = Vec::new();
    let n: usize = data.len() / 2;
    let mut i: usize = 0;
    while i < n
        invariant
            n == data.len() / 2,
            i <= n,
            r@.len() == i,
            forall|k: int| 0 <= k < i ==> #[trigger] r@[k] == half_at(data@, k),
        decreases n - i,
    {
        let bits: u16 = data[2 * i] as u16 + 256 * (data[2 * i + 1] as u16);
        assert(bits == half_at(data@, i as int));
        r.push(bits);
        i = i + 1;
    }
    assert(r@ =~= halves(data@));
    r
}

/// The data of one tensor, or `None` where its element type cannot be loaded.
pub fn tensor_data(dtype: &str, data: Vec<u8>) -> (r: Option<TensorData>)
    ensures
        r is Some <==> loadable(dtype@),
        r matches Some(d) ==> data_of(dtype@, data@, d),
{
    proof {
        reveal_strlit("F32");
        reveal_strlit("F16");
        reveal_strlit("U8");
        assert("F32"@[1] != "F16"@[1]);
        assert("U8"@.len() != "F16"@.len());
    }
    if same_text(dtype, "F16") {
        Some(TensorData::Halves(read_halves(&data)))
    } else if same_text(dtype, "F32") || same_text(dtype, "U8") {
        Some(TensorData::Bytes(data))
    } else {
        None
    }
}

/// Load the inputs, given as nodes and names, from a file of these bytes: the nodes
/// whose name a tensor has, with its data.
pub fn load_safetensors(bytes: &[u8], inputs: &Vec<(usize, String)>) -> (r: Result<
    Vec<(usize, TensorData)>,
    LoadError,
>)
    ensures
        r matches Err(LoadError::Malformed) <==> parsed_tensors(bytes@) is None,
        parsed_tensors(bytes@) matches Some(tensors) ==> match r {
            Ok(out) => loaded(named_inputs(inputs@, tensors, inputs@.len() as int), tensors, out@),
            Err(LoadError::Unsupported(node, dtype)) => exists|k: int|
                0 <= k < inputs@.len() && (#[trigger] inputs@[k]).0 == node
                    && tensors.contains_key(inputs@[k].1@) && tensors[inputs@[k].1@].0 == dtype@
                    && !loadable(dtype@) && forall|j: int|
                    0 <= j < k && tensors.contains_key((#[trigger] inputs@[j]).1@) ==> loadable(
                        tensors[inputs@[j].1@].0,
                    ),
            Err(LoadError::Malformed) => false,
        },
{
    let st = match deserialize(bytes) {
        Ok(st) => st,
        Err(_) => {
            return Err(LoadError::Malformed);
        },
    };
    let ghost tensors = tensor_map(st);
    let ghost pred = |p: (usize, String)| tensors.contains_key(p.1@);
    let mut out: Vec<(usize, TensorData)> = Vec::new();
    let mut i: usize = 0;
    proof {
        reveal(Seq::filter);
        assert(inputs@.take(0) =~= Seq::empty());
    }
    while i < inputs.len()
        invariant
            tensors == tensor_map(st),
            parsed_tensors(bytes@) == Some(tensors),
            pred == (|p: (usize, String)| tensors.contains_key(p.1@)),
            i <= inputs@.len(),
            loaded(named_inputs(inputs@, tensors, i as int), tensors, out@),
            forall|j: int|
                0 <= j < i && tensors.contains_key((#[trigger] inputs@[j]).1@) ==> loadable(
                    tensors[inputs@[j].1@].0,
                ),
        decreases inputs@.len() - i,
    {
        proof {
            reveal(Seq::filter);
            let t = inputs@.take(i + 1);
            assert(t.drop_last() =~= inputs@.take(i as int));
        }
        let name = inputs[i].1.as_str();
        if let Some((dtype, data)) = find_tensor(&st, name) {
            match tensor_data(dtype.as_str(), data) {
                Some(d) => {
                    let ghost out0 = out@;
                    let ghost named0 = named_inputs(inputs@, tensors, i as int);
                    let ghost named1 = named_inputs(inputs@, tensors, i + 1);
                    out.push((inputs[i].0, d));
                    proof {
                        assert(named1 == named0.push(inputs@[i as int]));
                        assert forall|k: int| 0 <= k < out@.len() implies (#[trigger] out@[k]).0
                            == named1[k].0 && loadable(tensors[named1[k].1@].0) && data_of(
                            tensors[named1[k].1@].0,
                            tensors[named1[k].1@].1,
                            out@[k].1,
                        ) by {
                            if k < out0.len() {
                                assert(out@[k] == out0[k]);
                            }
                        }
                    }
                },
                None => {
                    return Err(LoadError::Unsupported(inputs[i].0, dtype));
                },
            }
        }
        i = i + 1;
    }
    Ok(out)
}

/// Half-precision numbers are read from two bytes each, the low one first, whatever the other
/// bytes are; an odd byte at the end is left out.
pub proof fn law_halves_are_read_back(data: Seq<u8>, i: int, bits: u16)
    requires
        0 <= i,
        2 * i + 1 < data.len(),
        data[2 * i] == bits % 256,
        data[2 * i + 1] == bits / 256,
    ensures
        i < halves(data).len(),
        halves(data)[i] == bits,
        2 * halves(data).len() <= data.len() <= 2 * halves(data).len() + 1,
{
    assert(bits == bits % 256 + 256 * (bits / 256)) by {
        vstd::arithmetic::div_mod::lemma_fundamental_div_mod(bits as int, 256);
    }
}

/// Single-precision numbers and bytes go through as they are, half-precision numbers one by
/// one, and elements of any other type are refused.
pub proof fn law_types_that_can_be_loaded(dtype: Seq<char>, data: Seq<u8>, d: TensorData)
    requires
        data_of(dtype, data, d),
    ensures
        loadable("F32"@) && loadable("F16"@) && loadable("U8"@),
        loadable(dtype) ==> dtype == "F32"@ || dtype == "F16"@ || dtype == "U8"@,
        dtype == "F32"@ || dtype == "U8"@ ==> (d matches TensorData::Bytes(b) && b@ == data),
        dtype == "F16"@ ==> (d matches TensorData::Halves(h) && h@.len() == data.len() / 2),
{
    reveal_strlit("F32");
    reveal_strlit("F16");
    reveal_strlit("U8");
    assert("F32"@[1] != "F16"@[1]);
    assert("U8"@.len() != "F16"@.len());
}

/// Every input that has a tensor of its name is loaded, once for each time that it is listed,
/// and in the order of the list; inputs without one are passed over.
pub proof fn law_named_inputs_are_loaded(
    inputs: Seq<(usize, String)>,
    tensors: Map<Seq<char>, (Seq<char>, Seq<u8>)>,
    out: Seq<(usize, TensorData)>,
    k: int,
)
    requires
        loaded(named_inputs(inputs, tensors, inputs.len() as int), tensors, out),
        0 <= k < inputs.len(),
        tensors.contains_key(inputs[k].1@),
    ensures
        exists|i: int|
            0 <= i < out.len() && (#[trigger] out[i]).0 == inputs[k].0 && data_of(
                tensors[inputs[k].1@].0,
                tensors[inputs[k].1@].1,
                out[i].1,
            ),
        out.len() <= inputs.len(),
{
    let pred = |p: (usize, String)| tensors.contains_key(p.1@);
    let all = inputs.take(inputs.len() as int);
    assert(all =~= inputs);
    lemma_filtered(inputs, pred, k);
    let named = inputs.filter(pred);
    let i = choose|i: int| 0 <= i < named.len() && named[i] == inputs[k];
    assert(out[i].0 == inputs[k].0);
}

proof fn lemma_filtered(s: Seq<(usize, String)>, pred: spec_fn((usize, String)) -> bool, k: int)
    requires
        0 <= k < s.len(),
        pred(s[k]),
    ensures
        s.filter(pred).contains(s[k]),
        s.filter(pred).len() <= s.len(),
    decreases s.len(),
{
    reveal(Seq::filter);
    let t = s.drop_last();
    let f = t.filter(pred);
    lemma_filtered_len(s, pred);
    if k < t.len() {
        lemma_filtered(t, pred, k);
        let i = choose|i: int| 0 <= i < f.len() && f[i] == s[k];
        assert(s.filter(pred)[i] == s[k]);
    } else {
        assert(s.filter(pred)[f.len() as int] == s[k]);
    }
}

proof fn lemma_filtered_len(s: Seq<(usize, String)>, pred: spec_fn((usize, String)) -> bool)
    ensures
        s.filter(pred).len() <= s.len(),
    decreases s.len(),
{
    reveal(Seq::filter);
    if s.len() > 0 {
        lemma_filtered_len(s.drop_last(), pred);
    }
}

} // verus!
