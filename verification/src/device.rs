//! Device buffers by node, and which of them a host operation touches.

#[allow(unused_imports)]
use crate::exec_graph::ExecutableHostOp;
#[allow(unused_imports)]
use crate::walk::rising;
use crate::walk::sorted_keys;
use std::collections::HashMap;
use vstd::prelude::*;

verus! {

broadcast use vstd::std_specs::hash::group_hash_axioms;

/// A buffer on the device: where it is, and how many bytes it has.
#[derive(Debug, Clone, Copy, PartialEq, Eq, Structural)]
pub struct DeviceBuffer {
    pub ptr: u64,
    pub len: usize,
}

/// An input on the device: a buffer of the runtime's own, or a bare pointer.
#[derive(Debug, Clone, Copy, PartialEq, Eq, Structural)]
pub enum CudaInput {
    Buffer(DeviceBuffer),
    Ptr(u64),
}

impl CudaInput {
    /// Where the input is.
    pub open spec fn address(self) -> u64 {
        match self {
            CudaInput::Buffer(b) => b.ptr,
            CudaInput::Ptr(p) => p,
        }
    }

    /// Where the input is.
    pub fn device_ptr(&self) -> (r: u64)
        ensures
            r == self.address(),
    {
        match self {
            CudaInput::Buffer(b) => b.ptr,
            CudaInput::Ptr(p) => *p,
        }
    }
}

/// The buffer of a node: an intermediate one, or that of the input that the node
/// stands for. A bare pointer is no buffer.
pub open spec fn node_buffer(
    buffers: Map<usize, DeviceBuffer>,
    llir_to_hlir: Map<usize, usize>,
    hlir_buffers: Map<usize, CudaInput>,
    n: usize,
) -> Option<DeviceBuffer> {
    if buffers.contains_key(n) {
        Some(buffers[n])
    } else if llir_to_hlir.contains_key(n) && hlir_buffers.contains_key(llir_to_hlir[n]) {
        match hlir_buffers[llir_to_hlir[n]] {
            CudaInput::Buffer(b) => Some(b),
            CudaInput::Ptr(_) => None,
        }
    } else {
        None
    }
}

/// The buffer of a node.
pub(crate) fn find_buffer(
    buffers: &HashMap<usize, DeviceBuffer>,
    llir_to_hlir: &HashMap<usize, usize>,
    hlir_buffers: &HashMap<usize, CudaInput>,
    n: usize,
) -> (r: Option<DeviceBuffer>)
    ensures
        r == node_buffer(buffers@, llir_to_hlir@, hlir_buffers@, n),
{
    if let Some(b) = buffers.get(&n) {
        return Some(*b);
    }
    if let Some(h) = llir_to_hlir.get(&n) {
        if let Some(CudaInput::Buffer(b)) = hlir_buffers.get(h) {
            return Some(*b);
        }
    }
    None
}

/// The nodes whose buffers an operation touches: its own intermediate buffer, and
/// what its inputs and extra nodes have.
pub open spec fn touches(
    buffers: Map<usize, DeviceBuffer>,
    llir_to_hlir: Map<usize, usize>,
    hlir_buffers: Map<usize, CudaInput>,
    op: ExecutableHostOp,
    extra: Seq<usize>,
    n: usize,
) -> bool {
    ||| n == op.output && buffers.contains_key(n)
    ||| (op.inputs@.contains(n) || extra.contains(n)) && node_buffer(
        buffers,
        llir_to_hlir,
        hlir_buffers,
        n,
    ) is Some
}

/// The buffers that a host operation gets, by node.
///
/// Inputs without a buffer are passed over; an extra node without one is an error,
/// and the first such is named.
pub fn build_host_op_buffer_map(
    buffers: &HashMap<usize, DeviceBuffer>,
    llir_to_hlir: &HashMap<usize, usize>,
    hlir_buffers: &HashMap<usize, CudaInput>,
    op: &ExecutableHostOp,
    extra: &Vec<usize>,
) -> (r: Result<HashMap<usize, DeviceBuffer>, usize>)
    ensures
        r is Ok <==> forall|i: int|
            0 <= i < extra@.len() ==> node_buffer(
                buffers@,
                llir_to_hlir@,
                hlir_buffers@,
                #[trigger] extra@[i],
            ) is Some,
        r matches Err(n) ==> exists|i: int|
            0 <= i < extra@.len() && #[trigger] extra@[i] == n && node_buffer(
                buffers@,
                llir_to_hlir@,
                hlir_buffers@,
                n,
            ) is None && forall|j: int|
                0 <= j < i ==> node_buffer(
                    buffers@,
                    llir_to_hlir@,
                    hlir_buffers@,
                    #[trigger] extra@[j],
                ) is Some,
        r matches Ok(m) ==> forall|n: usize|
            (#[trigger] m@.contains_key(n) <==> touches(
                buffers@,
                llir_to_hlir@,
                hlir_buffers@,
                *op,
                extra@,
                n,
            )) && (m@.contains_key(n) ==> node_buffer(
                buffers@,
                llir_to_hlir@,
                hlir_buffers@,
                n,
            ) == Some(m@[n])),
{
    let mut m: HashMap<usize, DeviceBuffer> = HashMap::new();
    if let Some(b) = buffers.get(&op.output) {
        m.insert(op.output, *b);
    }
    let mut i: usize = 0;
    while i < op.inputs.len()
        invariant
            i <= op.inputs@.len(),
            forall|n: usize|
                (#[trigger] m@.contains_key(n) <==> (n == op.output && buffers@.contains_key(n))
                    || ((exists|k: int| 0 <= k < i && #[trigger] op.inputs@[k] == n)
                    && node_buffer(buffers@, llir_to_hlir@, hlir_buffers@, n) is Some)) && (
                m@.contains_key(n) ==> node_buffer(buffers@, llir_to_hlir@, hlir_buffers@, n)
                    == Some(m@[n])),
        decreases op.inputs@.len() - i,
    {
        let n = op.inputs[i];
        if let Some(b) = find_buffer(buffers, llir_to_hlir, hlir_buffers, n) {
            m.insert(n, b);
        }
        i = i + 1;
    }
    let ghost m1 = m@;
    let mut k: usize = 0;
    while k < extra.len()
        invariant
            k <= extra@.len(),
            forall|j: int|
                0 <= j < k ==> node_buffer(
                    buffers@,
                    llir_to_hlir@,
                    hlir_buffers@,
                    #[trigger] extra@[j],
                ) is Some,
            forall|n: usize|
                (#[trigger] m@.contains_key(n) <==> m1.contains_key(n) || ((exists|j: int|
                    0 <= j < k && #[trigger] extra@[j] == n) && node_buffer(
                    buffers@,
                    llir_to_hlir@,
                    hlir_buffers@,
                    n,
                ) is Some)) && (m@.contains_key(n) ==> node_buffer(
                    buffers@,
                    llir_to_hlir@,
                    hlir_buffers@,
                    n,
                ) == Some(m@[n])),
        decreases extra@.len() - k,
    {
        let n = extra[k];
        if !m.contains_key(&n) {
            match find_buffer(buffers, llir_to_hlir, hlir_buffers, n) {
                Some(b) => {
                    m.insert(n, b);
                },
                None => {
                    return Err(n);
                },
            }
        }
        k = k + 1;
    }
    Ok(m)
}

/// Whether two pointer maps are the same.
pub(crate) fn same_ptrs(a: &HashMap<usize, u64>, b: &HashMap<usize, u64>) -> (r: bool)
    ensures
        r == (a@ == b@),
{
    let ka = sorted_keys(a);
    let kb = sorted_keys(b);
    if ka.len() != kb.len() {
        proof {
            if a@ == b@ {
                lemma_rising_same(ka@, kb@);
            }
        }
        return false;
    }
    let mut i: usize = 0;
    while i < ka.len()
        invariant
            ka@.to_set() == a@.dom(),
            kb@.to_set() == b@.dom(),
            rising(ka@),
            rising(kb@),
            ka@.len() == kb@.len(),
            i <= ka@.len(),
            forall|j: int|
                0 <= j < i ==> ka@[j] == kb@[j] && a@[#[trigger] ka@[j]] == b@[ka@[j]],
        decreases ka@.len() - i,
    {
        assert(ka@.to_set().contains(ka@[i as int]) && kb@.to_set().contains(kb@[i as int]));
        if ka[i] != kb[i] {
            proof {
                if a@ == b@ {
                    lemma_rising_same(ka@, kb@);
                }
            }
            return false;
        }
        if let (Some(x), Some(y)) = (a.get(&ka[i]), b.get(&kb[i])) {
            if *x != *y {
                return false;
            }
        }
        i = i + 1;
    }
    proof {
        assert(ka@ =~= kb@);
        assert forall|n: usize| a@.contains_key(n) implies #[trigger] a@[n] == b@[n] by {
            assert(ka@.to_set().contains(n));
            let j = choose|j: int| 0 <= j < ka@.len() && ka@[j] == n;
            assert(a@[ka@[j]] == b@[ka@[j]]);
        }
        assert(a@ =~= b@);
    }
    true
}

/// Two ascending lists with the same members are the same.
pub proof fn lemma_rising_same(s: Seq<usize>, t: Seq<usize>)
    requires
        rising(s),
        rising(t),
        s.to_set() == t.to_set(),
    ensures
        s == t,
    decreases s.len(),
{
    if s.len() == 0 {
        if t.len() > 0 {
            assert(t.to_set().contains(t[0]));
            assert(s.contains(t[0]));
        }
        assert(s =~= t);
    } else if t.len() == 0 {
        assert(s.to_set().contains(s[0]));
        assert(t.contains(s[0]));
    } else {
        let (a, b) = (s.last(), t.last());
        assert(s.to_set().contains(a) && t.to_set().contains(b));
        assert(t.contains(a) && s.contains(b));
        let i = choose|i: int| 0 <= i < t.len() && t[i] == a;
        let j = choose|j: int| 0 <= j < s.len() && s[j] == b;
        if i < t.len() - 1 {
            assert(t[i] < t[t.len() - 1]);
        }
        if j < s.len() - 1 {
            assert(s[j] < s[s.len() - 1]);
        }
        assert(a == b);
        let (f, g) = (s.drop_last(), t.drop_last());
        assert forall|n: usize| #[trigger] f.contains(n) <==> g.contains(n) by {
            if f.contains(n) {
                let k = choose|k: int| 0 <= k < f.len() && f[k] == n;
                assert(s[k] < s[s.len() - 1]);
                assert(s.to_set().contains(s[k]));
                assert(t.contains(n));
                let l = choose|l: int| 0 <= l < t.len() && t[l] == n;
                assert(g[l] == n);
            }
            if g.contains(n) {
                let k = choose|k: int| 0 <= k < g.len() && g[k] == n;
                assert(t[k] < t[t.len() - 1]);
                assert(t.to_set().contains(t[k]));
                assert(s.contains(n));
                let l = choose|l: int| 0 <= l < s.len() && s[l] == n;
                assert(f[l] == n);
            }
        }
        assert(f.to_set() =~= g.to_set());
        lemma_rising_same(f, g);
        assert(s =~= f.push(a));
        assert(t =~= g.push(b));
    }
}

/// Another map with the same pointers.
pub(crate) fn copy_ptrs(a: &HashMap<usize, u64>) -> (r: HashMap<usize, u64>)
    ensures
        r@ == a@,
{
    let keys = sorted_keys(a);
    let mut r: HashMap<usize, u64> = HashMap::new();
    let mut i: usize = 0;
    while i < keys.len()
        invariant
            keys@.to_set() == a@.dom(),
            i <= keys@.len(),
            forall|n: usize| #[trigger]
                r@.contains_key(n) <==> exists|j: int| 0 <= j < i && #[trigger] keys@[j] == n,
            forall|n: usize| #[trigger] r@.contains_key(n) ==> a@.contains_key(n) && r@[n] == a@[n],
        decreases keys@.len() - i,
    {
        assert(keys@.to_set().contains(keys@[i as int]));
        if let Some(p) = a.get(&keys[i]) {
            r.insert(keys[i], *p);
        }
        i = i + 1;
    }
    proof {
        assert forall|n: usize| a@.contains_key(n) implies #[trigger] r@.contains_key(n) by {
            assert(keys@.to_set().contains(n));
        }
        assert(r@ =~= a@);
    }
    r
}

/// The number whose bytes are these, the lowest first.
pub open spec fn int_of_bytes(a: u8, b: u8, c: u8, d: u8) -> int {
    let u = a + 256 * b + 65536 * c + 16777216 * d;
    if u < 0x8000_0000 {
        u
    } else {
        u - 0x1_0000_0000
    }
}

/// The number with these bytes, the lowest first or last.
pub open spec fn ordered_int(little: bool, a: u8, b: u8, c: u8, d: u8) -> int {
    if little {
        int_of_bytes(a, b, c, d)
    } else {
        int_of_bytes(d, c, b, a)
    }
}

/// `i32::from_ne_bytes`: the number with these bytes in the order of the machine, which
/// is lowest first or lowest last.
#[verifier::external_body]
fn native_i32(a: u8, b: u8, c: u8, d: u8) -> (r: i32)
    ensures
        r == ordered_int(true, a, b, c, d) || r == ordered_int(false, a, b, c, d),
{
    i32::from_ne_bytes([a, b, c, d])
}

/// The number with these bytes, the lowest first.
fn i32_of_bytes(a: u8, b: u8, c: u8, d: u8) -> (r: i32)
    ensures
        r == int_of_bytes(a, b, c, d),
{
    let u: u32 = a as u32 + 256 * (b as u32) + 65536 * (c as u32) + 16777216 * (d as u32);
    if u < 0x8000_0000 {
        u as i32
    } else {
        (u - 0x8000_0000) as i32 + i32::MIN
    }
}

/// The numbers in the data, in one order of bytes for all; bytes beyond a multiple of 4 are
/// left out.
pub open spec fn read_numbers(little: bool, data: Seq<u8>, numbers: Seq<i32>) -> bool {
    &&& numbers.len() == data.len() / 4
    &&& forall|i: int|
        0 <= i < numbers.len() ==> #[trigger] numbers[i] == ordered_int(
            little,
            data[4 * i],
            data[4 * i + 1],
            data[4 * i + 2],
            data[4 * i + 3],
        )
}

/// Data as 4-byte integers, the lowest byte of each first or last; bytes beyond a multiple
/// of 4 are left out.
pub fn numbers_in(data: &Vec<u8>, little: bool) -> (r: Vec<i32>)
    ensures
        read_numbers(little, data@, r@),
{
    let n: usize = data.len() / 4;
    let mut r: Vec<i32> = Vec::new();
    let mut i: usize = 0;
    while i < n
        invariant
            n == data.len() / 4,
            i <= n,
            r@.len() == i,
            forall|k: int|
                0 <= k < i ==> #[trigger] r@[k] == ordered_int(
                    little,
                    data@[4 * k],
                    data@[4 * k + 1],
                    data@[4 * k + 2],
                    data@[4 * k + 3],
                ),
        decreases n - i,
    {
        let (a, b, c, d): (u8, u8, u8, u8) = (
            data[4 * i],
            data[4 * i + 1],
            data[4 * i + 2],
            data[4 * i + 3],
        );
        let v: i32 = if little {
            i32_of_bytes(a, b, c, d)
        } else {
            i32_of_bytes(d, c, b, a)
        };
        r.push(v);
        i = i + 1;
    }
    r
}

/// Data from the device as 4-byte integers in the machine's order of bytes; bytes beyond a
/// multiple of 4 are left out. Which order the machine has is left open.
pub fn get_i32(data: &Vec<u8>) -> (r: Vec<i32>)
    ensures
        exists|little: bool| #[trigger] read_numbers(little, data@, r@),
{
    let little = native_i32(1, 0, 0, 0) == 1;
    numbers_in(data, little)
}

/// Any 4-byte number is read back from its bytes, in either order.
pub proof fn law_number_is_read_back(n: i32, a: u8, b: u8, c: u8, d: u8)
    requires
        n >= 0 ==> n == a + 256 * b + 65536 * c + 16777216 * d,
        n < 0 ==> n == a + 256 * b + 65536 * c + 16777216 * d - 4294967296,
    ensures
        ordered_int(true, a, b, c, d) == n,
        ordered_int(false, d, c, b, a) == n,
{
}

/// Numbers are read one after the other, each from its own four bytes: changing the bytes of
/// one changes no other, and bytes beyond a multiple of 4 do not matter.
pub proof fn law_numbers_have_their_own_bytes(
    little: bool,
    data: Seq<u8>,
    other: Seq<u8>,
    a: Seq<i32>,
    b: Seq<i32>,
    i: int,
)
    requires
        read_numbers(little, data, a),
        read_numbers(little, other, b),
        0 <= i,
        4 * i + 4 <= data.len(),
        4 * i + 4 <= other.len(),
        data.subrange(4 * i, 4 * i + 4) == other.subrange(4 * i, 4 * i + 4),
    ensures
        i < a.len() && i < b.len(),
        a[i] == b[i],
        4 * a.len() <= data.len() < 4 * a.len() + 4,
{
    let (s, t) = (data.subrange(4 * i, 4 * i + 4), other.subrange(4 * i, 4 * i + 4));
    assert(s[0] == data[4 * i] && t[0] == other[4 * i]);
    assert(s[1] == data[4 * i + 1] && t[1] == other[4 * i + 1]);
    assert(s[2] == data[4 * i + 2] && t[2] == other[4 * i + 2]);
    assert(s[3] == data[4 * i + 3] && t[3] == other[4 * i + 3]);
}

/// A node has its intermediate buffer, or else the buffer that its tensor was given; a bare
/// pointer is no buffer.
pub proof fn law_buffer_of_a_node(
    buffers: Map<usize, DeviceBuffer>,
    llir_to_hlir: Map<usize, usize>,
    hlir_buffers: Map<usize, CudaInput>,
    n: usize,
    b: DeviceBuffer,
    h: usize,
)
    ensures
        node_buffer(buffers.insert(n, b), llir_to_hlir, hlir_buffers, n) == Some(b),
        node_buffer(
            buffers.remove(n),
            llir_to_hlir.insert(n, h),
            hlir_buffers.insert(h, CudaInput::Buffer(b)),
            n,
        ) == Some(b),
        node_buffer(
            buffers.remove(n),
            llir_to_hlir.insert(n, h),
            hlir_buffers.insert(h, CudaInput::Ptr(b.ptr)),
            n,
        ) is None,
        node_buffer(buffers.remove(n), llir_to_hlir.insert(n, h), hlir_buffers.remove(h), n) is None,
        node_buffer(buffers.remove(n), llir_to_hlir.remove(n), hlir_buffers, n) is None,
        CudaInput::Buffer(b).address() == b.ptr,
        CudaInput::Ptr(b.ptr).address() == b.ptr,
{
}

/// An operation touches the intermediate buffer of its own node, and the buffers of its inputs
/// and extra nodes, as far as there are any; and no others.
pub proof fn law_touched_buffers(
    buffers: Map<usize, DeviceBuffer>,
    llir_to_hlir: Map<usize, usize>,
    hlir_buffers: Map<usize, CudaInput>,
    op: ExecutableHostOp,
    extra: Seq<usize>,
    n: usize,
)
    ensures
        buffers.contains_key(n) ==> (touches(buffers, llir_to_hlir, hlir_buffers, op, extra, n)
            <==> n == op.output || op.inputs@.contains(n) || extra.contains(n)),
        touches(buffers, llir_to_hlir, hlir_buffers, op, extra, n) ==> node_buffer(
            buffers,
            llir_to_hlir,
            hlir_buffers,
            n,
        ) is Some,
        !buffers.contains_key(n) && touches(buffers, llir_to_hlir, hlir_buffers, op, extra, n) ==> (
        op.inputs@.contains(n) || extra.contains(n)) && llir_to_hlir.contains_key(n),
        (op.inputs@.contains(n) || extra.contains(n)) && llir_to_hlir.contains_key(n)
            && hlir_buffers.contains_key(llir_to_hlir[n]) && hlir_buffers[llir_to_hlir[n]] is Buffer
            ==> touches(buffers, llir_to_hlir, hlir_buffers, op, extra, n),
{
}

} // verus!
