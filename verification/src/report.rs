//! What is reported of executions: totals, units, and the line of a profile.

use crate::block_stats::BlockOpStats;
use crate::digraph::{node_indices, DiGraph};
#[allow(unused_imports)]
use crate::digraph::graph_nodes;
#[allow(unused_imports)]
use crate::exec_graph::ExecutableHostOp;
#[allow(unused_imports)]
use crate::runtime::HostOpInfo;
use crate::runtime::{CudaRuntime, LlirOp, OpKind};
#[allow(unused_imports)]
use crate::runtime_graph::executes;
use std::collections::HashMap;
use std::time::Duration;
use vstd::prelude::*;

verus! {

broadcast use vstd::std_specs::hash::group_hash_axioms;

/// What a host operation did in an execution.
#[derive(Debug)]
pub struct KernelStats {
    pub name: String,
    pub bytes_loaded: usize,
    pub bytes_stored: usize,
    pub flops: usize,
}

/// Sums over all lines of the statistics.
#[derive(Debug, Clone, Copy, PartialEq, Eq, Structural)]
pub struct Totals {
    pub bytes_loaded: usize,
    pub bytes_stored: usize,
    pub flops: usize,
}

/// The unit that a number of bytes or operations is shown in.
#[derive(Debug, Clone, Copy, PartialEq, Eq, Structural)]
pub enum Unit {
    /// Single ones.
    One,
    /// Thousands.
    Kilo,
    /// Millions.
    Mega,
    /// Billions.
    Giga,
    /// Thousands of billions.
    Tera,
}

/// The cells of a line that show something; the others show a dash.
#[derive(Debug, Clone, Copy, PartialEq, Eq, Structural)]
pub struct RowCells {
    pub loaded: bool,
    pub stored: bool,
    pub flops: bool,
    pub bandwidth: bool,
    pub tflops: bool,
    pub mbu: bool,
    pub mfu: bool,
}

/// How many operations of each kind a graph has.
#[derive(Debug, Clone, Copy, PartialEq, Eq, Structural)]
pub struct OpCounts {
    pub block: usize,
    pub kernel: usize,
    pub host: usize,
}

/// The sums over host operations.
pub open spec fn kernel_totals(v: Seq<KernelStats>) -> (int, int, int)
    decreases v.len(),
{
    if v.len() == 0 {
        (0, 0, 0)
    } else {
        let (l, s, f) = kernel_totals(v.drop_last());
        (l + v.last().bytes_loaded, s + v.last().bytes_stored, f + v.last().flops)
    }
}

/// The sums over block operations.
pub open spec fn block_totals(v: Seq<BlockOpStats>) -> (int, int, int)
    decreases v.len(),
{
    if v.len() == 0 {
        (0, 0, 0)
    } else {
        let (l, s, f) = block_totals(v.drop_last());
        (l + v.last().bytes_loaded, s + v.last().bytes_stored, f + v.last().flops)
    }
}

/// The sums over all.
pub open spec fn grand_totals(k: Seq<KernelStats>, b: Seq<BlockOpStats>) -> (int, int, int) {
    let (l, s, f) = kernel_totals(k);
    let (m, t, g) = block_totals(b);
    (l + m, s + t, f + g)
}

proof fn lemma_kernel_totals_grow(v: Seq<KernelStats>, k: int)
    requires
        0 <= k <= v.len(),
    ensures
        0 <= kernel_totals(v.take(k)).0 <= kernel_totals(v).0,
        0 <= kernel_totals(v.take(k)).1 <= kernel_totals(v).1,
        0 <= kernel_totals(v.take(k)).2 <= kernel_totals(v).2,
    decreases v.len(),
{
    if k == v.len() {
        assert(v.take(k) =~= v);
        if v.len() > 0 {
            lemma_kernel_totals_grow(v.drop_last(), v.len() - 1);
            assert(v.drop_last().take(v.len() - 1) =~= v.drop_last());
        }
    } else {
        lemma_kernel_totals_grow(v.drop_last(), k);
        assert(v.drop_last().take(k) =~= v.take(k));
    }
}

proof fn lemma_block_totals_grow(v: Seq<BlockOpStats>, k: int)
    requires
        0 <= k <= v.len(),
    ensures
        0 <= block_totals(v.take(k)).0 <= block_totals(v).0,
        0 <= block_totals(v.take(k)).1 <= block_totals(v).1,
        0 <= block_totals(v.take(k)).2 <= block_totals(v).2,
    decreases v.len(),
{
    if k == v.len() {
        assert(v.take(k) =~= v);
        if v.len() > 0 {
            lemma_block_totals_grow(v.drop_last(), v.len() - 1);
            assert(v.drop_last().take(v.len() - 1) =~= v.drop_last());
        }
    } else {
        lemma_block_totals_grow(v.drop_last(), k);
        assert(v.drop_last().take(k) =~= v.take(k));
    }
}

fn add_three(
    a: (usize, usize, usize),
    l: usize,
    s: usize,
    f: usize,
) -> (r: Option<(usize, usize, usize)>)
    ensures
        r is Some <==> a.0 + l <= usize::MAX && a.1 + s <= usize::MAX && a.2 + f <= usize::MAX,
        r matches Some(t) ==> t.0 == a.0 + l && t.1 == a.1 + s && t.2 == a.2 + f,
{
    match (a.0.checked_add(l), a.1.checked_add(s), a.2.checked_add(f)) {
        (Some(x), Some(y), Some(z)) => Some((x, y, z)),
        (_, _, _) => None,
    }
}

/// The sums over all lines of the statistics, if they fit.
pub fn total_stats(kernels: &Vec<KernelStats>, blocks: &Vec<BlockOpStats>) -> (r: Option<Totals>)
    ensures
        r is Some <==> grand_totals(kernels@, blocks@).0 <= usize::MAX && grand_totals(
            kernels@,
            blocks@,
        ).1 <= usize::MAX && grand_totals(kernels@, blocks@).2 <= usize::MAX,
        r matches Some(t) ==> grand_totals(kernels@, blocks@) == (
            t.bytes_loaded as int,
            t.bytes_stored as int,
            t.flops as int,
        ),
{
    let mut sum: (usize, usize, usize) = (0, 0, 0);
    let mut i: usize = 0;
    proof {
        assert(kernels@.take(0) =~= Seq::empty());
        lemma_block_totals_grow(blocks@, 0);
    }
    while i < kernels.len()
        invariant
            i <= kernels@.len(),
            0 <= block_totals(blocks@).0,
            0 <= block_totals(blocks@).1,
            0 <= block_totals(blocks@).2,
            kernel_totals(kernels@.take(i as int)) == (sum.0 as int, sum.1 as int, sum.2 as int),
        decreases kernels@.len() - i,
    {
        let k = &kernels[i];
        proof {
            assert(kernels@.take(i + 1).drop_last() =~= kernels@.take(i as int));
            lemma_kernel_totals_grow(kernels@, i + 1);
        }
        match add_three(sum, k.bytes_loaded, k.bytes_stored, k.flops) {
            Some(t) => {
                sum = t;
            },
            None => {
                return None;
            },
        }
        i = i + 1;
    }
    assert(kernels@.take(kernels@.len() as int) =~= kernels@);
    let ghost base = kernel_totals(kernels@);
    let mut j: usize = 0;
    assert(blocks@.take(0) =~= Seq::empty());
    while j < blocks.len()
        invariant
            j <= blocks@.len(),
            base == kernel_totals(kernels@),
            ({
                let (l, s, f) = block_totals(blocks@.take(j as int));
                sum.0 == base.0 + l && sum.1 == base.1 + s && sum.2 == base.2 + f
            }),
        decreases blocks@.len() - j,
    {
        let b = &blocks[j];
        proof {
            assert(blocks@.take(j + 1).drop_last() =~= blocks@.take(j as int));
            lemma_block_totals_grow(blocks@, j + 1);
        }
        match add_three(sum, b.bytes_loaded, b.bytes_stored, b.flops) {
            Some(t) => {
                sum = t;
            },
            None => {
                return None;
            },
        }
        j = j + 1;
    }
    assert(blocks@.take(blocks@.len() as int) =~= blocks@);
    Some(Totals { bytes_loaded: sum.0, bytes_stored: sum.1, flops: sum.2 })
}

/// The unit for a number of bytes: the largest up to a billion that it reaches.
pub fn format_size(bytes: usize) -> (r: Unit)
    ensures
        r == (if bytes >= 1_000_000_000 {
            Unit::Giga
        } else if bytes >= 1_000_000 {
            Unit::Mega
        } else if bytes >= 1_000 {
            Unit::Kilo
        } else {
            Unit::One
        }),
{
    if bytes >= 1_000_000_000 {
        Unit::Giga
    } else if bytes >= 1_000_000 {
        Unit::Mega
    } else if bytes >= 1_000 {
        Unit::Kilo
    } else {
        Unit::One
    }
}

/// The unit for a number of operations: the largest that it reaches.
pub fn format_flops(flops: usize) -> (r: Unit)
    ensures
        r == (if flops >= 1_000_000_000_000 {
            Unit::Tera
        } else if flops >= 1_000_000_000 {
            Unit::Giga
        } else if flops >= 1_000_000 {
            Unit::Mega
        } else if flops >= 1_000 {
            Unit::Kilo
        } else {
            Unit::One
        }),
{
    if flops as u64 >= 1_000_000_000_000 {
        Unit::Tera
    } else if flops >= 1_000_000_000 {
        Unit::Giga
    } else if flops >= 1_000_000 {
        Unit::Mega
    } else if flops >= 1_000 {
        Unit::Kilo
    } else {
        Unit::One
    }
}

/// The cells of a line: rates are shown where there is something to rate, shares
/// where the device's peak is known too.
pub fn stat_row_cells(
    loaded: usize,
    stored: usize,
    flops: usize,
    peak_bandwidth_known: bool,
    peak_tflops_known: bool,
) -> (r: RowCells)
    ensures
        r.loaded == (loaded > 0),
        r.stored == (stored > 0),
        r.flops == (flops > 0),
        r.bandwidth == (loaded + stored > 0),
        r.tflops == (flops > 0),
        r.mbu == (loaded + stored > 0 && peak_bandwidth_known),
        r.mfu == (flops > 0 && peak_tflops_known),
{
    let moved = loaded > 0 || stored > 0;
    RowCells {
        loaded: loaded > 0,
        stored: stored > 0,
        flops: flops > 0,
        bandwidth: moved,
        tflops: flops > 0,
        mbu: moved && peak_bandwidth_known,
        mfu: flops > 0 && peak_tflops_known,
    }
}

/// How many of the nodes are operations of a kind.
pub open spec fn count_kind(nodes: Seq<usize>, ops: Map<usize, LlirOp>, kind: OpKind) -> nat
    decreases nodes.len(),
{
    if nodes.len() == 0 {
        0
    } else {
        count_kind(nodes.drop_last(), ops, kind) + if ops.contains_key(nodes.last())
            && ops[nodes.last()].kind == kind {
            1
        } else {
            0nat
        }
    }
}

/// A list that holds each node of the graph once, in ascending order.
pub open spec fn lists_nodes(nodes: Seq<usize>, all: Set<usize>) -> bool {
    crate::walk::rising(nodes) && nodes.to_set() == all
}

/// How many block operations, kernels and host operations the graph has.
pub fn count_ops(graph: &DiGraph, ops: &HashMap<usize, LlirOp>) -> (r: OpCounts)
    ensures
        forall|nodes: Seq<usize>| #[trigger]
            lists_nodes(nodes, graph_nodes(*graph)) ==> r.block == count_kind(
                nodes,
                ops@,
                OpKind::Block,
            ) && r.kernel == count_kind(nodes, ops@, OpKind::Kernel) && r.host == count_kind(
                nodes,
                ops@,
                OpKind::Host,
            ),
{
    let nodes = node_indices(graph);
    let mut r = OpCounts { block: 0, kernel: 0, host: 0 };
    let mut i: usize = 0;
    assert(nodes@.take(0) =~= Seq::empty());
    while i < nodes.len()
        invariant
            i <= nodes@.len(),
            r.block <= i,
            r.kernel <= i,
            r.host <= i,
            r.block == count_kind(nodes@.take(i as int), ops@, OpKind::Block),
            r.kernel == count_kind(nodes@.take(i as int), ops@, OpKind::Kernel),
            r.host == count_kind(nodes@.take(i as int), ops@, OpKind::Host),
        decreases nodes@.len() - i,
    {
        assert(nodes@.take(i + 1).drop_last() =~= nodes@.take(i as int));
        if let Some(op) = ops.get(&nodes[i]) {
            match op.kind {
                OpKind::Block => {
                    r.block = r.block + 1;
                },
                OpKind::Kernel => {
                    r.kernel = r.kernel + 1;
                },
                OpKind::Host => {
                    r.host = r.host + 1;
                },
                _ => {},
            }
        }
        i = i + 1;
    }
    proof {
        assert(nodes@.take(nodes@.len() as int) =~= nodes@);
        assert forall|other: Seq<usize>| #[trigger] lists_nodes(other, graph_nodes(*graph)) implies other
            == nodes@ by {
            crate::device::lemma_rising_same(other, nodes@);
        }
    }
    r
}

/// The names of the host operations that are reported, in the order of `nodes`.
pub open spec fn reported_names(
    nodes: Seq<usize>,
    exec_ops: Map<usize, ExecutableHostOp>,
    host_ops: Map<usize, HostOpInfo>,
) -> Seq<Seq<char>>
    decreases nodes.len(),
{
    if nodes.len() == 0 {
        Seq::empty()
    } else {
        let before = reported_names(nodes.drop_last(), exec_ops, host_ops);
        match host_ops[exec_ops[nodes.last()].output].stats_name {
            Some(name) => before.push(name@),
            None => before,
        }
    }
}

/// A line for each host operation that is reported, with nothing measured yet.
pub open spec fn fresh_stats(stats: Seq<KernelStats>, names: Seq<Seq<char>>) -> bool {
    &&& stats.len() == names.len()
    &&& forall|i: int|
        0 <= i < stats.len() ==> (#[trigger] stats[i]).name@ == names[i] && stats[i].bytes_loaded
            == 0 && stats[i].bytes_stored == 0 && stats[i].flops == 0
}

/// The statistics after an execution: a line for each host operation that is reported, in
/// ascending order of the nodes of the execution graph.
pub fn kernel_stats(rt: &CudaRuntime) -> (r: Vec<KernelStats>)
    requires
        executes(*rt),
    ensures
        forall|nodes: Seq<usize>| #[trigger]
            lists_nodes(nodes, graph_nodes(rt.exec_graph.graph)) ==> fresh_stats(
                r@,
                reported_names(nodes, rt.exec_graph.ops@, rt.host_ops@),
            ),
{
    let nodes = node_indices(&rt.exec_graph.graph);
    let mut r: Vec<KernelStats> = Vec::new();
    let mut i: usize = 0;
    assert(nodes@.take(0) =~= Seq::empty());
    while i < nodes.len()
        invariant
            executes(*rt),
            nodes@.to_set() == graph_nodes(rt.exec_graph.graph),
            i <= nodes@.len(),
            fresh_stats(
                r@,
                reported_names(nodes@.take(i as int), rt.exec_graph.ops@, rt.host_ops@),
            ),
        decreases nodes@.len() - i,
    {
        let x = nodes[i];
        proof {
            assert(nodes@.to_set().contains(x));
            assert(graph_nodes(rt.exec_graph.graph).contains(x));
            assert(nodes@.take(i + 1).drop_last() =~= nodes@.take(i as int));
        }
        let op = rt.exec_graph.ops.get(&x).unwrap();
        let info = rt.host_ops.get(&op.output).unwrap();
        if let Some(name) = &info.stats_name {
            r.push(
                KernelStats { name: name.clone(), bytes_loaded: 0, bytes_stored: 0, flops: 0 },
            );
        }
        i = i + 1;
    }
    proof {
        assert(nodes@.take(nodes@.len() as int) =~= nodes@);
        assert forall|other: Seq<usize>| #[trigger]
            lists_nodes(other, graph_nodes(rt.exec_graph.graph)) implies other == nodes@ by {
            crate::device::lemma_rising_same(other, nodes@);
        }
    }
    r
}

/// The text of a digit.
pub open spec fn digit_text(d: nat) -> Seq<char> {
    if d == 0 {
        "0"@
    } else if d == 1 {
        "1"@
    } else if d == 2 {
        "2"@
    } else if d == 3 {
        "3"@
    } else if d == 4 {
        "4"@
    } else if d == 5 {
        "5"@
    } else if d == 6 {
        "6"@
    } else if d == 7 {
        "7"@
    } else if d == 8 {
        "8"@
    } else {
        "9"@
    }
}

/// A number in decimal digits.
pub open spec fn decimal_text(n: nat) -> Seq<char>
    decreases n,
{
    if n < 10 {
        digit_text(n)
    } else {
        decimal_text(n / 10) + digit_text(n % 10)
    }
}

fn digit(d: usize) -> (r: &'static str)
    requires
        d < 10,
    ensures
        r@ == digit_text(d as nat),
{
    if d == 0 {
        "0"
    } else if d == 1 {
        "1"
    } else if d == 2 {
        "2"
    } else if d == 3 {
        "3"
    } else if d == 4 {
        "4"
    } else if d == 5 {
        "5"
    } else if d == 6 {
        "6"
    } else if d == 7 {
        "7"
    } else if d == 8 {
        "8"
    } else {
        "9"
    }
}

/// Add a number in decimal digits to a text.
pub(crate) fn append_decimal(s: &mut String, n: usize)
    ensures
        final(s)@ == old(s)@ + decimal_text(n as nat),
    decreases n,
{
    if n >= 10 {
        append_decimal(s, n / 10);
    }
    let ghost before = s@;
    s.append(digit(n % 10));
    proof {
        assert(s@ =~= old(s)@ + decimal_text(n as nat));
    }
}

/// What the `pretty-duration` crate writes for a duration of so many seconds and
/// nanoseconds.
pub uninterp spec fn duration_text(secs: u64, nanos: u32) -> Seq<char>;

/// `pretty_duration::pretty_duration` with default options, on the duration of so many
/// seconds and nanoseconds.
#[verifier::external_body]
fn pretty_duration_text(secs: u64, nanos: u32) -> (r: String)
    requires
        nanos < 1_000_000_000,
    ensures
        r@ == duration_text(secs, nanos),
{
    pretty_duration::pretty_duration(&Duration::new(secs, nanos), None)
}

/// A share, or a dash where it is not known.
pub open spec fn share_text(share: Option<String>) -> Seq<char> {
    match share {
        Some(s) => s@,
        None => "-"@,
    }
}

/// The line of a profile, given the text of its duration.
pub open spec fn profile_text(
    duration: Seq<char>,
    mbu: Option<String>,
    mfu: Option<String>,
    counts: OpCounts,
) -> Seq<char> {
    duration + " | MBU: "@ + share_text(mbu) + " | MFU: "@ + share_text(mfu) + " [BLK: "@
        + decimal_text(counts.block as nat) + " KRN: "@ + decimal_text(counts.kernel as nat)
        + " HOST: "@ + decimal_text(counts.host as nat) + "]"@
}

fn append_share(s: &mut String, share: &Option<String>)
    ensures
        final(s)@ == old(s)@ + share_text(*share),
{
    match share {
        Some(t) => {
            s.append(t.as_str());
        },
        None => {
            s.append("-");
        },
    }
}

/// The line of a profile, given the text of its duration.
pub fn profile_line(
    duration: &str,
    mbu: &Option<String>,
    mfu: &Option<String>,
    counts: OpCounts,
) -> (r: String)
    ensures
        r@ == profile_text(duration@, *mbu, *mfu, counts),
{
    let mut s = duration.to_owned();
    s.append(" | MBU: ");
    append_share(&mut s, mbu);
    s.append(" | MFU: ");
    append_share(&mut s, mfu);
    s.append(" [BLK: ");
    append_decimal(&mut s, counts.block);
    s.append(" KRN: ");
    append_decimal(&mut s, counts.kernel);
    s.append(" HOST: ");
    append_decimal(&mut s, counts.host);
    s.append("]");
    s
}

/// The line of a profile that took so many seconds and nanoseconds.
pub fn profile_display(
    secs: u64,
    nanos: u32,
    mbu: &Option<String>,
    mfu: &Option<String>,
    counts: OpCounts,
) -> (r: String)
    requires
        nanos < 1_000_000_000,
    ensures
        r@ == profile_text(duration_text(secs, nanos), *mbu, *mfu, counts),
{
    let duration = pretty_duration_text(secs, nanos);
    profile_line(duration.as_str(), mbu, mfu, counts)
}

/// Totals add up over lines, whichever kind they are of: each line counts once with what it
/// loaded, stored and computed.
pub proof fn law_totals_add_up(
    a: Seq<KernelStats>,
    b: Seq<KernelStats>,
    k: KernelStats,
    c: Seq<BlockOpStats>,
    d: Seq<BlockOpStats>,
    l: BlockOpStats,
)
    ensures
        grand_totals(a + b, c + d).0 == grand_totals(a, c).0 + grand_totals(b, d).0,
        grand_totals(a + b, c + d).1 == grand_totals(a, c).1 + grand_totals(b, d).1,
        grand_totals(a + b, c + d).2 == grand_totals(a, c).2 + grand_totals(b, d).2,
        grand_totals(seq![k], Seq::empty()) == (
            k.bytes_loaded as int,
            k.bytes_stored as int,
            k.flops as int,
        ),
        grand_totals(Seq::empty(), seq![l]) == (
            l.bytes_loaded as int,
            l.bytes_stored as int,
            l.flops as int,
        ),
{
    lemma_kernel_totals_add(a, b);
    lemma_block_totals_add(c, d);
    let (one, other) = (seq![k], seq![l]);
    assert(one.drop_last() =~= Seq::<KernelStats>::empty() && one.last() == k);
    assert(other.drop_last() =~= Seq::<BlockOpStats>::empty() && other.last() == l);
    assert(kernel_totals(one.drop_last()) == (0int, 0int, 0int));
    assert(block_totals(other.drop_last()) == (0int, 0int, 0int));
}

proof fn lemma_kernel_totals_add(a: Seq<KernelStats>, b: Seq<KernelStats>)
    ensures
        kernel_totals(a + b).0 == kernel_totals(a).0 + kernel_totals(b).0,
        kernel_totals(a + b).1 == kernel_totals(a).1 + kernel_totals(b).1,
        kernel_totals(a + b).2 == kernel_totals(a).2 + kernel_totals(b).2,
    decreases b.len(),
{
    if b.len() == 0 {
        assert(a + b =~= a);
    } else {
        lemma_kernel_totals_add(a, b.drop_last());
        assert((a + b).drop_last() =~= a + b.drop_last());
        assert((a + b).last() == b.last());
    }
}

proof fn lemma_block_totals_add(a: Seq<BlockOpStats>, b: Seq<BlockOpStats>)
    ensures
        block_totals(a + b).0 == block_totals(a).0 + block_totals(b).0,
        block_totals(a + b).1 == block_totals(a).1 + block_totals(b).1,
        block_totals(a + b).2 == block_totals(a).2 + block_totals(b).2,
    decreases b.len(),
{
    if b.len() == 0 {
        assert(a + b =~= a);
    } else {
        lemma_block_totals_add(a, b.drop_last());
        assert((a + b).drop_last() =~= a + b.drop_last());
        assert((a + b).last() == b.last());
    }
}

/// Operations of a kind are counted one by one; nodes without an operation, and operations of
/// another kind, count for nothing.
pub proof fn law_counts_add_up(
    a: Seq<usize>,
    b: Seq<usize>,
    n: usize,
    ops: Map<usize, LlirOp>,
    kind: OpKind,
)
    ensures
        count_kind(a + b, ops, kind) == count_kind(a, ops, kind) + count_kind(b, ops, kind),
        ops.contains_key(n) && ops[n].kind == kind ==> count_kind(seq![n], ops, kind) == 1,
        !(ops.contains_key(n) && ops[n].kind == kind) ==> count_kind(seq![n], ops, kind) == 0,
    decreases b.len(),
{
    let one = seq![n];
    assert(one.drop_last() =~= Seq::<usize>::empty() && one.last() == n);
    assert(count_kind(one.drop_last(), ops, kind) == 0);
    if b.len() == 0 {
        assert(a + b =~= a);
    } else {
        law_counts_add_up(a, b.drop_last(), n, ops, kind);
        assert((a + b).drop_last() =~= a + b.drop_last());
        assert((a + b).last() == b.last());
    }
}

/// The host operations that have a name are reported, in the order in which they are listed;
/// those without are left out.
pub proof fn law_named_operations_are_reported(
    a: Seq<usize>,
    b: Seq<usize>,
    n: usize,
    exec_ops: Map<usize, ExecutableHostOp>,
    host_ops: Map<usize, HostOpInfo>,
)
    ensures
        reported_names(a + b, exec_ops, host_ops) == reported_names(a, exec_ops, host_ops)
            + reported_names(b, exec_ops, host_ops),
        host_ops[exec_ops[n].output].stats_name matches Some(name) ==> reported_names(
            seq![n],
            exec_ops,
            host_ops,
        ) == seq![name@],
        host_ops[exec_ops[n].output].stats_name is None ==> reported_names(
            seq![n],
            exec_ops,
            host_ops,
        ).len() == 0,
    decreases b.len(),
{
    let one = seq![n];
    assert(one.drop_last() =~= Seq::<usize>::empty() && one.last() == n);
    assert(reported_names(one.drop_last(), exec_ops, host_ops) =~= Seq::<Seq<char>>::empty());
    if let Some(name) = host_ops[exec_ops[n].output].stats_name {
        assert(reported_names(one, exec_ops, host_ops) =~= seq![name@]);
    }
    if b.len() == 0 {
        assert(a + b =~= a);
        assert(reported_names(a + b, exec_ops, host_ops) =~= reported_names(a, exec_ops, host_ops)
            + reported_names(b, exec_ops, host_ops));
    } else {
        law_named_operations_are_reported(a, b.drop_last(), n, exec_ops, host_ops);
        assert((a + b).drop_last() =~= a + b.drop_last());
        assert((a + b).last() == b.last());
        assert(reported_names(a + b, exec_ops, host_ops) =~= reported_names(a, exec_ops, host_ops)
            + reported_names(b, exec_ops, host_ops));
    }
}

} // verus!
