//! What executions leave in the memory of the device.
//!
//! An execution zeroes buffers and runs host operations. How it does so may differ: one
//! operation after the other, or as one graph, in whatever order the dependencies allow. What
//! an operation computes is left open; it is only asked to use the buffers that it is handed.

#[allow(unused_imports)]
use crate::components::arcs_within;
#[allow(unused_imports)]
use crate::cuda_graph_op::{
    carried_out, in_step, law_launch_is_of_this_execution, pointers_for, CudaGraphOp, Execution,
    LaunchSettings, OnDevice,
};
#[allow(unused_imports)]
use crate::device::{CudaInput, DeviceBuffer};
#[allow(unused_imports)]
use crate::digraph::{
    arcs, graph_edges, graph_nodes, lemma_reaches_first, lemma_reaches_stays, reaches, topological,
};
#[allow(unused_imports)]
use crate::exec_graph::maps_to;
#[allow(unused_imports)]
use crate::replay::ReplayAction;
#[allow(unused_imports)]
use crate::runtime::{
    inputs_in_place, law_execution_keeps_recording, law_replay_finds_inputs_in_place, recorded_at,
    CudaRuntime, ExecuteSettings,
};
#[allow(unused_imports)]
use crate::runtime_graph::{
    exec_op, executes, op_touches, planned_op, runtime_buffer, runtime_graph_of, RuntimeGraphPlan,
};
#[allow(unused_imports)]
use crate::walk::rising;
use vstd::prelude::*;

verus! {

/// What stands at each address. The contents of a buffer are told apart by integers, and 0
/// stands for zeros.
pub type Memory = spec_fn(u64) -> int;

/// What the host operations do, by their nodes in the execution graph.
pub struct Machine {
    /// The nodes whose buffers an operation reads, but for what it wrote there itself.
    pub reads: spec_fn(usize) -> Set<usize>,
    /// The nodes whose buffers it writes.
    pub writes: spec_fn(usize) -> Set<usize>,
    /// What it makes of the memory, given where the buffers that it is handed are, and the
    /// dynamic dimensions.
    pub effect: spec_fn(usize, Map<usize, u64>, Map<char, usize>, Memory) -> Memory,
}

/// A step of an execution.
pub enum Event {
    /// The buffer of a node is zeroed.
    Zero(usize),
    /// The operation at a node of the execution graph runs.
    Op(usize),
}

/// Two memories hold the same at these addresses.
pub open spec fn agree(a: Memory, b: Memory, at: Set<u64>) -> bool {
    forall|p: u64| #[trigger] at.contains(p) ==> a(p) == b(p)
}

/// Where the buffers of these nodes are.
pub open spec fn places(ptrs: Map<usize, u64>, nodes: Set<usize>) -> Set<u64> {
    Set::new(
        |p: u64|
            exists|n: usize| #[trigger] nodes.contains(n) && ptrs.contains_key(n) && ptrs[n] == p,
    )
}

/// Where the buffers are that an operation is handed.
pub open spec fn handed(rt: CudaRuntime, x: usize) -> Map<usize, u64> {
    Map::new(
        |n: usize| op_touches(rt, x, n),
        |n: usize| runtime_buffer(rt, n)->0.ptr,
    )
}

/// The addresses that a step reads.
pub open spec fn reads_at(mm: Machine, rt: CudaRuntime, e: Event) -> Set<u64> {
    match e {
        Event::Zero(_) => Set::empty(),
        Event::Op(x) => places(handed(rt, x), (mm.reads)(x)),
    }
}

/// The addresses that a step writes.
pub open spec fn writes_at(mm: Machine, rt: CudaRuntime, e: Event) -> Set<u64> {
    match e {
        Event::Zero(n) => Set::empty().insert(rt.buffers@[n].ptr),
        Event::Op(x) => places(handed(rt, x), (mm.writes)(x)),
    }
}

/// What a step makes of the memory.
pub open spec fn step(
    mm: Machine,
    rt: CudaRuntime,
    dims: Map<char, usize>,
    e: Event,
    mem: Memory,
) -> Memory {
    match e {
        Event::Zero(n) => |p: u64|
            if p == rt.buffers@[n].ptr {
                0
            } else {
                mem(p)
            },
        Event::Op(x) => (mm.effect)(x, handed(rt, x), dims, mem),
    }
}

/// What steps one after the other make of the memory.
pub open spec fn run(
    mm: Machine,
    rt: CudaRuntime,
    dims: Map<char, usize>,
    events: Seq<Event>,
    mem: Memory,
) -> Memory
    decreases events.len(),
{
    if events.len() == 0 {
        mem
    } else {
        run(mm, rt, dims, events.drop_first(), step(mm, rt, dims, events[0], mem))
    }
}

/// The operations keep to their buffers: an operation changes nothing but what it writes, and
/// what it writes depends on nothing but what it reads.
pub open spec fn keeps_to_buffers(mm: Machine) -> bool {
    &&& forall|x: usize, ptrs: Map<usize, u64>, dims: Map<char, usize>, mem: Memory, p: u64|
        !places(ptrs, (mm.writes)(x)).contains(p) ==> #[trigger] (mm.effect)(x, ptrs, dims, mem)(p)
            == mem(p)
    &&& forall|x: usize, ptrs: Map<usize, u64>, dims: Map<char, usize>, a: Memory, b: Memory|
        agree(a, b, places(ptrs, (mm.reads)(x))) ==> agree(
            #[trigger] (mm.effect)(x, ptrs, dims, a),
            #[trigger] (mm.effect)(x, ptrs, dims, b),
            places(ptrs, (mm.writes)(x)),
        )
}

/// The buffer of a node is zeroed in an execution.
pub open spec fn is_zeroed(rt: CudaRuntime, zero_all: bool, n: usize) -> bool {
    rt.buffers@.contains_key(n) && (zero_all || rt.buffers_requiring_zero@.contains(n))
}

/// The step is one of an execution.
pub open spec fn is_event(rt: CudaRuntime, zero_all: bool, e: Event) -> bool {
    match e {
        Event::Zero(n) => is_zeroed(rt, zero_all, n),
        Event::Op(x) => graph_nodes(rt.exec_graph.graph).contains(x),
    }
}

/// The first step waits for the second: an operation for those that have an arc to it, and
/// for the zeroing of the buffers that it touches.
pub open spec fn waits_for(rt: CudaRuntime, e: Event, f: Event) -> bool {
    match (e, f) {
        (Event::Op(x), Event::Op(y)) => arcs(rt.exec_graph.graph).contains((y, x)),
        (Event::Op(x), Event::Zero(n)) => op_touches(rt, x, n),
        (Event::Zero(_), _) => false,
    }
}

/// The steps are those of an execution, each once, and none comes before one that it waits
/// for.
pub open spec fn is_execution(rt: CudaRuntime, zero_all: bool, events: Seq<Event>) -> bool {
    &&& events.no_duplicates()
    &&& forall|e: Event| #[trigger] events.contains(e) <==> is_event(rt, zero_all, e)
    &&& forall|i: int, j: int|
        0 <= i < events.len() && 0 <= j < events.len() && #[trigger] waits_for(
            rt,
            events[i],
            events[j],
        ) ==> j < i
}

/// One step writes what the other reads or writes.
pub open spec fn conflict(mm: Machine, rt: CudaRuntime, e: Event, f: Event) -> bool {
    exists|p: u64|
        #![trigger writes_at(mm, rt, e).contains(p)]
        #![trigger writes_at(mm, rt, f).contains(p)]
        (writes_at(mm, rt, e).contains(p) && (reads_at(mm, rt, f).contains(p) || writes_at(
            mm,
            rt,
            f,
        ).contains(p))) || (writes_at(mm, rt, f).contains(p) && reads_at(mm, rt, e).contains(p))
}

/// What is asked of buffers and operations. An intermediate buffer is where no other that an
/// operation is handed is. Of two operations of which one writes what the other uses, one
/// waits for the other, directly or through others. What an operation reads is an input, or
/// is zeroed, or is written by an operation that it waits for. Inputs are neither zeroed nor
/// written.
pub open spec fn well_connected(
    mm: Machine,
    rt: CudaRuntime,
    zero_all: bool,
    inputs: Set<u64>,
) -> bool {
    let exec = rt.exec_graph.graph;
    &&& forall|n: usize, k: usize|
        rt.buffers@.contains_key(n) && rt.buffers@.contains_key(k) && (#[trigger] rt.buffers@[n]).ptr
            == (#[trigger] rt.buffers@[k]).ptr ==> n == k
    &&& forall|n: usize, x: usize, k: usize|
        rt.buffers@.contains_key(n) && #[trigger] op_touches(rt, x, k) && handed(rt, x)[k] == (
        #[trigger] rt.buffers@[n]).ptr ==> n == k
    &&& forall|x: usize, y: usize|
        graph_nodes(exec).contains(x) && graph_nodes(exec).contains(y) && x != y && #[trigger] conflict(
            mm,
            rt,
            Event::Op(x),
            Event::Op(y),
        ) ==> reaches(arcs(exec), x, y) || reaches(arcs(exec), y, x)
    &&& forall|x: usize, p: u64|
        graph_nodes(exec).contains(x) && #[trigger] reads_at(mm, rt, Event::Op(x)).contains(p)
            ==> inputs.contains(p) || (exists|n: usize| #[trigger]
            is_zeroed(rt, zero_all, n) && rt.buffers@[n].ptr == p) || (exists|y: usize| #[trigger]
            arcs(exec).contains((y, x)) && writes_at(mm, rt, Event::Op(y)).contains(p))
    &&& forall|e: Event, p: u64|
        is_event(rt, zero_all, e) && #[trigger] writes_at(mm, rt, e).contains(p) ==> !inputs.contains(
            p,
        )
}

/// All that an execution settles: the inputs, and what it zeroes and writes.
pub open spec fn settled_places(
    mm: Machine,
    rt: CudaRuntime,
    zero_all: bool,
    inputs: Set<u64>,
) -> Set<u64> {
    Set::new(
        |p: u64|
            inputs.contains(p) || exists|e: Event|
                is_event(rt, zero_all, e) && #[trigger] writes_at(mm, rt, e).contains(p),
    )
}

/// A step changes nothing but what it writes, and what it writes depends on nothing but what
/// it reads.
proof fn lemma_step(
    mm: Machine,
    rt: CudaRuntime,
    dims: Map<char, usize>,
    e: Event,
    a: Memory,
    b: Memory,
)
    requires
        keeps_to_buffers(mm),
    ensures
        forall|p: u64|
            !writes_at(mm, rt, e).contains(p) ==> #[trigger] step(mm, rt, dims, e, a)(p) == a(p),
        agree(a, b, reads_at(mm, rt, e)) ==> agree(
            step(mm, rt, dims, e, a),
            step(mm, rt, dims, e, b),
            writes_at(mm, rt, e),
        ),
{
    match e {
        Event::Zero(n) => {},
        Event::Op(x) => {
            assert forall|p: u64| !writes_at(mm, rt, e).contains(p) implies #[trigger] step(
                mm,
                rt,
                dims,
                e,
                a,
            )(p) == a(p) by {
                assert((mm.effect)(x, handed(rt, x), dims, a)(p) == a(p));
            }
            if agree(a, b, reads_at(mm, rt, e)) {
                assert(agree(
                    (mm.effect)(x, handed(rt, x), dims, a),
                    (mm.effect)(x, handed(rt, x), dims, b),
                    places(handed(rt, x), (mm.writes)(x)),
                ));
            }
        },
    }
}

/// Steps that do not conflict can change places.
proof fn lemma_steps_commute(
    mm: Machine,
    rt: CudaRuntime,
    dims: Map<char, usize>,
    e: Event,
    f: Event,
    mem: Memory,
)
    requires
        keeps_to_buffers(mm),
        !conflict(mm, rt, e, f),
    ensures
        step(mm, rt, dims, f, step(mm, rt, dims, e, mem)) == step(
            mm,
            rt,
            dims,
            e,
            step(mm, rt, dims, f, mem),
        ),
{
    let (we, wf) = (writes_at(mm, rt, e), writes_at(mm, rt, f));
    let (a, b) = (step(mm, rt, dims, e, mem), step(mm, rt, dims, f, mem));
    let (ab, ba) = (step(mm, rt, dims, f, a), step(mm, rt, dims, e, b));
    lemma_step(mm, rt, dims, e, mem, b);
    lemma_step(mm, rt, dims, f, mem, a);
    lemma_step(mm, rt, dims, f, a, mem);
    lemma_step(mm, rt, dims, e, b, mem);
    assert(agree(mem, b, reads_at(mm, rt, e))) by {
        assert forall|p: u64| #[trigger] reads_at(mm, rt, e).contains(p) implies mem(p) == b(p) by {
            assert(!wf.contains(p));
        }
    }
    assert(agree(mem, a, reads_at(mm, rt, f))) by {
        assert forall|p: u64| #[trigger] reads_at(mm, rt, f).contains(p) implies mem(p) == a(p) by {
            assert(!we.contains(p));
        }
    }
    assert forall|p: u64| #[trigger] ab(p) == ba(p) by {
        if we.contains(p) {
            assert(!wf.contains(p));
            assert(ab(p) == a(p));
            assert(a(p) == ba(p));
        } else if wf.contains(p) {
            assert(ba(p) == b(p));
            assert(b(p) == ab(p));
        } else {
            assert(ab(p) == a(p) && a(p) == mem(p));
            assert(ba(p) == b(p) && b(p) == mem(p));
        }
    }
    assert(ab =~= ba);
}

/// A step that conflicts with none before it can come first.
proof fn lemma_step_comes_first(
    mm: Machine,
    rt: CudaRuntime,
    dims: Map<char, usize>,
    events: Seq<Event>,
    k: int,
    mem: Memory,
)
    requires
        keeps_to_buffers(mm),
        0 <= k < events.len(),
        forall|i: int| 0 <= i < k ==> !conflict(mm, rt, #[trigger] events[i], events[k]),
    ensures
        run(mm, rt, dims, events, mem) == run(
            mm,
            rt,
            dims,
            events.remove(k),
            step(mm, rt, dims, events[k], mem),
        ),
    decreases k,
{
    if k == 0 {
        assert(events.remove(0) =~= events.drop_first());
    } else {
        let (first, e) = (events[0], events[k]);
        let rest = events.drop_first();
        let after = step(mm, rt, dims, first, mem);
        assert forall|i: int| 0 <= i < k - 1 implies !conflict(
            mm,
            rt,
            #[trigger] rest[i],
            rest[k - 1],
        ) by {
            assert(rest[i] == events[i + 1]);
        }
        lemma_step_comes_first(mm, rt, dims, rest, k - 1, after);
        assert(!conflict(mm, rt, first, e));
        lemma_steps_commute(mm, rt, dims, first, e, mem);
        let less = events.remove(k);
        assert(less[0] == first);
        assert(less.drop_first() =~= rest.remove(k - 1));
    }
}

/// Two orders of the same steps that put conflicting steps in the same order come to the same.
proof fn lemma_same_outcome(
    mm: Machine,
    rt: CudaRuntime,
    dims: Map<char, usize>,
    s: Seq<Event>,
    t: Seq<Event>,
    mem: Memory,
)
    requires
        keeps_to_buffers(mm),
        s.no_duplicates(),
        t.no_duplicates(),
        forall|e: Event| #[trigger] s.contains(e) <==> t.contains(e),
        forall|i: int, j: int, k: int, l: int|
            0 <= i < j < s.len() && 0 <= k < t.len() && 0 <= l < t.len() && #[trigger] s[i] == #[trigger] t[k]
                && #[trigger] s[j] == #[trigger] t[l] && conflict(mm, rt, s[j], s[i]) ==> k < l,
    ensures
        run(mm, rt, dims, s, mem) == run(mm, rt, dims, t, mem),
    decreases s.len(),
{
    if s.len() == 0 {
        if t.len() > 0 {
            assert(t.contains(t[0]));
            assert(s.contains(t[0]));
        }
    } else {
        let e = s[0];
        assert(s.contains(e));
        let k = choose|k: int| 0 <= k < t.len() && t[k] == e;
        assert forall|i: int| 0 <= i < k implies !conflict(mm, rt, #[trigger] t[i], t[k]) by {
            assert(t.contains(t[i]));
            assert(s.contains(t[i]));
            let j = choose|j: int| 0 <= j < s.len() && s[j] == t[i];
            assert(j != 0);
            if conflict(mm, rt, t[i], t[k]) {
                assert(s[0] == t[k] && s[j] == t[i]);
                assert(conflict(mm, rt, s[j], s[0]));
                assert(k < i);
            }
        }
        lemma_step_comes_first(mm, rt, dims, t, k, mem);
        let (s2, t2) = (s.drop_first(), t.remove(k));
        assert forall|f: Event| #[trigger] s2.contains(f) <==> t2.contains(f) by {
            if s2.contains(f) {
                let i = choose|i: int| 0 <= i < s2.len() && s2[i] == f;
                assert(s[i + 1] == f);
                assert(s.contains(f));
                let l = choose|l: int| 0 <= l < t.len() && t[l] == f;
                assert(l != k);
                if l < k {
                    assert(t2[l] == f);
                } else {
                    assert(t2[l - 1] == f);
                }
            }
            if t2.contains(f) {
                let l = choose|l: int| 0 <= l < t2.len() && t2[l] == f;
                let m = if l < k {
                    l
                } else {
                    l + 1
                };
                assert(t[m] == f && m != k);
                assert(t[m] != t[k]);
                assert(t.contains(f));
                assert(s.contains(f));
                let i = choose|i: int| 0 <= i < s.len() && s[i] == f;
                assert(i != 0);
                assert(s2[i - 1] == f);
            }
        }
        assert forall|i: int, j: int, a: int, b: int|
            0 <= i < j < s2.len() && 0 <= a < t2.len() && 0 <= b < t2.len() && #[trigger] s2[i]
                == #[trigger] t2[a] && #[trigger] s2[j] == #[trigger] t2[b] && conflict(
                mm,
                rt,
                s2[j],
                s2[i],
            ) implies a < b by {
            let a1 = if a < k {
                a
            } else {
                a + 1
            };
            let b1 = if b < k {
                b
            } else {
                b + 1
            };
            assert(s[i + 1] == t[a1] && s[j + 1] == t[b1]);
            assert(a1 < b1);
        }
        lemma_same_outcome(mm, rt, dims, s2, t2, step(mm, rt, dims, e, mem));
    }
}

/// Steps that read only what two memories agree on, or what steps before them wrote, leave
/// both with the same there and in all that they write.
proof fn lemma_agreement_grows(
    mm: Machine,
    rt: CudaRuntime,
    dims: Map<char, usize>,
    events: Seq<Event>,
    a: Memory,
    b: Memory,
    known: Set<u64>,
)
    requires
        keeps_to_buffers(mm),
        agree(a, b, known),
        forall|i: int, p: u64|
            0 <= i < events.len() && #[trigger] reads_at(mm, rt, events[i]).contains(p)
                ==> known.contains(p) || exists|j: int|
                0 <= j < i && #[trigger] writes_at(mm, rt, events[j]).contains(p),
    ensures
        agree(run(mm, rt, dims, events, a), run(mm, rt, dims, events, b), known),
        forall|i: int|
            0 <= i < events.len() ==> agree(
                run(mm, rt, dims, events, a),
                run(mm, rt, dims, events, b),
                #[trigger] writes_at(mm, rt, events[i]),
            ),
    decreases events.len(),
{
    if events.len() > 0 {
        let e = events[0];
        let rest = events.drop_first();
        let (a1, b1) = (step(mm, rt, dims, e, a), step(mm, rt, dims, e, b));
        let more = known.union(writes_at(mm, rt, e));
        lemma_step(mm, rt, dims, e, a, b);
        lemma_step(mm, rt, dims, e, b, a);
        assert(agree(a, b, reads_at(mm, rt, e))) by {
            assert forall|p: u64| #[trigger] reads_at(mm, rt, e).contains(p) implies a(p) == b(p) by {
                assert(reads_at(mm, rt, events[0]).contains(p));
            }
        }
        assert(agree(a1, b1, more)) by {
            assert forall|p: u64| #[trigger] more.contains(p) implies a1(p) == b1(p) by {
                if !writes_at(mm, rt, e).contains(p) {
                    assert(known.contains(p));
                    assert(a1(p) == a(p) && b1(p) == b(p));
                }
            }
        }
        assert forall|i: int, p: u64|
            0 <= i < rest.len() && #[trigger] reads_at(mm, rt, rest[i]).contains(p) implies more.contains(
            p,
        ) || exists|j: int| 0 <= j < i && #[trigger] writes_at(mm, rt, rest[j]).contains(p) by {
            assert(reads_at(mm, rt, events[i + 1]).contains(p));
            if !known.contains(p) {
                let j = choose|j: int|
                    0 <= j < i + 1 && #[trigger] writes_at(mm, rt, events[j]).contains(p);
                if j > 0 {
                    assert(writes_at(mm, rt, rest[j - 1]).contains(p));
                }
            }
        }
        lemma_agreement_grows(mm, rt, dims, rest, a1, b1, more);
        let (x, y) = (run(mm, rt, dims, events, a), run(mm, rt, dims, events, b));
        assert(agree(x, y, more));
        assert forall|p: u64| #[trigger] known.contains(p) implies x(p) == y(p) by {
            assert(more.contains(p));
        }
        assert forall|i: int| 0 <= i < events.len() implies agree(
            x,
            y,
            #[trigger] writes_at(mm, rt, events[i]),
        ) by {
            if i == 0 {
                assert forall|p: u64| #[trigger] writes_at(mm, rt, events[i]).contains(p) implies x(p)
                    == y(p) by {
                    assert(more.contains(p));
                }
            } else {
                assert(rest[i - 1] == events[i]);
                assert(agree(x, y, writes_at(mm, rt, rest[i - 1])));
            }
        }
    }
}

/// Steps leave alone what none of them writes.
proof fn lemma_run_keeps(
    mm: Machine,
    rt: CudaRuntime,
    dims: Map<char, usize>,
    events: Seq<Event>,
    mem: Memory,
    p: u64,
)
    requires
        keeps_to_buffers(mm),
        forall|i: int| 0 <= i < events.len() ==> !writes_at(mm, rt, #[trigger] events[i]).contains(p),
    ensures
        run(mm, rt, dims, events, mem)(p) == mem(p),
    decreases events.len(),
{
    if events.len() > 0 {
        let rest = events.drop_first();
        let after = step(mm, rt, dims, events[0], mem);
        lemma_step(mm, rt, dims, events[0], mem, mem);
        assert(after(p) == mem(p));
        assert forall|i: int| 0 <= i < rest.len() implies !writes_at(
            mm,
            rt,
            #[trigger] rest[i],
        ).contains(p) by {
            assert(rest[i] == events[i + 1]);
        }
        lemma_run_keeps(mm, rt, dims, rest, after, p);
    }
}

/// An operation that can be reached from another comes after it.
proof fn lemma_reached_comes_after(
    rt: CudaRuntime,
    zero_all: bool,
    events: Seq<Event>,
    i: int,
    j: int,
    x: usize,
    y: usize,
)
    requires
        executes(rt),
        is_execution(rt, zero_all, events),
        0 <= i < events.len(),
        0 <= j < events.len(),
        events[i] == Event::Op(x),
        events[j] == Event::Op(y),
        reaches(arcs(rt.exec_graph.graph), x, y),
    ensures
        i < j,
{
    let a = arcs(rt.exec_graph.graph);
    let nodes = graph_nodes(rt.exec_graph.graph);
    lemma_exec_arcs_within(rt);
    let later = Set::new(
        |z: usize| exists|k: int| i < k < events.len() && #[trigger] events[k] == Event::Op(z),
    );
    assert forall|u: usize, v: usize|
        (u == x || later.contains(u)) && #[trigger] a.contains((u, v)) implies later.contains(v) by {
        let k = if u == x {
            i
        } else {
            choose|k: int| i < k < events.len() && #[trigger] events[k] == Event::Op(u)
        };
        assert(is_event(rt, zero_all, Event::Op(v)));
        assert(events.contains(Event::Op(v)));
        let l = choose|l: int| 0 <= l < events.len() && events[l] == Event::Op(v);
        assert(waits_for(rt, events[l], events[k]));
        assert(k < l);
    }
    let first = lemma_reaches_first(a, x, y);
    assert(later.contains(first));
    if first != y {
        lemma_reaches_stays(a, later, first, y);
    }
    let k = choose|k: int| i < k < events.len() && #[trigger] events[k] == Event::Op(y);
    assert(k == j);
}

/// The arcs of the execution graph join its nodes.
proof fn lemma_exec_arcs_within(rt: CudaRuntime)
    requires
        executes(rt),
    ensures
        arcs_within(arcs(rt.exec_graph.graph), graph_nodes(rt.exec_graph.graph)),
{
    let e = rt.exec_graph;
    let edges = graph_edges(rt.llir_graph);
    assert forall|a: usize, b: usize| #[trigger] arcs(e.graph).contains((a, b)) implies graph_nodes(
        e.graph,
    ).contains(a) && graph_nodes(e.graph).contains(b) by {
        assert(maps_to(edges.values(), e.node_to_exec@, a, b));
    }
}

/// Conflicting steps come in the same order in every execution.
proof fn lemma_order_is_forced(
    mm: Machine,
    rt: CudaRuntime,
    zero_all: bool,
    inputs: Set<u64>,
    s: Seq<Event>,
    t: Seq<Event>,
    i: int,
    j: int,
    k: int,
    l: int,
)
    requires
        executes(rt),
        well_connected(mm, rt, zero_all, inputs),
        is_execution(rt, zero_all, s),
        is_execution(rt, zero_all, t),
        0 <= i < j < s.len(),
        0 <= k < t.len(),
        0 <= l < t.len(),
        s[i] == t[k],
        s[j] == t[l],
        conflict(mm, rt, s[j], s[i]),
    ensures
        k < l,
{
    assert(s.contains(s[i]) && s.contains(s[j]));
    assert(is_event(rt, zero_all, s[i]) && is_event(rt, zero_all, s[j]));
    assert(s[i] != s[j]);
    match (s[i], s[j]) {
        (Event::Op(x), Event::Op(y)) => {
            assert(x != y);
            if reaches(arcs(rt.exec_graph.graph), x, y) {
                lemma_reached_comes_after(rt, zero_all, t, k, l, x, y);
            } else {
                assert(conflict(mm, rt, Event::Op(y), Event::Op(x)));
                lemma_reached_comes_after(rt, zero_all, s, j, i, y, x);
            }
        },
        (Event::Zero(n), Event::Op(x)) => {
            lemma_zeroing_conflict(mm, rt, zero_all, inputs, n, x);
            assert(waits_for(rt, t[l], t[k]));
        },
        (Event::Op(x), Event::Zero(n)) => {
            lemma_zeroing_conflict(mm, rt, zero_all, inputs, n, x);
            assert(waits_for(rt, s[i], s[j]));
        },
        (Event::Zero(n), Event::Zero(o)) => {
            assert(rt.buffers@[n].ptr == rt.buffers@[o].ptr);
            assert(n == o);
        },
    }
}

/// An operation that uses a buffer touches its node.
proof fn lemma_zeroing_conflict(
    mm: Machine,
    rt: CudaRuntime,
    zero_all: bool,
    inputs: Set<u64>,
    n: usize,
    x: usize,
)
    requires
        well_connected(mm, rt, zero_all, inputs),
        rt.buffers@.contains_key(n),
        reads_at(mm, rt, Event::Op(x)).contains(rt.buffers@[n].ptr) || writes_at(
            mm,
            rt,
            Event::Op(x),
        ).contains(rt.buffers@[n].ptr),
    ensures
        op_touches(rt, x, n),
{
    let p = rt.buffers@[n].ptr;
    let ptrs = handed(rt, x);
    if places(ptrs, (mm.reads)(x)).contains(p) {
        let o = choose|o: usize| #[trigger]
            (mm.reads)(x).contains(o) && ptrs.contains_key(o) && ptrs[o] == p;
        assert(op_touches(rt, x, o));
    } else {
        let o = choose|o: usize| #[trigger]
            (mm.writes)(x).contains(o) && ptrs.contains_key(o) && ptrs[o] == p;
        assert(op_touches(rt, x, o));
    }
}

/// What an execution leaves depends on nothing but the inputs: two executions of the same
/// graph with the same dimensions and buffers, in whatever order each takes its steps, leave
/// the same in the inputs and in all that they zero and write, if the inputs held the same
/// before. What else the memory held, from earlier executions or otherwise, does not matter.
pub proof fn law_outcome_depends_on_inputs_alone(
    mm: Machine,
    rt: CudaRuntime,
    zero_all: bool,
    inputs: Set<u64>,
    dims: Map<char, usize>,
    s: Seq<Event>,
    t: Seq<Event>,
    a: Memory,
    b: Memory,
)
    requires
        executes(rt),
        keeps_to_buffers(mm),
        well_connected(mm, rt, zero_all, inputs),
        is_execution(rt, zero_all, s),
        is_execution(rt, zero_all, t),
        agree(a, b, inputs),
    ensures
        agree(
            run(mm, rt, dims, s, a),
            run(mm, rt, dims, t, b),
            settled_places(mm, rt, zero_all, inputs),
        ),
{
    assert forall|i: int, p: u64|
        0 <= i < s.len() && #[trigger] reads_at(mm, rt, s[i]).contains(p) implies inputs.contains(p)
        || exists|j: int| 0 <= j < i && #[trigger] writes_at(mm, rt, s[j]).contains(p) by {
        assert(s.contains(s[i]));
        assert(is_event(rt, zero_all, s[i]));
        if let Event::Op(x) = s[i] {
            if !inputs.contains(p) {
                if exists|n: usize| #[trigger] is_zeroed(rt, zero_all, n) && rt.buffers@[n].ptr == p {
                    let n = choose|n: usize| #[trigger]
                        is_zeroed(rt, zero_all, n) && rt.buffers@[n].ptr == p;
                    lemma_zeroing_conflict(mm, rt, zero_all, inputs, n, x);
                    assert(is_event(rt, zero_all, Event::Zero(n)));
                    assert(s.contains(Event::Zero(n)));
                    let j = choose|j: int| 0 <= j < s.len() && s[j] == Event::Zero(n);
                    assert(waits_for(rt, s[i], s[j]));
                    assert(writes_at(mm, rt, s[j]).contains(p));
                } else {
                    let y = choose|y: usize| #[trigger]
                        arcs(rt.exec_graph.graph).contains((y, x)) && writes_at(
                            mm,
                            rt,
                            Event::Op(y),
                        ).contains(p);
                    lemma_exec_arcs_within(rt);
                    assert(is_event(rt, zero_all, Event::Op(y)));
                    assert(s.contains(Event::Op(y)));
                    let j = choose|j: int| 0 <= j < s.len() && s[j] == Event::Op(y);
                    assert(waits_for(rt, s[i], s[j]));
                    assert(writes_at(mm, rt, s[j]).contains(p));
                }
            }
        }
    }
    lemma_agreement_grows(mm, rt, dims, s, a, b, inputs);
    assert forall|i: int, j: int, k: int, l: int|
        0 <= i < j < s.len() && 0 <= k < t.len() && 0 <= l < t.len() && #[trigger] s[i]
            == #[trigger] t[k] && #[trigger] s[j] == #[trigger] t[l] && conflict(
            mm,
            rt,
            s[j],
            s[i],
        ) implies k < l by {
        lemma_order_is_forced(mm, rt, zero_all, inputs, s, t, i, j, k, l);
    }
    assert forall|e: Event| #[trigger] s.contains(e) <==> t.contains(e) by {
        assert(s.contains(e) <==> is_event(rt, zero_all, e));
    }
    lemma_same_outcome(mm, rt, dims, s, t, b);
    let (x, y) = (run(mm, rt, dims, s, a), run(mm, rt, dims, t, b));
    assert forall|p: u64| #[trigger]
        settled_places(mm, rt, zero_all, inputs).contains(p) implies x(p) == y(p) by {
        if !inputs.contains(p) {
            let e = choose|e: Event|
                is_event(rt, zero_all, e) && #[trigger] writes_at(mm, rt, e).contains(p);
            assert(s.contains(e));
            let i = choose|i: int| 0 <= i < s.len() && s[i] == e;
            assert(agree(x, y, writes_at(mm, rt, s[i])));
        }
    }
}

/// An execution leaves its inputs as they are.
pub proof fn law_inputs_are_kept(
    mm: Machine,
    rt: CudaRuntime,
    zero_all: bool,
    inputs: Set<u64>,
    dims: Map<char, usize>,
    events: Seq<Event>,
    mem: Memory,
)
    requires
        keeps_to_buffers(mm),
        well_connected(mm, rt, zero_all, inputs),
        is_execution(rt, zero_all, events),
    ensures
        agree(run(mm, rt, dims, events, mem), mem, inputs),
{
    let after = run(mm, rt, dims, events, mem);
    assert forall|p: u64| #[trigger] inputs.contains(p) implies after(p) == mem(p) by {
        assert forall|i: int| 0 <= i < events.len() implies !writes_at(
            mm,
            rt,
            #[trigger] events[i],
        ).contains(p) by {
            assert(events.contains(events[i]));
        }
        lemma_run_keeps(mm, rt, dims, events, mem, p);
    }
}

/// The buffer that an operation writes its output to is among what executions settle.
pub proof fn law_outputs_are_settled(
    mm: Machine,
    rt: CudaRuntime,
    zero_all: bool,
    inputs: Set<u64>,
    x: usize,
)
    requires
        graph_nodes(rt.exec_graph.graph).contains(x),
        rt.buffers@.contains_key(exec_op(rt, x).output),
        (mm.writes)(x).contains(exec_op(rt, x).output),
    ensures
        settled_places(mm, rt, zero_all, inputs).contains(
            rt.buffers@[exec_op(rt, x).output].ptr,
        ),
{
    let n = exec_op(rt, x).output;
    assert(op_touches(rt, x, n));
    assert(handed(rt, x).contains_key(n));
    assert(writes_at(mm, rt, Event::Op(x)).contains(rt.buffers@[n].ptr));
    assert(is_event(rt, zero_all, Event::Op(x)));
}

/// What executions one after the other make of the memory.
pub open spec fn run_all(
    mm: Machine,
    rt: CudaRuntime,
    dims: Map<char, usize>,
    all: Seq<Seq<Event>>,
    mem: Memory,
) -> Memory
    decreases all.len(),
{
    if all.len() == 0 {
        mem
    } else {
        run(mm, rt, dims, all.last(), run_all(mm, rt, dims, all.drop_last(), mem))
    }
}

/// Executing again with the same inputs, dimensions and buffers leaves the same outputs, any
/// number of times, whether the operations run one by one or as one graph.
pub proof fn law_repeated_executions_leave_the_same(
    mm: Machine,
    rt: CudaRuntime,
    zero_all: bool,
    inputs: Set<u64>,
    dims: Map<char, usize>,
    first: Seq<Event>,
    all: Seq<Seq<Event>>,
    mem: Memory,
)
    requires
        executes(rt),
        keeps_to_buffers(mm),
        well_connected(mm, rt, zero_all, inputs),
        is_execution(rt, zero_all, first),
        forall|i: int| 0 <= i < all.len() ==> is_execution(rt, zero_all, #[trigger] all[i]),
    ensures
        agree(
            run_all(mm, rt, dims, all, run(mm, rt, dims, first, mem)),
            run(mm, rt, dims, first, mem),
            settled_places(mm, rt, zero_all, inputs),
        ),
    decreases all.len(),
{
    let once = run(mm, rt, dims, first, mem);
    if all.len() > 0 {
        let before = all.drop_last();
        assert forall|i: int| 0 <= i < before.len() implies is_execution(
            rt,
            zero_all,
            #[trigger] before[i],
        ) by {
            assert(before[i] == all[i]);
        }
        law_repeated_executions_leave_the_same(
            mm,
            rt,
            zero_all,
            inputs,
            dims,
            first,
            before,
            mem,
        );
        let then = run_all(mm, rt, dims, before, once);
        law_inputs_are_kept(mm, rt, zero_all, inputs, dims, first, mem);
        assert forall|p: u64| #[trigger] inputs.contains(p) implies then(p) == mem(p) by {
            assert(settled_places(mm, rt, zero_all, inputs).contains(p));
        }
        assert(all[all.len() - 1] == all.last());
        law_outcome_depends_on_inputs_alone(
            mm,
            rt,
            zero_all,
            inputs,
            dims,
            all.last(),
            first,
            then,
            mem,
        );
    }
}

/// The steps of an execution that zeroes buffers and then runs the operations one by one.
pub open spec fn one_by_one(zeroed: Seq<usize>, order: Seq<usize>) -> Seq<Event> {
    zeroed.map_values(|n: usize| Event::Zero(n)) + order.map_values(|x: usize| Event::Op(x))
}

/// Zeroing first and then running the operations in a topological order is an execution.
pub proof fn law_one_by_one_is_an_execution(
    rt: CudaRuntime,
    zero_all: bool,
    zeroed: Seq<usize>,
    order: Seq<usize>,
)
    requires
        topological(order, graph_nodes(rt.exec_graph.graph), arcs(rt.exec_graph.graph)),
        rising(zeroed),
        forall|n: usize| #[trigger] zeroed.contains(n) <==> is_zeroed(rt, zero_all, n),
    ensures
        is_execution(rt, zero_all, one_by_one(zeroed, order)),
{
    let events = one_by_one(zeroed, order);
    let z = zeroed.len() as int;
    assert forall|i: int| 0 <= i < events.len() implies #[trigger] events[i] == if i < z {
        Event::Zero(zeroed[i])
    } else {
        Event::Op(order[i - z])
    } by {
    }
    assert forall|e: Event| #[trigger] events.contains(e) <==> is_event(rt, zero_all, e) by {
        if events.contains(e) {
            let i = choose|i: int| 0 <= i < events.len() && events[i] == e;
            if i < z {
                assert(zeroed.contains(zeroed[i]));
            } else {
                assert(order.contains(order[i - z]));
                assert(order.to_set().contains(order[i - z]));
            }
        }
        if is_event(rt, zero_all, e) {
            match e {
                Event::Zero(n) => {
                    assert(zeroed.contains(n));
                    let i = choose|i: int| 0 <= i < zeroed.len() && zeroed[i] == n;
                    assert(events[i] == e);
                },
                Event::Op(x) => {
                    assert(order.to_set().contains(x));
                    let i = choose|i: int| 0 <= i < order.len() && order[i] == x;
                    assert(events[i + z] == e);
                },
            }
        }
    }
    assert(events.no_duplicates()) by {
        assert forall|i: int, j: int| 0 <= i < j < events.len() implies events[i] != events[j] by {
            if j < z {
                assert(zeroed[i] < zeroed[j]);
            }
        }
    }
    assert forall|i: int, j: int|
        0 <= i < events.len() && 0 <= j < events.len() && #[trigger] waits_for(
            rt,
            events[i],
            events[j],
        ) implies j < i by {
        if i >= z && j >= z {
            assert(arcs(rt.exec_graph.graph).contains((order[j - z], order[i - z])));
        }
    }
}

/// The steps of a planned graph in the order in which the device takes them: numbers below
/// the number of memsets stand for these, and further ones for the operations.
pub open spec fn as_graph(plan: RuntimeGraphPlan, schedule: Seq<int>) -> Seq<Event> {
    schedule.map_values(
        |k: int|
            if k < plan.zeroed@.len() {
                Event::Zero(plan.zeroed@[k])
            } else {
                Event::Op(plan.ops@[k - plan.zeroed@.len()].exec_node)
            },
    )
}

/// The device takes every step of the plan once, and none before those that the plan puts
/// before it.
pub open spec fn follows_plan(plan: RuntimeGraphPlan, schedule: Seq<int>) -> bool {
    let z = plan.zeroed@.len() as int;
    &&& schedule.no_duplicates()
    &&& forall|k: int| #[trigger] schedule.contains(k) <==> 0 <= k < z + plan.ops@.len()
    &&& forall|i: int, j: int|
        0 <= i < schedule.len() && 0 <= j < schedule.len() && schedule[i] >= z && 0 <= #[trigger] schedule[j]
            < z && plan.ops@[#[trigger] schedule[i] - z].after_zeros@.contains(schedule[j] as usize)
            ==> j < i
    &&& forall|i: int, j: int|
        0 <= i < schedule.len() && 0 <= j < schedule.len() && schedule[i] >= z && #[trigger] schedule[j]
            >= z && plan.ops@[#[trigger] schedule[i] - z].after_ops@.contains(
            (schedule[j] - z) as usize,
        ) ==> j < i
}

/// Launching the planned graph is an execution, whatever order the device takes.
pub proof fn law_launch_is_an_execution(
    rt: CudaRuntime,
    zero_all: bool,
    order: Seq<usize>,
    plan: RuntimeGraphPlan,
    schedule: Seq<int>,
)
    requires
        runtime_graph_of(rt, order, zero_all, plan),
        topological(order, graph_nodes(rt.exec_graph.graph), arcs(rt.exec_graph.graph)),
        follows_plan(plan, schedule),
    ensures
        is_execution(rt, zero_all, as_graph(plan, schedule)),
{
    let events = as_graph(plan, schedule);
    let z = plan.zeroed@.len() as int;
    assert(plan.zeroed.len() == z && plan.ops.len() == plan.ops@.len());
    assert forall|j: int| 0 <= j < order.len() implies planned_op(
        rt,
        order,
        plan.zeroed@,
        j,
        #[trigger] plan.ops@[j],
    ) by {
    }
    assert forall|i: int| 0 <= i < events.len() implies 0 <= #[trigger] schedule[i] < z + order.len() && (
    schedule[i] < z ==> events[i] == Event::Zero(plan.zeroed@[schedule[i]])) && (schedule[i] >= z
        ==> events[i] == Event::Op(order[schedule[i] - z])) by {
        assert(schedule.contains(schedule[i]));
        if schedule[i] >= z {
            assert(planned_op(rt, order, plan.zeroed@, schedule[i] - z, plan.ops@[schedule[i] - z]));
        }
    }
    assert forall|e: Event| #[trigger] events.contains(e) <==> is_event(rt, zero_all, e) by {
        if events.contains(e) {
            let i = choose|i: int| 0 <= i < events.len() && events[i] == e;
            let k = schedule[i];
            if k < z {
                assert(plan.zeroed@.contains(plan.zeroed@[k]));
            } else {
                assert(order.contains(order[k - z]));
                assert(order.to_set().contains(order[k - z]));
            }
        }
        if is_event(rt, zero_all, e) {
            let k = match e {
                Event::Zero(n) => {
                    assert(plan.zeroed@.contains(n));
                    choose|k: int| 0 <= k < z && plan.zeroed@[k] == n
                },
                Event::Op(x) => {
                    assert(order.to_set().contains(x));
                    let j = choose|j: int| 0 <= j < order.len() && order[j] == x;
                    j + z
                },
            };
            assert(schedule.contains(k));
            let i = choose|i: int| 0 <= i < schedule.len() && schedule[i] == k;
            assert(events[i] == e);
        }
    }
    assert(events.no_duplicates()) by {
        assert forall|i: int, j: int| 0 <= i < events.len() && 0 <= j < events.len() && i
            != j implies events[i] != events[j] by {
            let (k, l) = (schedule[i], schedule[j]);
            assert(k != l);
            if k < z && l < z {
                if k < l {
                    assert(plan.zeroed@[k] < plan.zeroed@[l]);
                } else {
                    assert(plan.zeroed@[l] < plan.zeroed@[k]);
                }
            }
        }
    }
    assert forall|i: int, j: int|
        0 <= i < events.len() && 0 <= j < events.len() && #[trigger] waits_for(
            rt,
            events[i],
            events[j],
        ) implies j < i by {
        let (k, l) = (schedule[i], schedule[j]);
        assert(k >= z);
        let op = plan.ops@[k - z];
        assert(planned_op(rt, order, plan.zeroed@, k - z, op));
        if l < z {
            assert(op.after_zeros@.contains(l as usize));
        } else {
            assert(op.after_ops@.contains((l - z) as usize));
        }
    }
}

/// The inputs of two runtimes are of the same kind, buffers or bare pointers.
pub open spec fn same_kinds(one: CudaRuntime, two: CudaRuntime) -> bool {
    forall|h: usize|
        #[trigger] one.hlir_buffers@.contains_key(h) && two.hlir_buffers@.contains_key(h) ==> (
        one.hlir_buffers@[h] is Buffer <==> two.hlir_buffers@[h] is Buffer)
}

/// With graph, buffers and places of inputs the same, the operations are handed the same.
proof fn lemma_handed_the_same(one: CudaRuntime, two: CudaRuntime)
    requires
        two.same_graph(&one),
        two.buffers@ == one.buffers@,
        inputs_in_place(one, two),
        same_kinds(one, two),
        two.in_order(),
    ensures
        forall|x: usize, n: usize| #[trigger] op_touches(one, x, n) == op_touches(two, x, n),
        forall|x: usize| #[trigger] handed(one, x) == handed(two, x),
{
    assert forall|n: usize|
        (runtime_buffer(one, n) is Some) == (#[trigger] runtime_buffer(two, n) is Some) && (
        runtime_buffer(two, n) is Some ==> runtime_buffer(one, n)->0.ptr == runtime_buffer(
            two,
            n,
        )->0.ptr) by {
        if !two.buffers@.contains_key(n) && two.llir_to_hlir@.contains_key(n) {
            let h = two.llir_to_hlir@[n];
            assert(two.hlir_to_llir@.contains_key(h));
            if two.hlir_buffers@.contains_key(h) {
                assert(one.hlir_buffers@.contains_key(h));
            }
        }
    }
    assert forall|x: usize, n: usize| #[trigger] op_touches(one, x, n) == op_touches(two, x, n) by {
        assert((runtime_buffer(one, n) is Some) == (runtime_buffer(two, n) is Some));
    }
    assert forall|x: usize| #[trigger] handed(one, x) == handed(two, x) by {
        assert forall|n: usize| #[trigger] op_touches(two, x, n) implies runtime_buffer(
            one,
            n,
        )->0.ptr == runtime_buffer(two, n)->0.ptr by {
            assert(runtime_buffer(two, n) is Some);
        }
        assert(handed(one, x) =~= handed(two, x));
    }
}

/// Handed the same, they do the same.
proof fn lemma_runs_the_same(
    mm: Machine,
    one: CudaRuntime,
    two: CudaRuntime,
    dims: Map<char, usize>,
    events: Seq<Event>,
    mem: Memory,
)
    requires
        two.buffers@ == one.buffers@,
        forall|x: usize| #[trigger] handed(one, x) == handed(two, x),
    ensures
        run(mm, one, dims, events, mem) == run(mm, two, dims, events, mem),
    decreases events.len(),
{
    if events.len() > 0 {
        let e = events[0];
        let (a, b) = (step(mm, one, dims, e, mem), step(mm, two, dims, e, mem));
        match e {
            Event::Zero(n) => {
                assert(a =~= b);
            },
            Event::Op(x) => {
                assert(handed(one, x) == handed(two, x));
            },
        }
        lemma_runs_the_same(mm, one, two, dims, events.drop_first(), a);
    }
}

/// A runtime that was used and one that was not leave the same, if graph, buffers, inputs and
/// dimensions are the same now: nothing of earlier inputs, dimensions or executions remains.
pub proof fn law_executions_ignore_history(
    mm: Machine,
    used: CudaRuntime,
    fresh: CudaRuntime,
    zero_all: bool,
    inputs: Set<u64>,
    dims: Map<char, usize>,
    s: Seq<Event>,
    t: Seq<Event>,
    a: Memory,
    b: Memory,
)
    requires
        executes(fresh),
        keeps_to_buffers(mm),
        well_connected(mm, fresh, zero_all, inputs),
        used.same_graph(&fresh),
        used.buffers@ == fresh.buffers@,
        used.hlir_buffers@ == fresh.hlir_buffers@,
        is_execution(used, zero_all, s),
        is_execution(fresh, zero_all, t),
        agree(a, b, inputs),
    ensures
        agree(
            run(mm, used, dims, s, a),
            run(mm, fresh, dims, t, b),
            settled_places(mm, fresh, zero_all, inputs),
        ),
{
    assert forall|x: usize| #[trigger] handed(used, x) == handed(fresh, x) by {
        assert(handed(used, x) =~= handed(fresh, x));
    }
    assert forall|x: usize, n: usize| #[trigger]
        op_touches(used, x, n) == op_touches(fresh, x, n) by {
    }
    lemma_runs_the_same(mm, used, fresh, dims, s, a);
    lemma_is_execution_of_both(used, fresh, zero_all, s);
    law_outcome_depends_on_inputs_alone(mm, fresh, zero_all, inputs, dims, s, t, a, b);
}

/// With graph, buffers and what operations touch the same, an execution of one is one of the
/// other.
proof fn lemma_is_execution_of_both(
    one: CudaRuntime,
    two: CudaRuntime,
    zero_all: bool,
    events: Seq<Event>,
)
    requires
        two.same_graph(&one),
        two.buffers@ == one.buffers@,
        forall|x: usize, n: usize| #[trigger] op_touches(one, x, n) == op_touches(two, x, n),
        is_execution(one, zero_all, events),
    ensures
        is_execution(two, zero_all, events),
{
    assert forall|e: Event| #[trigger] events.contains(e) <==> is_event(two, zero_all, e) by {
        assert(is_event(one, zero_all, e) == is_event(two, zero_all, e));
    }
    assert forall|i: int, j: int|
        0 <= i < events.len() && 0 <= j < events.len() && #[trigger] waits_for(
            two,
            events[i],
            events[j],
        ) implies j < i by {
        assert(waits_for(one, events[i], events[j]));
    }
}

/// A new input is what the operations that read its tensor are handed.
pub proof fn law_new_input_is_handed_on(
    rt: CudaRuntime,
    after: CudaRuntime,
    h: usize,
    input: DeviceBuffer,
    x: usize,
    n: usize,
)
    requires
        after.same_graph(&rt),
        after.buffers == rt.buffers,
        after.hlir_buffers@ == rt.hlir_buffers@.insert(h, CudaInput::Buffer(input)),
        rt.llir_to_hlir@.contains_key(n) && rt.llir_to_hlir@[n] == h,
        !rt.buffers@.contains_key(n),
        exec_op(rt, x).inputs@.contains(n),
    ensures
        handed(after, x).contains_key(n),
        handed(after, x)[n] == input.ptr,
{
    assert(runtime_buffer(after, n) == Some(input));
    assert(op_touches(after, x, n));
}

/// A replay leaves what executing the operations one by one would leave. The recording was
/// made when the runtime was as `then`, and runs with the pointers and dimensions of then; the
/// operations, with those that the runtime has now. Inputs may hold other data than they did.
pub proof fn law_replay_leaves_what_a_dispatch_leaves(
    mm: Machine,
    then: CudaRuntime,
    rt: CudaRuntime,
    after: CudaRuntime,
    recorded: (Map<char, usize>, bool),
    dims: Map<char, usize>,
    settings: ExecuteSettings,
    allocate: bool,
    inputs: Set<u64>,
    replayed: Seq<Event>,
    dispatched: Seq<Event>,
    mem: Memory,
)
    requires
        keeps_to_buffers(mm),
        then.in_order(),
        then.changed_hlir@ == Set::<usize>::empty(),
        then.runtime_replay.last_signature() == Some(
            (recorded.0, then.cached_buffer_ptrs@, recorded.1),
        ),
        rt.wf(),
        rt.in_order(),
        recorded_at(then, rt),
        same_kinds(then, rt),
        rt.executed_as(after, dims, settings, Ok((allocate, ReplayAction::Replay))),
        executes(after),
        well_connected(mm, after, settings.force_zero_all, inputs),
        is_execution(then, recorded.1, replayed),
        is_execution(after, settings.force_zero_all, dispatched),
    ensures
        agree(
            run(mm, then, recorded.0, replayed, mem),
            run(mm, after, dims, dispatched, mem),
            settled_places(mm, after, settings.force_zero_all, inputs),
        ),
{
    law_replay_finds_inputs_in_place(then, rt, after, recorded, dims, settings, allocate);
    law_execution_keeps_recording(
        then,
        rt,
        after,
        dims,
        settings,
        Ok((allocate, ReplayAction::Replay)),
    );
    assert forall|h: usize|
        #[trigger] then.hlir_buffers@.contains_key(h) && after.hlir_buffers@.contains_key(
            h,
        ) implies (then.hlir_buffers@[h] is Buffer <==> after.hlir_buffers@[h] is Buffer) by {
        assert(rt.hlir_buffers@.contains_key(h));
    }
    lemma_handed_the_same(then, after);
    lemma_is_execution_of_both(then, after, recorded.1, replayed);
    lemma_runs_the_same(mm, then, after, dims, replayed, mem);
    law_outcome_depends_on_inputs_alone(
        mm,
        after,
        settings.force_zero_all,
        inputs,
        dims,
        replayed,
        dispatched,
        mem,
        mem,
    );
}

/// What kernels see of what the device holds: the buffer of dynamic dimensions only where the
/// graph has such dimensions.
pub open spec fn seen_by_kernels(op: CudaGraphOp, d: OnDevice) -> OnDevice {
    OnDevice {
        dim_values: if op.dyn_dims_order@.len() == 0 {
            Seq::empty()
        } else {
            d.dim_values
        },
        ..d
    }
}

/// What a CUDA graph makes of the memory, given where its buffers are, and the dynamic
/// dimensions. What its kernels do is left open.
pub open spec fn graph_effect(
    op: CudaGraphOp,
    kernels_do: spec_fn(OnDevice, Memory) -> Memory,
    ptrs: Map<usize, u64>,
    dims: Map<char, usize>,
    mem: Memory,
) -> Memory {
    let d = OnDevice {
        args: pointers_for(op.kernels@, op.own_ptrs(ptrs)),
        shaped_for: dims,
        dim_values: op.dim_values(dims),
    };
    kernels_do(seen_by_kernels(op, d), mem)
}

/// A CUDA graph is an operation whose effect depends on its buffers and the dimensions alone:
/// whatever the device held of it before, the launch does what `graph_effect` says.
pub proof fn law_cuda_graph_is_an_operation(
    before: CudaGraphOp,
    after: CudaGraphOp,
    kernels_do: spec_fn(OnDevice, Memory) -> Memory,
    d: OnDevice,
    ptrs: Map<usize, u64>,
    dims: Map<char, usize>,
    settings: LaunchSettings,
    e: Execution,
    mem: Memory,
)
    requires
        in_step(before, d),
        before.executed(after, ptrs, dims, settings, Ok(e)),
    ensures
        kernels_do(seen_by_kernels(before, carried_out(d, e, dims)), mem) == graph_effect(
            before,
            kernels_do,
            ptrs,
            dims,
            mem,
        ),
{
    law_launch_is_of_this_execution(before, after, d, ptrs, dims, settings, e);
}

} // verus!
