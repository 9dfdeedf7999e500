//! Timings of executions.

use crate::sort::sort_order;
#[allow(unused_imports)]
use crate::sort::{before, is_sort_order};
use vstd::prelude::*;

verus! {

/// Timing data for a single kernel in a CUDA graph.
#[derive(Clone, Debug)]
pub struct CudaGraphKernelTiming {
    pub kernel_name: &'static str,
    pub start_ns: u64,
    pub end_ns: u64,
}

/// Timing data for a CUDA graph execution.
#[derive(Clone, Debug)]
pub struct CudaGraphTiming {
    pub kernel_timings: Vec<CudaGraphKernelTiming>,
    /// Time from the launch until the first kernel started on the device.
    pub launch_latency_ns: u64,
    /// Time from entry to just before the launch.
    pub setup_duration_ns: u64,
}

/// A recording that waits to be read: where its events are, and where the start times
/// of the processors.
#[derive(Debug, Clone, Copy)]
pub struct PendingTiming {
    pub timing_buffer_idx: usize,
    pub start_time_idx: usize,
}

/// `m` is the least of the numbers, or 0 where there are none.
pub open spec fn is_least(starts: Seq<u64>, m: u64) -> bool {
    if starts.len() == 0 {
        m == 0
    } else {
        &&& starts.contains(m)
        &&& forall|i: int| 0 <= i < starts.len() ==> m <= #[trigger] starts[i]
    }
}

/// The least of the numbers, or 0 where there are none.
pub fn least_start(starts: &Vec<u64>) -> (m: u64)
    ensures
        is_least(starts@, m),
{
    if starts.len() == 0 {
        return 0;
    }
    let mut m: u64 = starts[0];
    let mut i: usize = 1;
    while i < starts.len()
        invariant
            1 <= i <= starts@.len(),
            starts@.contains(m),
            forall|k: int| 0 <= k < i ==> m <= #[trigger] starts@[k],
        decreases starts@.len() - i,
    {
        if starts[i] < m {
            m = starts[i];
        }
        i = i + 1;
    }
    m
}

/// The recordings that wait, each with where its events are and the least start time;
/// `None` where there are none, and nothing is to be added.
pub fn flush_pending_timings(pending: &Vec<PendingTiming>, start_pool: &Vec<Vec<u64>>) -> (r: Option<
    Vec<(usize, u64)>,
>)
    requires
        forall|i: int|
            0 <= i < pending@.len() ==> (#[trigger] pending@[i]).start_time_idx < start_pool@.len(),
    ensures
        r is None <==> pending@.len() == 0,
        r matches Some(v) ==> v@.len() == pending@.len() && forall|i: int|
            0 <= i < v@.len() ==> (#[trigger] v@[i]).0 == pending@[i].timing_buffer_idx && is_least(
                start_pool@[pending@[i].start_time_idx as int]@,
                v@[i].1,
            ),
{
    if pending.len() == 0 {
        return None;
    }
    let mut v: Vec<(usize, u64)> = Vec::new();
    let mut i: usize = 0;
    while i < pending.len()
        invariant
            forall|i: int|
                0 <= i < pending@.len() ==> (#[trigger] pending@[i]).start_time_idx
                    < start_pool@.len(),
            i <= pending@.len(),
            v@.len() == i,
            forall|k: int|
                0 <= k < i ==> (#[trigger] v@[k]).0 == pending@[k].timing_buffer_idx && is_least(
                    start_pool@[pending@[k].start_time_idx as int]@,
                    v@[k].1,
                ),
        decreases pending@.len() - i,
    {
        let p = pending[i];
        v.push((p.timing_buffer_idx, least_start(&start_pool[p.start_time_idx])));
        i = i + 1;
    }
    Some(v)
}

/// The time stamps, 0 where there is none.
pub open spec fn stamps(timestamps: Seq<Option<u64>>) -> Seq<u64> {
    timestamps.map_values(
        |t: Option<u64>|
            match t {
                Some(v) => v,
                None => 0,
            },
    )
}

/// The order of trace packets by their time stamps; packets without one come first, and
/// packets of one time keep their order.
pub fn packet_order(timestamps: &Vec<Option<u64>>) -> (perm: Vec<usize>)
    ensures
        is_sort_order(stamps(timestamps@), perm@),
{
    let mut keys: Vec<u64> = Vec::new();
    let mut i: usize = 0;
    while i < timestamps.len()
        invariant
            i <= timestamps@.len(),
            keys@.len() == i,
            forall|k: int| 0 <= k < i ==> #[trigger] keys@[k] == stamps(timestamps@)[k],
        decreases timestamps@.len() - i,
    {
        let key: u64 = match timestamps[i] {
            Some(v) => v,
            None => 0,
        };
        keys.push(key);
        i = i + 1;
    }
    assert(keys@ =~= stamps(timestamps@));
    sort_order(&keys)
}

/// The least start is the same in whatever order the starts are given, and no other number is
/// it.
pub proof fn law_least_start_is_one(a: Seq<u64>, b: Seq<u64>, m: u64, n: u64)
    requires
        is_least(a, m),
        is_least(b, n),
        forall|v: u64| #[trigger] a.contains(v) <==> b.contains(v),
    ensures
        m == n,
        forall|i: int| 0 <= i < a.len() ==> m <= #[trigger] a[i],
        a.len() > 0 ==> a.contains(m),
{
    if a.len() == 0 {
        if b.len() > 0 {
            assert(b.contains(b[0]));
            assert(a.contains(b[0]));
        }
    } else {
        assert(a.contains(a[0]));
        assert(b.contains(a[0]));
        assert(b.contains(m) && a.contains(n));
        let i = choose|i: int| 0 <= i < b.len() && b[i] == m;
        let j = choose|j: int| 0 <= j < a.len() && a[j] == n;
        assert(n <= b[i] && m <= a[j]);
    }
}

/// Packets come out in the order of their times: of two with a time the earlier first, of two
/// with the same the one that came first, and those without before those with one.
pub proof fn law_packets_by_their_times(timestamps: Seq<Option<u64>>, perm: Seq<usize>, i: int, j: int)
    requires
        is_sort_order(stamps(timestamps), perm),
        0 <= i < j < perm.len(),
    ensures
        perm.len() == timestamps.len(),
        perm[i] < timestamps.len() && perm[j] < timestamps.len() && perm[i] != perm[j],
        ({
            let (a, b) = (timestamps[perm[i] as int], timestamps[perm[j] as int]);
            &&& a is Some && b is Some ==> a->0 <= b->0
            &&& a is Some && b is Some && a->0 == b->0 ==> perm[i] < perm[j]
            &&& a is None && b is None ==> perm[i] < perm[j]
            &&& a is Some && b is None ==> a->0 == 0
        }),
{
    assert(perm.contains(perm[i]) && perm.contains(perm[j]));
    assert(before(stamps(timestamps), perm[i], perm[j]));
}

/// Every packet comes out.
pub proof fn law_no_packet_is_lost(timestamps: Seq<Option<u64>>, perm: Seq<usize>, k: usize)
    requires
        is_sort_order(stamps(timestamps), perm),
        k < timestamps.len(),
    ensures
        exists|i: int| 0 <= i < perm.len() && #[trigger] perm[i] == k,
{
    assert(perm.contains(k));
}

} // verus!
