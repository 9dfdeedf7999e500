//! Statistics of block operations from the events that the processors recorded.
//!
//! An event carries a code. Code 0 is issuing, 1 waiting. With `n` kinds of
//! operations, in alphabetical order, code `2 + i` is the main part of kind `i`, and
//! code `2 + n + 3 * i + t` its prologue A, B or C, for `t` from 0 to 2.

use crate::names::insert_name;
#[allow(unused_imports)]
use crate::names::{alphabetical, name_less, texts};
use crate::text::same_text;
use vstd::prelude::*;

verus! {

/// What a part of a block operation costs.
#[derive(Debug, Clone, Copy, PartialEq, Eq, Structural)]
pub struct PartCost {
    pub bytes_loaded: usize,
    pub bytes_stored: usize,
    pub flops: usize,
}

/// A block operation and what its parts cost: the main part, then prologues A, B, C.
#[derive(Debug)]
pub struct BlockOpCost {
    pub name: String,
    pub main: PartCost,
    pub prologue_a: PartCost,
    pub prologue_b: PartCost,
    pub prologue_c: PartCost,
}

/// An event that a processor recorded. A start of 0 marks an unused slot; a stop of 0
/// an event that was not closed.
#[derive(Debug, Clone, Copy, PartialEq, Eq, Structural)]
pub struct SMEvent {
    pub start: u64,
    pub stop: u64,
    pub event: i32,
}

/// A line of the statistics: the time is the sum over all processors.
#[derive(Debug)]
pub struct BlockOpStats {
    pub name: String,
    pub time_ns: u64,
    pub bytes_loaded: usize,
    pub bytes_stored: usize,
    pub flops: usize,
    pub count: usize,
}

/// A line of the statistics.
pub struct StatLine {
    pub name: Seq<char>,
    pub time_ns: int,
    pub bytes_loaded: int,
    pub bytes_stored: int,
    pub flops: int,
    pub count: int,
}

impl View for BlockOpStats {
    type V = StatLine;

    open spec fn view(&self) -> StatLine {
        StatLine {
            name: self.name@,
            time_ns: self.time_ns as int,
            bytes_loaded: self.bytes_loaded as int,
            bytes_stored: self.bytes_stored as int,
            flops: self.flops as int,
            count: self.count as int,
        }
    }
}

/// How long an event took; one that was not closed took no time.
pub open spec fn duration(e: SMEvent) -> nat {
    if e.stop == 0 || e.stop < e.start {
        0
    } else {
        (e.stop - e.start) as nat
    }
}

/// The events of one processor up to its first unused slot.
pub open spec fn used_slots(chunk: Seq<SMEvent>) -> Seq<SMEvent>
    decreases chunk.len(),
{
    if chunk.len() == 0 || chunk[0].start == 0 {
        Seq::empty()
    } else {
        seq![chunk[0]] + used_slots(chunk.drop_first())
    }
}

/// The events of all processors, each with so many slots.
pub open spec fn recorded(events: Seq<SMEvent>, slots: nat) -> Seq<SMEvent>
    decreases events.len(),
{
    if events.len() == 0 || slots == 0 {
        Seq::empty()
    } else if events.len() <= slots {
        used_slots(events)
    } else {
        used_slots(events.take(slots as int)) + recorded(events.skip(slots as int), slots)
    }
}

/// The events of several recordings.
pub open spec fn all_recorded(timings: Seq<Vec<SMEvent>>, slots: nat) -> Seq<SMEvent>
    decreases timings.len(),
{
    if timings.len() == 0 {
        Seq::empty()
    } else {
        all_recorded(timings.drop_last(), slots) + recorded(timings.last()@, slots)
    }
}

/// The time that events with a code took.
pub open spec fn time_of(events: Seq<SMEvent>, code: int) -> nat
    decreases events.len(),
{
    if events.len() == 0 {
        0
    } else {
        time_of(events.drop_last(), code) + if events.last().event == code {
            duration(events.last())
        } else {
            0
        }
    }
}

/// How many events have a code.
pub open spec fn count_of(events: Seq<SMEvent>, code: int) -> nat
    decreases events.len(),
{
    if events.len() == 0 {
        0
    } else {
        count_of(events.drop_last(), code) + if events.last().event == code {
            1
        } else {
            0nat
        }
    }
}

/// The cost of a part: 0 is the main part, 1 to 3 are the prologues, which store
/// nothing.
pub open spec fn part_cost(op: BlockOpCost, part: int) -> (int, int, int) {
    if part == 0 {
        (op.main.bytes_loaded as int, op.main.bytes_stored as int, op.main.flops as int)
    } else if part == 1 {
        (op.prologue_a.bytes_loaded as int, 0, op.prologue_a.flops as int)
    } else if part == 2 {
        (op.prologue_b.bytes_loaded as int, 0, op.prologue_b.flops as int)
    } else {
        (op.prologue_c.bytes_loaded as int, 0, op.prologue_c.flops as int)
    }
}

/// The cost of a part over all operations of a name: bytes loaded, bytes stored,
/// floating-point operations.
pub open spec fn total_cost(ops: Seq<BlockOpCost>, name: Seq<char>, part: int) -> (int, int, int)
    decreases ops.len(),
{
    if ops.len() == 0 {
        (0, 0, 0)
    } else {
        let (l, s, f) = total_cost(ops.drop_last(), name, part);
        if ops.last().name@ == name {
            let (a, b, c) = part_cost(ops.last(), part);
            (l + a, s + b, f + c)
        } else {
            (l, s, f)
        }
    }
}

/// The kind of operation that a code from 2 on stands for.
pub open spec fn code_op(n: int, code: int) -> int {
    if code < 2 + n {
        code - 2
    } else {
        (code - 2 - n) / 3
    }
}

/// The part of the operation that a code from 2 on stands for.
pub open spec fn code_part(n: int, code: int) -> int {
    if code < 2 + n {
        0
    } else {
        (code - 2 - n) % 3 + 1
    }
}

/// What a part adds to the name of its operation.
pub open spec fn part_suffix(part: int) -> Seq<char> {
    if part == 0 {
        Seq::empty()
    } else if part == 1 {
        " (prologue A)"@
    } else if part == 2 {
        " (prologue B)"@
    } else {
        " (prologue C)"@
    }
}

/// The line of a code.
pub open spec fn line_of(
    ops: Seq<BlockOpCost>,
    names: Seq<Seq<char>>,
    events: Seq<SMEvent>,
    code: int,
) -> StatLine {
    let n = names.len() as int;
    let time_ns = time_of(events, code) as int;
    let count = count_of(events, code) as int;
    if code == 0 {
        StatLine { name: "Issue"@, time_ns, bytes_loaded: 0, bytes_stored: 0, flops: 0, count }
    } else if code == 1 {
        StatLine { name: "Wait"@, time_ns, bytes_loaded: 0, bytes_stored: 0, flops: 0, count }
    } else {
        let name = names[code_op(n, code)];
        let (l, s, f) = total_cost(ops, name, code_part(n, code));
        StatLine {
            name: name + part_suffix(code_part(n, code)),
            time_ns,
            bytes_loaded: l,
            bytes_stored: s,
            flops: f,
            count,
        }
    }
}

/// The codes in the order of their lines: main parts, prologues, issuing, waiting.
pub open spec fn line_codes(n: int) -> Seq<int> {
    Seq::new(
        (4 * n + 2) as nat,
        |i: int|
            if i < 4 * n {
                i + 2
            } else {
                i - 4 * n
            },
    )
}

/// The lines of the first `k` codes that took any time.
pub open spec fn lines_upto(
    ops: Seq<BlockOpCost>,
    names: Seq<Seq<char>>,
    events: Seq<SMEvent>,
    k: int,
) -> Seq<StatLine>
    decreases k,
{
    if k <= 0 {
        Seq::empty()
    } else {
        let code = line_codes(names.len() as int)[k - 1];
        let before = lines_upto(ops, names, events, k - 1);
        if time_of(events, code) > 0 {
            before.push(line_of(ops, names, events, code))
        } else {
            before
        }
    }
}

/// The names of the operations, each once, in alphabetical order.
pub open spec fn kinds_of(ops: Seq<BlockOpCost>, names: Seq<Seq<char>>) -> bool {
    &&& alphabetical(names)
    &&& forall|t: Seq<char>| #[trigger]
        names.contains(t) <==> exists|i: int| 0 <= i < ops.len() && (#[trigger] ops[i]).name@ == t
}

/// The statistics: one line for each code that took any time; none where there are no
/// block operations.
pub open spec fn stats_of(
    ops: Seq<BlockOpCost>,
    names: Seq<Seq<char>>,
    events: Seq<SMEvent>,
) -> Seq<StatLine> {
    if names.len() == 0 {
        Seq::empty()
    } else {
        lines_upto(ops, names, events, 4 * (names.len() as int) + 2)
    }
}

/// A line's numbers fit into 64 bits, and its sizes and counts into a machine word.
pub open spec fn line_fits(l: StatLine) -> bool {
    &&& l.time_ns <= u64::MAX
    &&& l.bytes_loaded <= usize::MAX
    &&& l.bytes_stored <= usize::MAX
    &&& l.flops <= usize::MAX
    &&& l.count <= usize::MAX
}

/// The names of the operations, each once, in alphabetical order.
pub(crate) fn op_names(ops: &Vec<BlockOpCost>) -> (names: Vec<String>)
    ensures
        kinds_of(ops@, texts(names@)),
        names@.len() <= ops@.len(),
{
    let mut names: Vec<String> = Vec::new();
    let mut i: usize = 0;
    while i < ops.len()
        invariant
            i <= ops@.len(),
            alphabetical(texts(names@)),
            forall|t: Seq<char>| #[trigger]
                texts(names@).contains(t) <==> exists|k: int|
                    0 <= k < i && (#[trigger] ops@[k]).name@ == t,
        decreases ops@.len() - i,
    {
        insert_name(&mut names, &ops[i].name);
        i = i + 1;
    }
    proof {
        lemma_names_len(ops@, texts(names@));
    }
    names
}

/// There are no more names than operations.
proof fn lemma_names_len(ops: Seq<BlockOpCost>, names: Seq<Seq<char>>)
    requires
        kinds_of(ops, names),
    ensures
        names.len() <= ops.len(),
{
    let all = ops.map_values(|o: BlockOpCost| o.name@);
    assert(names.no_duplicates()) by {
        assert forall|i: int, j: int| 0 <= i < j < names.len() implies names[i] != names[j] by {
            crate::names::lemma_name_irreflexive(names[i]);
        }
    }
    names.unique_seq_to_set();
    assert(names.to_set().subset_of(all.to_set())) by {
        assert forall|t: Seq<char>| names.to_set().contains(t) implies all.to_set().contains(t) by {
            assert(names.contains(t));
            let i = choose|i: int| 0 <= i < ops.len() && (#[trigger] ops[i]).name@ == t;
            assert(all[i] == t);
        }
    }
    vstd::seq_lib::seq_to_set_is_finite(all);
    vstd::set_lib::lemma_len_subset(names.to_set(), all.to_set());
    all.lemma_cardinality_of_set();
}

/// Time and number of the events with one code.
#[derive(Debug, Clone, Copy)]
struct Tally {
    time_ns: u64,
    count: usize,
}

/// What the events so far come to. A code out of range counts for nothing.
spec fn tallied(tallies: Seq<Tally>, events: Seq<SMEvent>) -> bool {
    forall|c: int|
        0 <= c < tallies.len() ==> (#[trigger] tallies[c]).time_ns == time_of(events, c)
            && tallies[c].count == count_of(events, c)
}

/// Some code's events took too long or are too many.
pub open spec fn overflows(codes: int, events: Seq<SMEvent>) -> bool {
    exists|c: int|
        0 <= c < codes && (#[trigger] time_of(events, c) > u64::MAX || count_of(events, c)
            > usize::MAX)
}

proof fn lemma_tally_grows(a: Seq<SMEvent>, b: Seq<SMEvent>, c: int)
    ensures
        time_of(a, c) <= time_of(a + b, c),
        count_of(a, c) <= count_of(a + b, c),
    decreases b.len(),
{
    if b.len() == 0 {
        assert(a + b =~= a);
    } else {
        lemma_tally_grows(a, b.drop_last(), c);
        assert((a + b).drop_last() =~= a + b.drop_last());
    }
}

proof fn lemma_overflow_grows(codes: int, a: Seq<SMEvent>, b: Seq<SMEvent>)
    requires
        overflows(codes, a),
    ensures
        overflows(codes, a + b),
{
    let c = choose|c: int|
        0 <= c < codes && (#[trigger] time_of(a, c) > u64::MAX || count_of(a, c) > usize::MAX);
    lemma_tally_grows(a, b, c);
    assert(time_of(a + b, c) > u64::MAX || count_of(a + b, c) > usize::MAX);
}

/// One more event. Whether it could be counted.
fn count_event(tallies: &mut Vec<Tally>, e: SMEvent, done: Ghost<Seq<SMEvent>>) -> (ok: bool)
    requires
        tallied(old(tallies)@, done@),
    ensures
        final(tallies)@.len() == old(tallies)@.len(),
        ok ==> tallied(final(tallies)@, done@.push(e)),
        !ok ==> overflows(old(tallies)@.len() as int, done@.push(e)),
{
    let ghost next = done@.push(e);
    assert(next.drop_last() =~= done@);
    let took: u64 = if e.stop == 0 || e.stop < e.start {
        0
    } else {
        e.stop - e.start
    };
    if e.event < 0 || e.event as u64 >= tallies.len() as u64 {
        return true;
    }
    let code: usize = e.event as usize;
    let ghost c = code as int;
    let t = tallies[code];
    proof {
        assert(tallies@[c].time_ns == time_of(done@, c) && tallies@[c].count == count_of(done@, c));
        assert(time_of(next, c) == t.time_ns + took);
        assert(count_of(next, c) == t.count + 1);
    }
    if t.time_ns > u64::MAX - took || t.count == usize::MAX {
        assert(time_of(next, c) > u64::MAX || count_of(next, c) > usize::MAX);
        return false;
    }
    tallies.set(code, Tally { time_ns: t.time_ns + took, count: t.count + 1 });
    true
}

proof fn lemma_used_slots_prefix(chunk: Seq<SMEvent>, k: int)
    requires
        0 <= k <= chunk.len(),
        forall|i: int| 0 <= i < k ==> (#[trigger] chunk[i]).start != 0,
        k == chunk.len() || chunk[k].start == 0,
    ensures
        used_slots(chunk) == chunk.take(k),
    decreases k,
{
    if k == 0 {
        assert(used_slots(chunk) =~= chunk.take(0));
    } else {
        let rest = chunk.drop_first();
        assert forall|i: int| 0 <= i < k - 1 implies (#[trigger] rest[i]).start != 0 by {
            assert(rest[i] == chunk[i + 1]);
        }
        lemma_used_slots_prefix(rest, k - 1);
        assert(chunk.take(k) =~= seq![chunk[0]] + rest.take(k - 1));
    }
}

/// Count the events of one recording.
#[verifier::rlimit(50)]
fn count_recording(
    tallies: &mut Vec<Tally>,
    events: &Vec<SMEvent>,
    slots: usize,
    done: Ghost<Seq<SMEvent>>,
) -> (ok: bool)
    requires
        slots > 0,
        tallied(old(tallies)@, done@),
    ensures
        final(tallies)@.len() == old(tallies)@.len(),
        ok ==> tallied(final(tallies)@, done@ + recorded(events@, slots as nat)),
        !ok ==> overflows(
            old(tallies)@.len() as int,
            done@ + recorded(events@, slots as nat),
        ),
{
    let ghost all = recorded(events@, slots as nat);
    let ghost codes = tallies@.len() as int;
    let mut start: usize = 0;
    let ghost mut so_far = done@;
    proof {
        assert(events@.skip(0) =~= events@);
        assert(so_far + recorded(events@.skip(0), slots as nat) =~= done@ + all);
    }
    while start < events.len()
        invariant
            slots > 0,
            codes == tallies@.len(),
            codes == old(tallies)@.len(),
            all == recorded(events@, slots as nat),
            start <= events@.len(),
            tallied(tallies@, so_far),
            so_far + recorded(events@.skip(start as int), slots as nat) == done@ + all,
        decreases events@.len() - start,
    {
        let end: usize = if events.len() - start <= slots {
            events.len()
        } else {
            start + slots
        };
        let ghost rest = events@.skip(start as int);
        let ghost chunk = events@.subrange(start as int, end as int);
        let ghost base = so_far;
        proof {
            if events@.len() - start <= slots {
                assert(chunk =~= rest);
            } else {
                assert(chunk =~= rest.take(slots as int));
                assert(rest.skip(slots as int) =~= events@.skip(end as int));
            }
            assert(chunk.take(0) =~= Seq::empty());
            assert(so_far =~= base + chunk.take(0));
        }
        let mut i: usize = start;
        while i < end && events[i].start != 0
            invariant
                start <= i <= end <= events@.len(),
                codes == tallies@.len(),
                codes == old(tallies)@.len(),
                all == recorded(events@, slots as nat),
                chunk == events@.subrange(start as int, end as int),
                tallied(tallies@, so_far),
                so_far == base + chunk.take(i - start),
                forall|k: int| 0 <= k < i - start ==> (#[trigger] chunk[k]).start != 0,
                base + recorded(rest, slots as nat) == done@ + all,
                recorded(rest, slots as nat) == used_slots(chunk) + recorded(
                    events@.skip(end as int),
                    slots as nat,
                ) || recorded(rest, slots as nat) == used_slots(chunk),
            decreases end - i,
        {
            let e = events[i];
            assert(chunk[i - start] == e);
            if !count_event(tallies, e, Ghost(so_far)) {
                proof {
                    let now = so_far.push(e);
                    lemma_count_prefix(chunk, i - start + 1);
                    let used = used_slots(chunk);
                    assert(now =~= base + used.take(i - start + 1)) by {
                        assert(chunk.take(i - start + 1) =~= chunk.take(i - start).push(e));
                    }
                    let tail = used.skip(i - start + 1) + if recorded(rest, slots as nat)
                        == used_slots(chunk) {
                        Seq::empty()
                    } else {
                        recorded(events@.skip(end as int), slots as nat)
                    };
                    assert(done@ + all =~= now + tail) by {
                        assert(used =~= used.take(i - start + 1) + used.skip(i - start + 1));
                    }
                    lemma_overflow_grows(codes, now, tail);
                }
                return false;
            }
            proof {
                so_far = so_far.push(e);
                assert(chunk.take(i - start + 1) =~= chunk.take(i - start).push(e));
                assert(so_far =~= base + chunk.take(i + 1 - start));
            }
            i = i + 1;
        }
        proof {
            if i < end {
                assert(chunk[i - start] == events@[i as int]);
            }
            lemma_used_slots_prefix(chunk, i - start);
            if events@.len() - start <= slots {
                assert(chunk =~= rest);
                assert(events@.skip(end as int) =~= Seq::empty());
                assert(so_far + recorded(events@.skip(end as int), slots as nat) =~= done@ + all);
            } else {
                assert(chunk =~= rest.take(slots as int));
                assert(rest.skip(slots as int) =~= events@.skip(end as int));
                assert(so_far + recorded(events@.skip(end as int), slots as nat) =~= done@ + all);
            }
        }
        start = end;
    }
    proof {
        assert(events@.skip(start as int) =~= Seq::empty());
        assert(so_far =~= done@ + all);
    }
    true
}

/// The slots before one that is used are all used.
proof fn lemma_count_prefix(chunk: Seq<SMEvent>, k: int)
    requires
        0 <= k <= chunk.len(),
        forall|i: int| 0 <= i < k ==> (#[trigger] chunk[i]).start != 0,
    ensures
        used_slots(chunk).len() >= k,
        used_slots(chunk).take(k) == chunk.take(k),
    decreases k,
{
    if k > 0 {
        let rest = chunk.drop_first();
        assert forall|i: int| 0 <= i < k - 1 implies (#[trigger] rest[i]).start != 0 by {
            assert(rest[i] == chunk[i + 1]);
        }
        lemma_count_prefix(rest, k - 1);
        let used = used_slots(chunk);
        assert(used =~= seq![chunk[0]] + used_slots(rest));
        assert forall|i: int| 0 <= i < k implies used[i] == chunk[i] by {
            if i > 0 {
                assert(used[i] == used_slots(rest)[i - 1]);
                assert(used_slots(rest).take(k - 1)[i - 1] == rest.take(k - 1)[i - 1]);
            }
        }
        assert(used.take(k) =~= chunk.take(k));
    } else {
        assert(used_slots(chunk).take(0) =~= chunk.take(0));
    }
}

proof fn lemma_total_cost_grows(ops: Seq<BlockOpCost>, more: Seq<BlockOpCost>, name: Seq<char>, part: int)
    ensures
        0 <= total_cost(ops, name, part).0 <= total_cost(ops + more, name, part).0,
        0 <= total_cost(ops, name, part).1 <= total_cost(ops + more, name, part).1,
        0 <= total_cost(ops, name, part).2 <= total_cost(ops + more, name, part).2,
    decreases ops.len() + more.len(),
{
    if more.len() == 0 {
        assert(ops + more =~= ops);
        if ops.len() > 0 {
            lemma_total_cost_grows(ops.drop_last(), Seq::empty(), name, part);
        }
    } else {
        lemma_total_cost_grows(ops, more.drop_last(), name, part);
        assert((ops + more).drop_last() =~= ops + more.drop_last());
    }
}

fn cost_of(op: &BlockOpCost, part: usize) -> (r: (usize, usize, usize))
    ensures
        part_cost(*op, part as int) == (r.0 as int, r.1 as int, r.2 as int),
{
    if part == 0 {
        (op.main.bytes_loaded, op.main.bytes_stored, op.main.flops)
    } else if part == 1 {
        (op.prologue_a.bytes_loaded, 0, op.prologue_a.flops)
    } else if part == 2 {
        (op.prologue_b.bytes_loaded, 0, op.prologue_b.flops)
    } else {
        (op.prologue_c.bytes_loaded, 0, op.prologue_c.flops)
    }
}

/// The cost of a part over all operations of a name, if it fits.
fn sum_cost(ops: &Vec<BlockOpCost>, name: &String, part: usize) -> (r: Option<(usize, usize, usize)>)
    ensures
        r is Some <==> total_cost(ops@, name@, part as int).0 <= usize::MAX && total_cost(
            ops@,
            name@,
            part as int,
        ).1 <= usize::MAX && total_cost(ops@, name@, part as int).2 <= usize::MAX,
        r matches Some(t) ==> total_cost(ops@, name@, part as int) == (
            t.0 as int,
            t.1 as int,
            t.2 as int,
        ),
{
    let ghost p = part as int;
    let mut sum: (usize, usize, usize) = (0, 0, 0);
    let mut i: usize = 0;
    assert(ops@.take(0) =~= Seq::empty());
    while i < ops.len()
        invariant
            p == part as int,
            i <= ops@.len(),
            total_cost(ops@.take(i as int), name@, p) == (
                sum.0 as int,
                sum.1 as int,
                sum.2 as int,
            ),
        decreases ops@.len() - i,
    {
        proof {
            let t = ops@.take(i + 1);
            assert(t.drop_last() =~= ops@.take(i as int));
            assert(t.last() == ops@[i as int]);
            lemma_total_cost_grows(t, ops@.skip(i + 1), name@, p);
            assert(t + ops@.skip(i + 1) =~= ops@);
        }
        if same_text(ops[i].name.as_str(), name.as_str()) {
            let (a, b, c) = cost_of(&ops[i], part);
            match (sum.0.checked_add(a), sum.1.checked_add(b), sum.2.checked_add(c)) {
                (Some(x), Some(y), Some(z)) => {
                    sum = (x, y, z);
                },
                (_, _, _) => {
                    return None;
                },
            }
        }
        i = i + 1;
    }
    assert(ops@.take(ops@.len() as int) =~= ops@);
    Some(sum)
}

fn with_suffix(name: &String, part: usize) -> (r: String)
    ensures
        r@ == name@ + part_suffix(part as int),
{
    let mut r = name.clone();
    if part == 1 {
        r.append(" (prologue A)");
    } else if part == 2 {
        r.append(" (prologue B)");
    } else if part > 2 {
        r.append(" (prologue C)");
    } else {
        assert(r@ =~= name@ + part_suffix(0));
    }
    r
}

/// The line of a code, if its numbers fit.
fn stat_line(
    ops: &Vec<BlockOpCost>,
    names: &Vec<String>,
    code: usize,
    tally: Tally,
    events: Ghost<Seq<SMEvent>>,
) -> (r: Option<BlockOpStats>)
    requires
        names@.len() > 0,
        code < 4 * names@.len() + 2,
        tally.time_ns == time_of(events@, code as int),
        tally.count == count_of(events@, code as int),
    ensures
        r is Some <==> line_fits(line_of(ops@, texts(names@), events@, code as int)),
        r matches Some(l) ==> l@ == line_of(ops@, texts(names@), events@, code as int),
{
    let n: usize = names.len();
    if code < 2 {
        let name = if code == 0 {
            "Issue".to_owned()
        } else {
            "Wait".to_owned()
        };
        return Some(
            BlockOpStats {
                name,
                time_ns: tally.time_ns,
                bytes_loaded: 0,
                bytes_stored: 0,
                flops: 0,
                count: tally.count,
            },
        );
    }
    let (i, part): (usize, usize) = if code - 2 < n {
        (code - 2, 0)
    } else {
        ((code - 2 - n) / 3, (code - 2 - n) % 3 + 1)
    };
    proof {
        assert(i == code_op(n as int, code as int) && part == code_part(n as int, code as int));
        assert(i < n);
        assert(texts(names@)[i as int] == names@[i as int]@);
    }
    match sum_cost(ops, &names[i], part) {
        Some((l, s, f)) => Some(
            BlockOpStats {
                name: with_suffix(&names[i], part),
                time_ns: tally.time_ns,
                bytes_loaded: l,
                bytes_stored: s,
                flops: f,
                count: tally.count,
            },
        ),
        None => None,
    }
}

/// The lines as values.
pub open spec fn stat_views(v: Seq<BlockOpStats>) -> Seq<StatLine> {
    v.map_values(|s: BlockOpStats| s@)
}

/// Everything that the statistics report fits into machine numbers.
pub open spec fn stats_fit(
    ops: Seq<BlockOpCost>,
    names: Seq<Seq<char>>,
    events: Seq<SMEvent>,
) -> bool {
    names.len() == 0 || {
        &&& 4 * names.len() + 2 <= usize::MAX
        &&& !overflows(4 * (names.len() as int) + 2, events)
        &&& forall|i: int|
            0 <= i < 4 * names.len() + 2 && time_of(
                events,
                #[trigger] line_codes(names.len() as int)[i],
            ) > 0 ==> line_fits(line_of(ops, names, events, line_codes(names.len() as int)[i]))
    }
}

/// Two alphabetical lists of the same names are the same.
proof fn lemma_alphabetical_same(s: Seq<Seq<char>>, t: Seq<Seq<char>>)
    requires
        alphabetical(s),
        alphabetical(t),
        forall|n: Seq<char>| #[trigger] s.contains(n) <==> t.contains(n),
    ensures
        s == t,
    decreases s.len(),
{
    if s.len() == 0 {
        if t.len() > 0 {
            assert(t.contains(t[0]));
            assert(s.contains(t[0]));
        }
        assert(s =~= t);
    } else if t.len() == 0 {
        assert(s.contains(s[0]));
        assert(t.contains(s[0]));
    } else {
        let (ls, lt) = (s.len() - 1, t.len() - 1);
        let (a, b) = (s[ls], t[lt]);
        assert(s.contains(a) && t.contains(b));
        assert(t.contains(a) && s.contains(b));
        let i = choose|i: int| 0 <= i < t.len() && t[i] == a;
        let j = choose|j: int| 0 <= j < s.len() && s[j] == b;
        if i < lt && j < ls {
            assert(name_less(t[i], t[lt]));
            assert(name_less(s[j], s[ls]));
            crate::names::lemma_name_transitive(a, b, a);
            crate::names::lemma_name_irreflexive(a);
        }
        assert(a == b);
        let (f, g) = (s.drop_last(), t.drop_last());
        crate::names::lemma_name_irreflexive(a);
        assert forall|n: Seq<char>| #[trigger] f.contains(n) <==> g.contains(n) by {
            if f.contains(n) {
                let k = choose|k: int| 0 <= k < f.len() && f[k] == n;
                assert(s[k] == n);
                assert(name_less(s[k], s[ls]));
                assert(s.contains(n));
                let l = choose|l: int| 0 <= l < t.len() && t[l] == n;
                assert(g[l] == n);
            }
            if g.contains(n) {
                let k = choose|k: int| 0 <= k < g.len() && g[k] == n;
                assert(t[k] == n);
                assert(name_less(t[k], t[lt]));
                assert(t.contains(n));
                assert(s.contains(n));
                let l = choose|l: int| 0 <= l < s.len() && s[l] == n;
                assert(f[l] == n);
            }
        }
        lemma_alphabetical_same(f, g);
        assert(s =~= f.push(a));
        assert(t =~= g.push(b));
    }
}

/// The statistics of block operations. `slots` is how many events a processor can
/// record. `None` where a sum does not fit.
#[verifier::rlimit(50)]
pub fn compute_block_op_stats(
    ops: &Vec<BlockOpCost>,
    timings: &Vec<Vec<SMEvent>>,
    slots: usize,
) -> (r: Option<Vec<BlockOpStats>>)
    requires
        slots > 0,
    ensures
        exists|names: Seq<Seq<char>>| #[trigger] kinds_of(ops@, names),
        forall|names: Seq<Seq<char>>| #[trigger]
            kinds_of(ops@, names) ==> (r is Some <==> stats_fit(
                ops@,
                names,
                all_recorded(timings@, slots as nat),
            )) && (r matches Some(v) ==> stat_views(v@) == stats_of(
                ops@,
                names,
                all_recorded(timings@, slots as nat),
            )),
{
    let names = op_names(ops);
    let ghost kinds = texts(names@);
    let ghost events = all_recorded(timings@, slots as nat);
    proof {
        assert(kinds_of(ops@, kinds));
        assert forall|other: Seq<Seq<char>>| #[trigger] kinds_of(ops@, other) implies other == kinds by {
            assert forall|n: Seq<char>| #[trigger] other.contains(n) <==> kinds.contains(n) by {
            }
            lemma_alphabetical_same(other, kinds);
        }
    }
    let n: usize = names.len();
    if n == 0 {
        let none: Vec<BlockOpStats> = Vec::new();
        assert(stat_views(none@) =~= stats_of(ops@, kinds, events));
        return Some(none);
    }
    if n > (usize::MAX - 2) / 4 {
        assert(4 * n + 2 > usize::MAX);
        return None;
    }
    let codes: usize = 4 * n + 2;
    let mut tallies: Vec<Tally> = Vec::new();
    let mut c: usize = 0;
    while c < codes
        invariant
            c <= codes,
            tallies@.len() == c,
            forall|k: int| 0 <= k < c ==> (#[trigger] tallies@[k]).time_ns == 0 && tallies@[k].count == 0,
        decreases codes - c,
    {
        tallies.push(Tally { time_ns: 0, count: 0 });
        c = c + 1;
    }
    let mut i: usize = 0;
    assert(timings@.take(0) =~= Seq::empty());
    assert(tallied(tallies@, all_recorded(timings@.take(0), slots as nat)));
    while i < timings.len()
        invariant
            slots > 0,
            n > 0,
            n == names@.len(),
            kinds == texts(names@),
            codes == 4 * n + 2,
            kinds_of(ops@, kinds),
            forall|other: Seq<Seq<char>>| #[trigger] kinds_of(ops@, other) ==> other == kinds,
            events == all_recorded(timings@, slots as nat),
            i <= timings@.len(),
            tallies@.len() == codes,
            tallied(tallies@, all_recorded(timings@.take(i as int), slots as nat)),
        decreases timings@.len() - i,
    {
        let ghost done = all_recorded(timings@.take(i as int), slots as nat);
        let ghost next = all_recorded(timings@.take(i + 1), slots as nat);
        proof {
            let t = timings@.take(i + 1);
            assert(t.drop_last() =~= timings@.take(i as int));
            assert(next == done + recorded(timings@[i as int]@, slots as nat));
        }
        if !count_recording(&mut tallies, &timings[i], slots, Ghost(done)) {
            proof {
                let rest = lemma_all_recorded_split(timings@, i + 1, slots as nat);
                lemma_overflow_grows(codes as int, next, rest);
            }
            return None;
        }
        i = i + 1;
    }
    assert(timings@.take(timings@.len() as int) =~= timings@);
    proof {
        assert(!overflows(codes as int, events)) by {
            if overflows(codes as int, events) {
                let c = choose|c: int|
                    0 <= c < codes && (#[trigger] time_of(events, c) > u64::MAX || count_of(
                        events,
                        c,
                    ) > usize::MAX);
                assert(tallies@[c].time_ns == time_of(events, c));
            }
        }
    }
    let mut out: Vec<BlockOpStats> = Vec::new();
    let mut k: usize = 0;
    assert(stat_views(out@) =~= lines_upto(ops@, kinds, events, 0));
    while k < codes
        invariant
            n > 0,
            n == names@.len(),
            kinds == texts(names@),
            codes == 4 * n + 2,
            kinds_of(ops@, kinds),
            forall|other: Seq<Seq<char>>| #[trigger] kinds_of(ops@, other) ==> other == kinds,
            events == all_recorded(timings@, slots as nat),
            !overflows(codes as int, events),
            tallies@.len() == codes,
            tallied(tallies@, events),
            k <= codes,
            stat_views(out@) == lines_upto(ops@, kinds, events, k as int),
            forall|i: int|
                0 <= i < k && time_of(events, #[trigger] line_codes(n as int)[i]) > 0 ==> line_fits(
                    line_of(ops@, kinds, events, line_codes(n as int)[i]),
                ),
        decreases codes - k,
    {
        let code: usize = if k < 4 * n {
            k + 2
        } else {
            k - 4 * n
        };
        assert(line_codes(n as int)[k as int] == code);
        let tally = tallies[code];
        assert(tallies@[code as int].time_ns == time_of(events, code as int));
        if tally.time_ns > 0 {
            match stat_line(ops, &names, code, tally, Ghost(events)) {
                Some(line) => {
                    let ghost out0 = out@;
                    out.push(line);
                    assert(stat_views(out@) =~= stat_views(out0).push(line@));
                },
                None => {
                    return None;
                },
            }
        }
        k = k + 1;
    }
    Some(out)
}

/// The events of some recordings, and those of the rest.
proof fn lemma_all_recorded_split(timings: Seq<Vec<SMEvent>>, k: int, slots: nat) -> (rest: Seq<SMEvent>)
    requires
        0 <= k <= timings.len(),
    ensures
        all_recorded(timings, slots) == all_recorded(timings.take(k), slots) + rest,
    decreases timings.len(),
{
    if k == timings.len() {
        assert(timings.take(k) =~= timings);
        assert(all_recorded(timings, slots) =~= all_recorded(timings, slots) + Seq::<SMEvent>::empty());
        Seq::empty()
    } else {
        let front = timings.drop_last();
        let r = lemma_all_recorded_split(front, k, slots);
        assert(front.take(k) =~= timings.take(k));
        let rest = r + recorded(timings.last()@, slots);
        assert(all_recorded(timings, slots) =~= all_recorded(timings.take(k), slots) + rest);
        rest
    }
}

/// Times and counts add up over events, and each event counts for its own code alone: with
/// the time from its start to its stop, or none where it was not closed.
pub proof fn law_times_add_up(a: Seq<SMEvent>, b: Seq<SMEvent>, e: SMEvent, code: int)
    ensures
        time_of(a + b, code) == time_of(a, code) + time_of(b, code),
        count_of(a + b, code) == count_of(a, code) + count_of(b, code),
        e.event == code ==> count_of(seq![e], code) == 1,
        e.event != code ==> count_of(seq![e], code) == 0 && time_of(seq![e], code) == 0,
        e.event == code && e.stop != 0 && e.stop >= e.start ==> time_of(seq![e], code) == e.stop
            - e.start,
        e.stop == 0 || e.stop < e.start ==> time_of(seq![e], code) == 0,
    decreases b.len(),
{
    let one = seq![e];
    assert(one.drop_last() =~= Seq::<SMEvent>::empty());
    assert(one.last() == e);
    assert(time_of(one.drop_last(), code) == 0 && count_of(one.drop_last(), code) == 0);
    if b.len() == 0 {
        assert(a + b =~= a);
    } else {
        law_times_add_up(a, b.drop_last(), e, code);
        assert((a + b).drop_last() =~= a + b.drop_last());
        assert((a + b).last() == b.last());
    }
}

/// A processor's events are those before its first unused slot.
pub proof fn law_used_slots(chunk: Seq<SMEvent>)
    ensures
        used_slots(chunk).len() <= chunk.len(),
        used_slots(chunk) == chunk.take(used_slots(chunk).len() as int),
        forall|i: int| 0 <= i < used_slots(chunk).len() ==> (#[trigger] chunk[i]).start != 0,
        used_slots(chunk).len() < chunk.len() ==> chunk[used_slots(chunk).len() as int].start == 0,
    decreases chunk.len(),
{
    if chunk.len() > 0 && chunk[0].start != 0 {
        let rest = chunk.drop_first();
        law_used_slots(rest);
        let u = used_slots(chunk);
        assert(u =~= chunk.take(u.len() as int)) by {
            assert forall|i: int| 0 <= i < u.len() implies u[i] == chunk[i] by {
                if i > 0 {
                    assert(rest.take(used_slots(rest).len() as int)[i - 1] == rest[i - 1]);
                }
            }
        }
        assert forall|i: int| 0 <= i < u.len() implies (#[trigger] chunk[i]).start != 0 by {
            if i > 0 {
                assert(rest[i - 1] == chunk[i]);
            }
        }
        if u.len() < chunk.len() {
            assert(rest[used_slots(rest).len() as int] == chunk[u.len() as int]);
        }
    } else {
        assert(chunk.take(0) =~= used_slots(chunk));
    }
}

/// Each processor has slots of its own: the events of a recording are those of its first
/// processor, and then those of the others.
pub proof fn law_processors_are_read_one_by_one(first: Seq<SMEvent>, rest: Seq<SMEvent>)
    requires
        first.len() > 0,
    ensures
        recorded(first + rest, first.len()) == used_slots(first) + recorded(rest, first.len()),
{
    let all = first + rest;
    let n = first.len() as int;
    if rest.len() == 0 {
        assert(all =~= first);
        assert(recorded(rest, first.len()) =~= Seq::<SMEvent>::empty());
        assert(used_slots(first) + Seq::<SMEvent>::empty() =~= used_slots(first));
    } else {
        assert(all.take(n) =~= first);
        assert(all.skip(n) =~= rest);
    }
}

/// Every code from 2 on stands for one part of one kind of operation, and every part of every
/// kind has one code.
pub proof fn law_codes_of_parts(n: int, op: int, part: int)
    requires
        0 <= op < n,
        0 <= part <= 3,
    ensures
        ({
            let code = if part == 0 {
                2 + op
            } else {
                2 + n + 3 * op + part - 1
            };
            &&& code_op(n, code) == op
            &&& code_part(n, code) == part
            &&& 2 <= code < 4 * n + 2
        }),
{
    if part > 0 {
        let x = 3 * op + part - 1;
        vstd::arithmetic::div_mod::lemma_fundamental_div_mod_converse(x, 3, op, part - 1);
    }
}

/// Every code has one line, the operations' in the order of their codes, then issuing, then
/// waiting.
pub proof fn law_every_code_has_its_line(n: int, code: int)
    requires
        0 <= n,
        0 <= code < 4 * n + 2,
    ensures
        line_codes(n).len() == 4 * n + 2,
        code >= 2 ==> line_codes(n)[code - 2] == code,
        code < 2 ==> line_codes(n)[4 * n + code] == code,
{
}

/// Of two lists of operations the costs add up; operations of another name count for nothing;
/// and a prologue stores nothing.
pub proof fn law_costs_add_up(
    a: Seq<BlockOpCost>,
    b: Seq<BlockOpCost>,
    op: BlockOpCost,
    name: Seq<char>,
    part: int,
)
    requires
        0 <= part <= 3,
    ensures
        total_cost(a + b, name, part).0 == total_cost(a, name, part).0 + total_cost(
            b,
            name,
            part,
        ).0,
        total_cost(a + b, name, part).1 == total_cost(a, name, part).1 + total_cost(
            b,
            name,
            part,
        ).1,
        total_cost(a + b, name, part).2 == total_cost(a, name, part).2 + total_cost(
            b,
            name,
            part,
        ).2,
        op.name@ != name ==> total_cost(seq![op], name, part) == (0int, 0int, 0int),
        op.name@ == name ==> total_cost(seq![op], name, 0) == (
            op.main.bytes_loaded as int,
            op.main.bytes_stored as int,
            op.main.flops as int,
        ),
        op.name@ == name ==> total_cost(seq![op], name, 1) == (
            op.prologue_a.bytes_loaded as int,
            0int,
            op.prologue_a.flops as int,
        ),
        op.name@ == name ==> total_cost(seq![op], name, 2) == (
            op.prologue_b.bytes_loaded as int,
            0int,
            op.prologue_b.flops as int,
        ),
        op.name@ == name ==> total_cost(seq![op], name, 3) == (
            op.prologue_c.bytes_loaded as int,
            0int,
            op.prologue_c.flops as int,
        ),
    decreases b.len(),
{
    let one = seq![op];
    assert(one.drop_last() =~= Seq::<BlockOpCost>::empty());
    assert(one.last() == op);
    assert forall|q: int| #[trigger] total_cost(one.drop_last(), name, q) == (0int, 0int, 0int) by {}
    assert(total_cost(one.drop_last(), name, 0) == (0int, 0int, 0int));
    assert(total_cost(one.drop_last(), name, 1) == (0int, 0int, 0int));
    assert(total_cost(one.drop_last(), name, 2) == (0int, 0int, 0int));
    assert(total_cost(one.drop_last(), name, 3) == (0int, 0int, 0int));
    assert(total_cost(one.drop_last(), name, part) == (0int, 0int, 0int));
    if b.len() == 0 {
        assert(a + b =~= a);
    } else {
        law_costs_add_up(a, b.drop_last(), op, name, part);
        assert((a + b).drop_last() =~= a + b.drop_last());
        assert((a + b).last() == b.last());
    }
}

/// Whatever took time has its line in the statistics, with its own time and count, and what
/// took none has no line.
pub proof fn law_what_took_time_is_reported(
    ops: Seq<BlockOpCost>,
    names: Seq<Seq<char>>,
    events: Seq<SMEvent>,
    code: int,
)
    requires
        names.len() > 0,
        0 <= code < 4 * names.len() + 2,
    ensures
        time_of(events, code) > 0 ==> exists|i: int|
            0 <= i < stats_of(ops, names, events).len() && ({
                let l = #[trigger] stats_of(ops, names, events)[i];
                l.time_ns == time_of(events, code) && l.count == count_of(events, code) && l.name
                    == line_of(ops, names, events, code).name
            }),
        forall|i: int|
            0 <= i < stats_of(ops, names, events).len() ==> (#[trigger] stats_of(
                ops,
                names,
                events,
            )[i]).time_ns > 0,
        code == 0 ==> line_of(ops, names, events, code).name == "Issue"@,
        code == 1 ==> line_of(ops, names, events, code).name == "Wait"@,
        code < 2 ==> line_of(ops, names, events, code).bytes_loaded == 0 && line_of(
            ops,
            names,
            events,
            code,
        ).bytes_stored == 0 && line_of(ops, names, events, code).flops == 0,
        2 <= code < 2 + names.len() ==> line_of(ops, names, events, code).name == names[code - 2],
        forall|op: int|
            0 <= op < names.len() && code == 2 + names.len() + 3 * op ==> line_of(
                ops,
                names,
                events,
                code,
            ).name == #[trigger] names[op] + " (prologue A)"@,
        forall|op: int|
            0 <= op < names.len() && code == 2 + names.len() + 3 * op + 1 ==> line_of(
                ops,
                names,
                events,
                code,
            ).name == #[trigger] names[op] + " (prologue B)"@,
        forall|op: int|
            0 <= op < names.len() && code == 2 + names.len() + 3 * op + 2 ==> line_of(
                ops,
                names,
                events,
                code,
            ).name == #[trigger] names[op] + " (prologue C)"@,
{
    let n = names.len() as int;
    let at = if code >= 2 {
        code - 2
    } else {
        4 * n + code
    };
    law_every_code_has_its_line(n, code);
    let lines = stats_of(ops, names, events);
    if time_of(events, code) > 0 {
        lemma_lines_hold(ops, names, events, 4 * n + 2, at);
        let line = line_of(ops, names, events, code);
        let i = choose|i: int| 0 <= i < lines.len() && lines[i] == line;
        assert(stats_of(ops, names, events)[i] == line);
    }
    lemma_lines_took_time(ops, names, events, 4 * n + 2);
    if 2 <= code < 2 + n {
        law_codes_of_parts(n, code - 2, 0);
        assert(names[code - 2] + Seq::<char>::empty() =~= names[code - 2]);
    }
    assert forall|op: int| 0 <= op < n && code == 2 + n + 3 * op implies line_of(
        ops,
        names,
        events,
        code,
    ).name == #[trigger] names[op] + " (prologue A)"@ by {
        law_codes_of_parts(n, op, 1);
    }
    assert forall|op: int| 0 <= op < n && code == 2 + n + 3 * op + 1 implies line_of(
        ops,
        names,
        events,
        code,
    ).name == #[trigger] names[op] + " (prologue B)"@ by {
        law_codes_of_parts(n, op, 2);
    }
    assert forall|op: int| 0 <= op < n && code == 2 + n + 3 * op + 2 implies line_of(
        ops,
        names,
        events,
        code,
    ).name == #[trigger] names[op] + " (prologue C)"@ by {
        law_codes_of_parts(n, op, 3);
    }
}

proof fn lemma_lines_hold(
    ops: Seq<BlockOpCost>,
    names: Seq<Seq<char>>,
    events: Seq<SMEvent>,
    k: int,
    at: int,
)
    requires
        0 <= at < k <= 4 * names.len() + 2,
        time_of(events, line_codes(names.len() as int)[at]) > 0,
    ensures
        lines_upto(ops, names, events, k).contains(
            line_of(ops, names, events, line_codes(names.len() as int)[at]),
        ),
    decreases k,
{
    let line = line_of(ops, names, events, line_codes(names.len() as int)[at]);
    let before = lines_upto(ops, names, events, k - 1);
    let all = lines_upto(ops, names, events, k);
    if at == k - 1 {
        assert(all[before.len() as int] == line);
    } else {
        lemma_lines_hold(ops, names, events, k - 1, at);
        let i = choose|i: int| 0 <= i < before.len() && before[i] == line;
        assert(all[i] == line);
    }
}

proof fn lemma_lines_took_time(
    ops: Seq<BlockOpCost>,
    names: Seq<Seq<char>>,
    events: Seq<SMEvent>,
    k: int,
)
    requires
        0 <= k <= 4 * names.len() + 2,
    ensures
        forall|i: int|
            0 <= i < lines_upto(ops, names, events, k).len() ==> (#[trigger] lines_upto(
                ops,
                names,
                events,
                k,
            )[i]).time_ns > 0,
    decreases k,
{
    if k > 0 {
        lemma_lines_took_time(ops, names, events, k - 1);
        let before = lines_upto(ops, names, events, k - 1);
        let all = lines_upto(ops, names, events, k);
        assert forall|i: int| 0 <= i < all.len() implies (#[trigger] all[i]).time_ns > 0 by {
            if i < before.len() {
                assert(all[i] == before[i]);
            }
        }
    }
}

/// The line of an operation has what its main parts load, store and compute, and the line of a
/// prologue what that prologue does, for the operation's own name.
pub proof fn law_line_has_its_cost(
    ops: Seq<BlockOpCost>,
    names: Seq<Seq<char>>,
    events: Seq<SMEvent>,
    op: int,
    part: int,
)
    requires
        0 <= op < names.len(),
        1 <= part <= 3,
    ensures
        ({
            let main = line_of(ops, names, events, 2 + op);
            let prologue = line_of(ops, names, events, 2 + names.len() + 3 * op + part - 1);
            &&& (main.bytes_loaded, main.bytes_stored, main.flops) == total_cost(ops, names[op], 0)
            &&& (prologue.bytes_loaded, prologue.bytes_stored, prologue.flops) == total_cost(
                ops,
                names[op],
                part,
            )
            &&& main.time_ns == time_of(events, 2 + op)
            &&& prologue.time_ns == time_of(events, 2 + names.len() + 3 * op + part - 1)
            &&& main.count == count_of(events, 2 + op)
            &&& prologue.count == count_of(events, 2 + names.len() + 3 * op + part - 1)
        }),
{
    law_codes_of_parts(names.len() as int, op, 0);
    law_codes_of_parts(names.len() as int, op, part);
}

/// What several executions recorded is what each recorded, one after the other.
pub proof fn law_executions_are_read_one_by_one(
    a: Seq<Vec<SMEvent>>,
    b: Seq<Vec<SMEvent>>,
    v: Vec<SMEvent>,
    slots: nat,
)
    ensures
        all_recorded(a + b, slots) == all_recorded(a, slots) + all_recorded(b, slots),
        all_recorded(seq![v], slots) == recorded(v@, slots),
    decreases b.len(),
{
    let one = seq![v];
    assert(one.drop_last() =~= Seq::<Vec<SMEvent>>::empty() && one.last() == v);
    assert(all_recorded(one.drop_last(), slots) =~= Seq::<SMEvent>::empty());
    assert(all_recorded(one, slots) =~= recorded(v@, slots));
    if b.len() == 0 {
        assert(a + b =~= a);
        assert(all_recorded(a, slots) + all_recorded(b, slots) =~= all_recorded(a, slots));
    } else {
        law_executions_are_read_one_by_one(a, b.drop_last(), v, slots);
        assert((a + b).drop_last() =~= a + b.drop_last());
        assert((a + b).last() == b.last());
        assert(all_recorded(a + b, slots) =~= all_recorded(a, slots) + all_recorded(b, slots));
    }
}

} // verus!
