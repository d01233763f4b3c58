//! Merging of port ranges.

use vstd::prelude::*;

use crate::proto::{Port, PortInner, PortRangeProto};
use crate::ranges::{covered, in_u128, lemma_runs_of, merge_ranges, runs_of, Span};

verus! {

/// The ports from `start` to `end`, both included. A range whose start lies above its end holds
/// no port.
#[derive(Clone, Copy, Debug, PartialEq, Eq, Structural)]
pub struct PortRange {
    pub start: u16,
    pub end: u16,
}

impl PortRange {
    /// The ports from `start` to `end`.
    pub fn new(start: u16, end: u16) -> (range: Self)
        ensures
            range.start == start,
            range.end == end,
    {
        PortRange { start, end }
    }

    /// Whether a port lies in the range.
    pub open spec fn has(self, port: int) -> bool {
        self.start <= port <= self.end
    }
}

/// The ports that lie in at least one of the ranges.
pub open spec fn port_set(ranges: Seq<PortRange>) -> Set<int> {
    Set::new(|x: int| exists|i: int| 0 <= i < ranges.len() && (#[trigger] ranges[i]).has(x))
}

/// The message for a run of ports.
pub open spec fn port_message(run: Span) -> Port {
    if run.start == run.end {
        Port { port: Some(PortInner::SinglePort(run.start as u32)) }
    } else {
        Port {
            port: Some(
                PortInner::PortRange(
                    PortRangeProto { start: run.start as u32, end: run.end as u32 },
                ),
            ),
        }
    }
}

/// The messages for a set of ports: one for each maximal run, in ascending order.
pub open spec fn port_messages(ports: Set<int>) -> Seq<Port> {
    runs_of(ports).map_values(|run: Span| port_message(run))
}

/// Merges ranges of ports that overlap or follow one another, and sorts them.
pub fn merge_port_ranges(ranges: Vec<PortRange>) -> (ports: Vec<Port>)
    ensures
        ports@ == port_messages(port_set(ranges@)),
{
    let mut spans: Vec<Span> = Vec::new();
    let mut i: usize = 0;
    while i < ranges.len()
        invariant
            i <= ranges.len(),
            spans@.len() == i,
            forall|k: int|
                0 <= k < i ==> (#[trigger] spans@[k]).start == ranges@[k].start && spans@[k].end
                    == ranges@[k].end,
        decreases ranges.len() - i,
    {
        spans.push(Span { start: ranges[i].start as u128, end: ranges[i].end as u128 });
        i = i + 1;
    }
    assert(covered(spans@) =~= port_set(ranges@)) by {
        assert forall|x: int| covered(spans@).contains(x) implies port_set(ranges@).contains(x) by {
            let k = choose|k: int| 0 <= k < spans@.len() && (#[trigger] spans@[k]).has(x);
            assert(ranges@[k].has(x));
        }
        assert forall|x: int| port_set(ranges@).contains(x) implies covered(spans@).contains(x) by {
            let k = choose|k: int| 0 <= k < ranges@.len() && (#[trigger] ranges@[k]).has(x);
            assert(spans@[k].has(x));
        }
    }
    let runs: Vec<Span> = merge_ranges(&spans);
    let mut ports: Vec<Port> = Vec::new();
    let mut j: usize = 0;
    while j < runs.len()
        invariant
            j <= runs.len(),
            ports@ =~= runs@.take(j as int).map_values(|run: Span| port_message(run)),
        decreases runs.len() - j,
    {
        let run: Span = runs[j];
        let port: PortInner = if run.start == run.end {
            PortInner::SinglePort(run.start as u32)
        } else {
            PortInner::PortRange(PortRangeProto { start: run.start as u32, end: run.end as u32 })
        };
        ports.push(Port { port: Some(port) });
        j = j + 1;
    }
    assert(runs@.take(runs@.len() as int) =~= runs@);
    ports
}

/// Whether a message speaks of the port.
pub open spec fn message_has(message: Port, port: int) -> bool {
    match message.port {
        Some(PortInner::SinglePort(single)) => port == single,
        Some(PortInner::PortRange(range)) => range.start <= port <= range.end,
        None => false,
    }
}

/// Whether a port is not below the start of a range and not above its end.
pub open spec fn between_ends(range: PortRange, port: int) -> bool {
    range.start <= port && port <= range.end
}

/// Merging loses no port and adds none, and the messages stand in ascending order with at least
/// one port missing between any two of them. A message for a range speaks of two ports or more.
pub proof fn lemma_merging_keeps_ports(ranges: Seq<PortRange>)
    ensures
        ({
            let messages = port_messages(port_set(ranges));
            &&& forall|port: int| #[trigger]
                port_set(ranges).contains(port) <==> exists|i: int|
                    0 <= i < messages.len() && #[trigger] message_has(messages[i], port)
            &&& forall|i: int, port: int|
                0 <= i < ranges.len() && #[trigger] between_ends(ranges[i], port) ==> exists|k: int|
                    0 <= k < messages.len() && #[trigger] message_has(messages[k], port)
            &&& forall|k: int, port: int|
                0 <= k < messages.len() && #[trigger] message_has(messages[k], port) ==> exists|
                    i: int,
                |
                    0 <= i < ranges.len() && #[trigger] between_ends(ranges[i], port)
            &&& forall|i: int, j: int, low: int, high: int|
                0 <= i < j < messages.len() && #[trigger] message_has(messages[i], low)
                    && #[trigger] message_has(messages[j], high) ==> low + 1 < high
            &&& forall|i: int|
                0 <= i < messages.len() ==> match (#[trigger] messages[i]).port {
                    Some(PortInner::PortRange(range)) => range.start < range.end,
                    Some(PortInner::SinglePort(_)) => true,
                    None => false,
                }
        }),
{
    let set = port_set(ranges);
    let runs = runs_of(set);
    let messages = port_messages(set);
    assert(in_u128(set));
    lemma_runs_of(set);
    assert forall|i: int, port: int| 0 <= i < runs.len() implies (#[trigger] message_has(
        messages[i],
        port,
    ) <==> runs[i].has(port)) by {
        assert(runs[i].has(runs[i].start as int) && runs[i].has(runs[i].end as int));
        assert(covered(runs).contains(runs[i].start as int));
        assert(covered(runs).contains(runs[i].end as int));
        assert(set.contains(runs[i].start as int) && set.contains(runs[i].end as int));
        assert(messages[i] == port_message(runs[i]));
    }
    assert forall|i: int| 0 <= i < messages.len() implies match (#[trigger] messages[i]).port {
        Some(PortInner::PortRange(range)) => range.start < range.end,
        Some(PortInner::SinglePort(_)) => true,
        None => false,
    } by {
        assert(messages[i] == port_message(runs[i]));
        assert(runs[i].start <= runs[i].end);
        assert(runs[i].has(runs[i].end as int));
        assert(covered(runs).contains(runs[i].end as int));
        assert(set.contains(runs[i].end as int));
    }
    assert forall|port: int| #[trigger] set.contains(port) <==> exists|i: int|
        0 <= i < messages.len() && #[trigger] message_has(messages[i], port) by {
        assert(set.contains(port) <==> covered(runs).contains(port));
        if covered(runs).contains(port) {
            let i = choose|i: int| 0 <= i < runs.len() && (#[trigger] runs[i]).has(port);
            assert(message_has(messages[i], port));
        }
        if exists|i: int| 0 <= i < messages.len() && #[trigger] message_has(messages[i], port) {
            let i = choose|i: int|
                0 <= i < messages.len() && #[trigger] message_has(messages[i], port);
            assert(runs[i].has(port));
        }
    }
    assert forall|i: int, port: int|
        0 <= i < ranges.len() && #[trigger] between_ends(ranges[i], port) implies exists|k: int|
        0 <= k < messages.len() && #[trigger] message_has(messages[k], port) by {
        assert(ranges[i].has(port));
        assert(covered(runs).contains(port));
        let k = choose|k: int| 0 <= k < runs.len() && (#[trigger] runs[k]).has(port);
        assert(message_has(messages[k], port));
    }
    assert forall|k: int, port: int|
        0 <= k < messages.len() && #[trigger] message_has(messages[k], port) implies exists|i: int|
        0 <= i < ranges.len() && #[trigger] between_ends(ranges[i], port) by {
        assert(runs[k].has(port));
        assert(covered(runs).contains(port));
        assert(set.contains(port));
        let i = choose|i: int| 0 <= i < ranges.len() && (#[trigger] ranges[i]).has(port);
        assert(between_ends(ranges[i], port));
    }
}

/// The messages for ranges of ports depend on neither the order of the ranges nor on how often a
/// range is given.
pub proof fn lemma_merging_ignores_order(a: Seq<PortRange>, b: Seq<PortRange>)
    requires
        forall|range: PortRange| a.contains(range) <==> b.contains(range),
    ensures
        port_messages(port_set(a)) == port_messages(port_set(b)),
{
    assert forall|x: int| port_set(a).contains(x) <==> port_set(b).contains(x) by {
        if port_set(a).contains(x) {
            let i = choose|i: int| 0 <= i < a.len() && (#[trigger] a[i]).has(x);
            assert(a.contains(a[i]));
            assert(b[b.index_of(a[i])].has(x));
        }
        if port_set(b).contains(x) {
            let i = choose|i: int| 0 <= i < b.len() && (#[trigger] b[i]).has(x);
            assert(b.contains(b[i]));
            assert(a[a.index_of(b[i])].has(x));
        }
    }
    assert(port_set(a) =~= port_set(b));
}

} // verus!
