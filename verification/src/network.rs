use vstd::prelude::*;

use pathfinding::directed::edmonds_karp::DenseCapacity;
use pathfinding::directed::edmonds_karp::EdmondsKarp;

verus! {

// The maximum-flow capability the engine relies on is pathfinding's
// Edmonds-Karp implementation over a dense capacity matrix. The structure
// stores, for every ordered pair of nodes, a flow value and a residual
// capacity; the total capacity of an edge is their sum. The functions below
// are the only doors the verified code has into that structure.

#[verifier::external_type_specification]
#[verifier::external_body]
#[verifier::reject_recursive_types(C)]
pub struct ExDenseCapacity<C>(DenseCapacity<C>);

/// Total capacity (flow plus residual) that the network currently assigns to
/// each ordered pair of nodes.
pub uninterp spec fn caps_of(nw: DenseCapacity<i32>) -> Map<(int, int), int>;

/// Flow that the network currently routes along each ordered pair of nodes.
pub uninterp spec fn flows_of(nw: DenseCapacity<i32>) -> Map<(int, int), int>;

/// Number of nodes of the network.
pub uninterp spec fn num_nodes_of(nw: DenseCapacity<i32>) -> int;

/// The source node the network routes flow from.
pub uninterp spec fn source_of(nw: DenseCapacity<i32>) -> int;

/// The sink node the network routes flow to.
pub uninterp spec fn sink_of(nw: DenseCapacity<i32>) -> int;

/// Whether the structure's internal flow bookkeeping is consistent: the
/// routed flow is a valid flow within the capacities, residuals complement
/// flows, and the stored total equals the routed amount. Every network
/// built by this module has it, and every operation of this module keeps
/// it.
pub uninterp spec fn flow_consistent(nw: DenseCapacity<i32>) -> bool;

/// The maximum-flow value that a capacity assignment over `n` nodes admits
/// from `source` to `sink`: the total that augmenting any consistent state
/// with these capacities arrives at.
pub uninterp spec fn max_flow_value(
    caps: Map<(int, int), int>,
    source: int,
    sink: int,
    n: int,
) -> int;

/// Positive capacity runs only from a lower-numbered node to a
/// higher-numbered one. Such a capacity graph is acyclic, so every valid
/// flow within it is acyclic too, and cancelling flow always finds a
/// positive-flow path back to the source; a cyclic capacity graph could
/// strand a flow cycle that capacity reductions can no longer cancel.
pub open spec fn caps_ascending(caps: Map<(int, int), int>, n: int) -> bool {
    forall|i: int, j: int| 0 <= i < n && 0 <= j < n && j <= i ==> #[trigger] caps[(i, j)] <= 0
}

/// Sum of the positive capacities leaving `source` toward the nodes below
/// `n`: a cut no flow out of `source` can exceed.
pub open spec fn source_out_cap(caps: Map<(int, int), int>, source: int, n: int) -> int
    decreases n,
{
    if n <= 0 {
        0
    } else {
        source_out_cap(caps, source, n - 1) + if caps[(source, n - 1)] > 0 {
            caps[(source, n - 1)]
        } else {
            0
        }
    }
}

/// Relies on DenseCapacity::from_vec: builds a network over `n` nodes whose
/// edge capacities are read row by row from the `n * n` entries of `caps`,
/// with no flow routed yet.
#[verifier::external_body]
pub(crate) fn network_from_vec(n: usize, source: usize, sink: usize, caps: Vec<i32>) -> (r:
    DenseCapacity<i32>)
    requires
        caps@.len() == n * n,
        source < n,
        sink < n,
    ensures
        num_nodes_of(r) == n as int,
        source_of(r) == source as int,
        sink_of(r) == sink as int,
        flow_consistent(r),
        forall|i: int, j: int|
            0 <= i < n && 0 <= j < n ==> #[trigger] caps_of(r)[(i, j)] == caps@[i * n + j] as int,
        forall|i: int, j: int|
            0 <= i < n && 0 <= j < n ==> #[trigger] flows_of(r)[(i, j)] == 0,
{
    DenseCapacity::from_vec(source, sink, caps)
}

/// Relies on DenseCapacity::flow: reads the flow stored for the pair
/// `(from, to)`.
#[verifier::external_body]
pub(crate) fn edge_flow(nw: &DenseCapacity<i32>, from: usize, to: usize) -> (r: i32)
    requires
        from < num_nodes_of(*nw),
        to < num_nodes_of(*nw),
    ensures
        r as int == flows_of(*nw)[(from as int, to as int)],
{
    nw.flow(from, to)
}

/// Relies on DenseCapacity::residual_capacity: reads the unused capacity
/// stored for the pair `(from, to)`, which is the pair's total capacity
/// minus its flow.
#[verifier::external_body]
pub(crate) fn edge_residual(nw: &DenseCapacity<i32>, from: usize, to: usize) -> (r: i32)
    requires
        from < num_nodes_of(*nw),
        to < num_nodes_of(*nw),
    ensures
        r as int == caps_of(*nw)[(from as int, to as int)] - flows_of(*nw)[(from as int,
            to as int)],
{
    nw.residual_capacity(from, to)
}

/// Relies on EdmondsKarp::set_capacity: replaces the total capacity of the
/// pair `(from, to)` and touches no other pair's total capacity, even when
/// it has to cancel flow that the lowered capacity no longer admits (the
/// cancellation changes flows and residuals of a pair by equal and
/// opposite amounts, keeping their sum). Nodes, source and sink are left
/// alone, and the bookkeeping stays consistent. Panic-freedom of the
/// cancellation needs more than consistency: the flow to be cancelled must
/// decompose into paths from the source, which holds because ascending
/// capacities keep every valid flow acyclic; hence the two preconditions.
#[verifier::external_body]
pub(crate) fn set_edge_capacity(nw: &mut DenseCapacity<i32>, from: usize, to: usize, cap: i32)
    requires
        from < to < num_nodes_of(*old(nw)),
        cap >= 0,
        flow_consistent(*old(nw)),
        caps_ascending(caps_of(*old(nw)), num_nodes_of(*old(nw))),
    ensures
        num_nodes_of(*final(nw)) == num_nodes_of(*old(nw)),
        source_of(*final(nw)) == source_of(*old(nw)),
        sink_of(*final(nw)) == sink_of(*old(nw)),
        flow_consistent(*final(nw)),
        caps_of(*final(nw)) == caps_of(*old(nw)).insert((from as int, to as int), cap as int),
{
    nw.set_capacity(from, to, cap);
}

/// Relies on EdmondsKarp::augment: extends the already routed flow to a
/// maximum flow for the current capacities and returns the total the
/// structure then reports. Augmenting moves capacity between the flow and
/// residual parts of each pair only, so every pair's total capacity is
/// left unchanged; how the flow is rerouted is not specified here. From a
/// consistent state the algorithm is deterministic and the crate's module
/// documentation promises the maximum flow, so the returned total is the
/// value that the current capacities, source and sink determine. The
/// accumulated total and the reverse residuals stay within the machine
/// word because the flow value never exceeds the source's outgoing cut and
/// ascending capacities keep reverse capacities non-positive; hence the
/// bound and ascending preconditions.
#[verifier::external_body]
pub(crate) fn augment_flow(nw: &mut DenseCapacity<i32>) -> (r: i32)
    requires
        flow_consistent(*old(nw)),
        caps_ascending(caps_of(*old(nw)), num_nodes_of(*old(nw))),
        source_out_cap(caps_of(*old(nw)), source_of(*old(nw)), num_nodes_of(*old(nw)))
            <= i32::MAX,
    ensures
        num_nodes_of(*final(nw)) == num_nodes_of(*old(nw)),
        source_of(*final(nw)) == source_of(*old(nw)),
        sink_of(*final(nw)) == sink_of(*old(nw)),
        caps_of(*final(nw)) == caps_of(*old(nw)),
        flow_consistent(*final(nw)),
        r as int == max_flow_value(
            caps_of(*old(nw)),
            source_of(*old(nw)),
            sink_of(*old(nw)),
            num_nodes_of(*old(nw)),
        ),
{
    let (_, total, _) = nw.augment();
    total
}

/// Relies on the Clone implementation that DenseCapacity derives: a
/// field-wise copy of owned matrices and plain fields, so the copy is the
/// same value and shares no state with what it was cloned from.
#[verifier::external_body]
pub(crate) fn clone_network(nw: &DenseCapacity<i32>) -> (r: DenseCapacity<i32>)
    ensures
        r == *nw,
{
    nw.clone()
}

} // verus!
