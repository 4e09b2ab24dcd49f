use vstd::prelude::*;

use crate::network::{
    augment_flow, caps_ascending, caps_of, clone_network, edge_flow, edge_residual,
    flow_consistent, flows_of, max_flow_value, network_from_vec, num_nodes_of, set_edge_capacity,
    sink_of, source_of, source_out_cap,
};
use crate::types::{
    capacity_respected, lemma_p_le_p_total, lemma_valid_schedule_places_total, schedule_valid_for,
    slots_hold_instance_ids, spec_p_total, total_units, Instance, ParallelSchedule,
    SchedulingError,
};
use pathfinding::directed::edmonds_karp::DenseCapacity;

verus! {

/// The capacity the freshly built network assigns to the edge from node `i`
/// to node `j`: the processing volume on source-to-job edges, one unit on a
/// job-to-slot edge inside the job's window, an idle budget of `m` from
/// each slot to the auxiliary node while no machine is committed busy yet
/// (so each slot's sink allotment starts at zero), the total processing
/// volume from the auxiliary node to the sink, and zero everywhere else.
pub open spec fn initial_cap(inst: Instance, i: int, j: int) -> int {
    let n = inst.jobs@.len() as int;
    if i == inst.alpha_ix() && 1 <= j < 1 + n {
        inst.jobs@[j - 1].p as int
    } else if 1 <= i < 1 + n && inst.v_ix(0) <= j < inst.v_ix(inst.d_max as int) {
        let job = inst.jobs@[i - 1];
        let t = j - 1 - n;
        if job.r <= t < job.d {
            1
        } else {
            0
        }
    } else if inst.v_ix(0) <= i < inst.v_ix(inst.d_max as int) && j == inst.gamma_ix() {
        inst.m as int
    } else if i == inst.gamma_ix() && j == inst.omega_ix() {
        inst.p_total as int
    } else {
        0
    }
}

/// The network the engine sweeps over always has one node per job, slot and
/// special role, routes from the source to the sink the instance fixes,
/// keeps its flow bookkeeping consistent, and every edge capacity stays a
/// non-negative machine integer.
pub open spec fn net_wf(nw: DenseCapacity<i32>, inst: Instance) -> bool {
    &&& num_nodes_of(nw) == inst.node_count()
    &&& source_of(nw) == inst.alpha_ix()
    &&& sink_of(nw) == inst.omega_ix()
    &&& flow_consistent(nw)
    &&& caps_ascending(caps_of(nw), inst.node_count())
    &&& source_out_cap(caps_of(nw), inst.alpha_ix(), inst.node_count()) == inst.p_total
    &&& forall|i: int, j: int|
        0 <= i < inst.node_count() && 0 <= j < inst.node_count() ==> 0 <= #[trigger] caps_of(
            nw,
        )[(i, j)] <= i32::MAX
}

/// Two capacity assignments that agree on every edge leaving `source`
/// have the same outgoing cut.
proof fn lemma_source_out_cap_same_row(
    c1: Map<(int, int), int>,
    c2: Map<(int, int), int>,
    source: int,
    m: int,
)
    requires
        forall|x: int| 0 <= x < m ==> #[trigger] c1[(source, x)] == c2[(source, x)],
    ensures
        source_out_cap(c1, source, m) == source_out_cap(c2, source, m),
    decreases m,
{
    if m > 0 {
        lemma_source_out_cap_same_row(c1, c2, source, m - 1);
    }
}

/// On the freshly built network, the source's outgoing cut is exactly the
/// total processing volume: the source's only positive capacities are the
/// jobs' volumes.
proof fn lemma_source_out_cap_initial(caps: Map<(int, int), int>, inst: Instance, m: int)
    requires
        0 <= m <= inst.node_count(),
        forall|j: int|
            0 <= j < inst.node_count() ==> #[trigger] caps[(0, j)] == initial_cap(inst, 0, j),
    ensures
        source_out_cap(caps, 0, m) == if m <= 1 {
            0
        } else if m <= 1 + inst.jobs@.len() {
            spec_p_total(inst.jobs@.take(m - 1))
        } else {
            spec_p_total(inst.jobs@)
        },
    decreases m,
{
    if m > 0 {
        lemma_source_out_cap_initial(caps, inst, m - 1);
        let c = caps[(0, m - 1)];
        assert(c == initial_cap(inst, 0, m - 1));
        if m == 1 {
            assert(c == 0);
        } else if m <= 1 + inst.jobs@.len() {
            assert(c == inst.jobs@[m - 2].p as int);
            assert(inst.jobs@.take(m - 1).drop_last() =~= inst.jobs@.take(m - 2));
            assert(inst.jobs@.take(m - 1).last() == inst.jobs@[m - 2]);
            if m == 2 {
                assert(spec_p_total(inst.jobs@.take(0)) == 0);
            }
        } else {
            assert(c == 0);
            if m == 2 + inst.jobs@.len() && inst.jobs@.len() > 0 {
                assert(inst.jobs@.take(m - 2) =~= inst.jobs@);
            }
            if inst.jobs@.len() == 0 {
                assert(spec_p_total(inst.jobs@) == 0);
            }
        }
    }
}

/// A capacity assignment saturates when its maximum flow routes the whole
/// processing volume of the instance from the source to the sink.
pub open spec fn saturates(caps: Map<(int, int), int>, inst: Instance) -> bool {
    max_flow_value(caps, inst.alpha_ix(), inst.omega_ix(), inst.node_count()) == inst.p_total
}

/// Converts a list `v` representing an `n` x `n` matrix, stored row by
/// row, into an actual matrix; entries past the first `n * n` are ignored.
pub fn vec_to_square_matrix<T: Copy>(v: &Vec<T>, n: usize) -> (m: Vec<Vec<T>>)
    requires
        n * n <= v@.len(),
    ensures
        m@.len() == n,
        forall|i: int| 0 <= i < n ==> (#[trigger] m@[i])@.len() == n,
        forall|i: int, j: int| 0 <= i < n && 0 <= j < n ==> m@[i]@[j] == v@[i * n + j],
{
    let mut m: Vec<Vec<T>> = Vec::new();
    let total = v.len();
    assert(n * n <= usize::MAX) by {
        assert(total == v@.len());
    }
    let mut i: usize = 0;
    while i < n
        invariant
            n * n <= v@.len(),
            n * n <= usize::MAX,
            i <= n,
            m@.len() == i,
            forall|a: int| 0 <= a < i ==> (#[trigger] m@[a])@.len() == n,
            forall|a: int, b: int| 0 <= a < i && 0 <= b < n ==> m@[a]@[b] == v@[a * n + b],
        decreases n - i,
    {
        let mut row: Vec<T> = Vec::new();
        let mut j: usize = 0;
        while j < n
            invariant
                n * n <= v@.len(),
                n * n <= usize::MAX,
                i < n,
                j <= n,
                row@.len() == j,
                forall|b: int| 0 <= b < j ==> row@[b] == v@[i * n + b],
            decreases n - j,
        {
            assert(i * n + j < n * n) by (nonlinear_arith)
                requires
                    0 <= i < n,
                    0 <= j < n,
            ;
            row.push(v[i * n + j]);
            j += 1;
        }
        m.push(row);
        i += 1;
    }
    m
}

/// The capacity the initial network assigns to the edge from node `i` to
/// node `j`, as an executable computation.
fn initial_cap_at(instance: &Instance, i: usize, j: usize) -> (c: i32)
    requires
        instance.wf(),
        i < instance.node_count(),
        j < instance.node_count(),
    ensures
        c as int == initial_cap(*instance, i as int, j as int),
{
    let n = instance.jobs.len();
    if i == 0 && 1 <= j && j < 1 + n {
        let p = instance.jobs[j - 1].p;
        proof {
            lemma_p_le_p_total(instance.jobs@, j - 1);
        }
        p as i32
    } else if 1 <= i && i < 1 + n && 1 + n <= j && j < 1 + n + instance.d_max {
        let job_r = instance.jobs[i - 1].r;
        let job_d = instance.jobs[i - 1].d;
        let t = j - 1 - n;
        if job_r <= t && t < job_d {
            1
        } else {
            0
        }
    } else if 1 + n <= i && i < 1 + n + instance.d_max && j == 1 + n + instance.d_max {
        instance.m as i32
    } else if i == 1 + n + instance.d_max && j == 2 + n + instance.d_max {
        instance.p_total as i32
    } else {
        0
    }
}

/// Builds the maximum-flow network corresponding to the problem instance,
/// with no flow routed yet, together with its capacity matrix.
fn create_graph(instance: &Instance) -> (r: (DenseCapacity<i32>, Vec<Vec<i32>>))
    requires
        instance.wf(),
    ensures
        net_wf(r.0, *instance),
        forall|i: int, j: int|
            0 <= i < instance.node_count() && 0 <= j < instance.node_count()
                ==> #[trigger] caps_of(r.0)[(i, j)] == initial_cap(*instance, i, j),
        forall|i: int, j: int|
            0 <= i < instance.node_count() && 0 <= j < instance.node_count()
                ==> #[trigger] flows_of(r.0)[(i, j)] == 0,
        r.1@.len() == instance.node_count(),
        forall|i: int| 0 <= i < instance.node_count() ==> (#[trigger] r.1@[i])@.len()
            == instance.node_count(),
        forall|i: int, j: int|
            0 <= i < instance.node_count() && 0 <= j < instance.node_count()
                ==> #[trigger] r.1@[i]@[j] as int == initial_cap(*instance, i, j),
{
    let n_nodes = 1 + instance.jobs.len() + instance.d_max + 2;
    let mut adj: Vec<i32> = Vec::new();
    let mut i: usize = 0;
    while i < n_nodes
        invariant
            instance.wf(),
            n_nodes == instance.node_count(),
            i <= n_nodes,
            adj@.len() == i * n_nodes,
            forall|a: int, b: int|
                0 <= a < i && 0 <= b < n_nodes ==> #[trigger] adj@[a * n_nodes + b] as int
                    == initial_cap(*instance, a, b),
        decreases n_nodes - i,
    {
        let mut j: usize = 0;
        while j < n_nodes
            invariant
                instance.wf(),
                n_nodes == instance.node_count(),
                i < n_nodes,
                j <= n_nodes,
                adj@.len() == i * n_nodes + j,
                forall|a: int, b: int|
                    0 <= a < i && 0 <= b < n_nodes ==> #[trigger] adj@[a * n_nodes + b] as int
                        == initial_cap(*instance, a, b),
                forall|b: int|
                    0 <= b < j ==> #[trigger] adj@[i * n_nodes + b] as int == initial_cap(
                        *instance,
                        i as int,
                        b,
                    ),
            decreases n_nodes - j,
        {
            assert(i * n_nodes + j < n_nodes * n_nodes) by (nonlinear_arith)
                requires
                    0 <= i < n_nodes,
                    0 <= j < n_nodes,
            ;
            adj.push(initial_cap_at(instance, i, j));
            proof {
                assert forall|a: int, b: int| 0 <= a < i && 0 <= b < n_nodes implies adj@[a
                    * n_nodes + b] as int == initial_cap(*instance, a, b) by {
                    assert(a * n_nodes + b < i * n_nodes + j) by (nonlinear_arith)
                        requires
                            0 <= a < i,
                            0 <= b < n_nodes,
                            0 <= j,
                    ;
                }
            }
            j += 1;
        }
        proof {
            assert((i + 1) * n_nodes == i * n_nodes + n_nodes) by (nonlinear_arith);
        }
        i += 1;
    }
    proof {
        assert(n_nodes * n_nodes <= usize::MAX) by {
            assert(instance.wf());
        }
    }
    let alpha: usize = 0;
    let omega: usize = n_nodes - 1;
    let matrix = vec_to_square_matrix(&adj, n_nodes);
    let nw = network_from_vec(n_nodes, alpha, omega, adj);
    proof {
        assert forall|i: int, j: int|
            0 <= i < instance.node_count() && 0 <= j < instance.node_count() implies #[trigger] caps_of(
            nw,
        )[(i, j)] == initial_cap(*instance, i, j) by {
            assert(caps_of(nw)[(i, j)] == adj@[i * n_nodes + j] as int);
        }
        assert forall|j: int|
            0 <= j < instance.node_count() implies #[trigger] caps_of(nw)[(0, j)] == initial_cap(
            *instance,
            0,
            j,
        ) by {}
        lemma_source_out_cap_initial(caps_of(nw), *instance, instance.node_count());
        assert(instance.node_count() > 1 + instance.jobs@.len());
        assert(caps_ascending(caps_of(nw), instance.node_count())) by {
            assert forall|i: int, j: int|
                0 <= i < instance.node_count() && 0 <= j < instance.node_count() && j
                    <= i implies #[trigger] caps_of(nw)[(i, j)] <= 0 by {
                assert(caps_of(nw)[(i, j)] == initial_cap(*instance, i, j));
            }
        }
        assert(net_wf(nw, *instance));
    }
    (nw, matrix)
}

/// The budget identity the sweep maintains for a slot while processor
/// level `k` is being processed: either the slot's committed-busy
/// allotment toward the sink and its idle budget toward the auxiliary
/// node sum to exactly `k`, or the idle budget is exhausted and at least
/// `k` machines are already committed busy there.
pub open spec fn slot_budget_inv(
    caps: Map<(int, int), int>,
    inst: Instance,
    t: int,
    k: int,
) -> bool {
    let l = caps[(inst.v_ix(t), inst.omega_ix())];
    let g = caps[(inst.v_ix(t), inst.gamma_ix())];
    l + g == k || (g == 0 && l >= k)
}

/// The capacities after marking level `k` idle on every slot of
/// `[from, to)`: each such slot's edge to the auxiliary node is set so
/// that, with the slot's untouched sink allotment, `k - 1` units remain.
pub open spec fn idle_caps(
    caps: Map<(int, int), int>,
    inst: Instance,
    k: int,
    from: int,
    to: int,
) -> Map<(int, int), int>
    decreases to - from,
{
    if to <= from {
        caps
    } else {
        idle_caps(caps, inst, k, from, to - 1).insert(
            (inst.v_ix(to - 1), inst.gamma_ix()),
            k - 1 - caps[(inst.v_ix(to - 1), inst.omega_ix())],
        )
    }
}

/// Whether level `k` can be kept idle on all of `[from, to)`: no slot of
/// the range has `k` or more machines committed busy, and the capacities
/// after the marking still saturate.
pub open spec fn idle_extension_feasible(
    caps: Map<(int, int), int>,
    inst: Instance,
    k: int,
    from: int,
    to: int,
) -> bool {
    &&& forall|t: int|
        from <= t < to ==> caps[(#[trigger] inst.v_ix(t), inst.omega_ix())] < k
    &&& saturates(idle_caps(caps, inst, k, from, to), inst)
}

/// Tries to mark processor level `k` idle on every slot of `[from, to)`:
/// for each slot, the slot's budget toward the auxiliary node is shrunk so
/// that, together with the slot's sink allotment, exactly `k - 1` units
/// remain available. Returns `Ok(true)` when the whole range could be
/// marked and the network still supports a saturating flow, `Ok(false)`
/// exactly when the extension is infeasible: some slot already has `k` or
/// more machines committed busy, or the marked capacities no longer
/// saturate. An error reports a recomputed flow above its structural
/// bound. The per-slot budget identity is also checked defensively, but
/// the precondition proves that check can never fail. Only the
/// slot-to-auxiliary capacities of `[from, to)` are touched.
fn keepidle_from_to(
    k: usize,
    from: usize,
    to: usize,
    nw: &mut DenseCapacity<i32>,
    instance: &Instance,
) -> (r: Result<bool, SchedulingError>)
    requires
        instance.wf(),
        net_wf(*old(nw), *instance),
        1 <= k <= instance.m,
        from <= to <= instance.d_max,
        forall|t: int|
            from <= t < to ==> slot_budget_inv(caps_of(*old(nw)), *instance, t, k as int),
    ensures
        net_wf(*final(nw), *instance),
        r is Err ==> r->Err_0 is MaxFlowExceedsBound && !saturates(
            idle_caps(caps_of(*old(nw)), *instance, k as int, from as int, to as int),
            *instance,
        ),
        r matches Ok(b) ==> (b <==> idle_extension_feasible(
            caps_of(*old(nw)),
            *instance,
            k as int,
            from as int,
            to as int,
        )),
        forall|i: int, j: int|
            !(instance.v_ix(from as int) <= i < instance.v_ix(to as int) && j
                == instance.gamma_ix()) ==> #[trigger] caps_of(*final(nw))[(i, j)] == caps_of(
                *old(nw),
            )[(i, j)],
        r matches Ok(true) ==> forall|t: int|
            from <= t < to ==> {
                &&& caps_of(*old(nw))[(#[trigger] instance.v_ix(t), instance.omega_ix())] < k
                &&& caps_of(*old(nw))[(instance.v_ix(t), instance.omega_ix())] + caps_of(
                    *old(nw),
                )[(instance.v_ix(t), instance.gamma_ix())] == k
                &&& caps_of(*final(nw))[(instance.v_ix(t), instance.gamma_ix())] == k - 1
                    - caps_of(*old(nw))[(instance.v_ix(t), instance.omega_ix())]
            },
{
    let ghost caps0 = caps_of(*nw);
    let omega = instance.omega_node();
    let gamma = instance.gamma_node();
    let mut t = from;
    while t < to
        invariant
            instance.wf(),
            net_wf(*nw, *instance),
            1 <= k <= instance.m,
            from <= t <= to <= instance.d_max,
            omega as int == instance.omega_ix(),
            gamma as int == instance.gamma_ix(),
            caps0 == caps_of(*old(nw)),
            caps_of(*nw) == idle_caps(caps0, *instance, k as int, from as int, t as int),
            forall|s: int|
                from <= s < to ==> slot_budget_inv(caps0, *instance, s, k as int),
            forall|i: int, j: int|
                !(instance.v_ix(from as int) <= i < instance.v_ix(t as int) && j
                    == instance.gamma_ix()) ==> #[trigger] caps_of(*nw)[(i, j)] == caps0[(i, j)],
            forall|s: int|
                from <= s < t ==> {
                    &&& caps0[(#[trigger] instance.v_ix(s), instance.omega_ix())] < k
                    &&& caps0[(instance.v_ix(s), instance.omega_ix())] + caps0[(instance.v_ix(s),
                        instance.gamma_ix())] == k
                    &&& caps_of(*nw)[(instance.v_ix(s), instance.gamma_ix())] == k - 1 - caps0[(
                        instance.v_ix(s),
                        instance.omega_ix(),
                    )]
                },
        decreases to - t,
    {
        let v_t = instance.v_node(t);
        let l_t = capacity(nw, v_t, omega);
        if l_t >= k as i32 {
            return Ok(false);
        }
        let g_t = capacity(nw, v_t, gamma);
        proof {
            assert(slot_budget_inv(caps0, *instance, t as int, k as int));
        }
        if g_t as i64 + l_t as i64 != k as i64 {
            return Err(
                SchedulingError::InvariantViolation {
                    level: k,
                    slot: t,
                    omega_cap: l_t,
                    gamma_cap: g_t,
                },
            );
        }
        let ghost caps_before = caps_of(*nw);
        set_edge_capacity(nw, v_t, gamma, (k - 1) as i32 - l_t);
        proof {
            lemma_source_out_cap_same_row(
                caps_of(*nw),
                caps_before,
                instance.alpha_ix(),
                instance.node_count(),
            );
        }
        t += 1;
    }
    let max_flow = augment_flow(nw);
    if max_flow > instance.p_total as i32 {
        return Err(SchedulingError::MaxFlowExceedsBound { flow: max_flow, bound: instance.p_total });
    }
    Ok(max_flow == instance.p_total as i32)
}

/// Sum, over the slots of `[from, to)`, of how much the sink allotment of
/// each slot has to grow so that at least `k` machines are committed busy
/// there, read off the capacities `caps`.
pub open spec fn busy_inc(
    caps: Map<(int, int), int>,
    inst: Instance,
    k: int,
    from: int,
    to: int,
) -> int
    decreases to - from,
{
    if from >= to {
        0
    } else {
        busy_inc(caps, inst, k, from, to - 1) + {
            let l = caps[(inst.v_ix(to - 1), inst.omega_ix())];
            if l < k {
                k - l
            } else {
                0
            }
        }
    }
}

/// The capacities after forcing level `k` busy on every slot of
/// `[from, to)`, before the global pool is charged: each such slot's sink
/// allotment is raised to at least `k` and its idle budget pays for the
/// raise.
pub open spec fn busy_slot_caps(
    caps: Map<(int, int), int>,
    inst: Instance,
    k: int,
    from: int,
    to: int,
) -> Map<(int, int), int>
    decreases to - from,
{
    if to <= from {
        caps
    } else {
        let prev = busy_slot_caps(caps, inst, k, from, to - 1);
        let l = caps[(inst.v_ix(to - 1), inst.omega_ix())];
        let raised = if l < k {
            k
        } else {
            l
        };
        prev.insert((inst.v_ix(to - 1), inst.omega_ix()), raised).insert(
            (inst.v_ix(to - 1), inst.gamma_ix()),
            caps[(inst.v_ix(to - 1), inst.gamma_ix())] - (raised - l),
        )
    }
}

/// The capacities after forcing level `k` busy on `[from, to)` and
/// charging the accumulated raise to the auxiliary-to-sink pool.
pub open spec fn busy_caps(
    caps: Map<(int, int), int>,
    inst: Instance,
    k: int,
    from: int,
    to: int,
) -> Map<(int, int), int> {
    busy_slot_caps(caps, inst, k, from, to).insert(
        (inst.gamma_ix(), inst.omega_ix()),
        caps[(inst.gamma_ix(), inst.omega_ix())] - busy_inc(caps, inst, k, from, to),
    )
}

/// Whether level `k` can be forced busy on all of `[from, to)`: every
/// slot's idle budget covers its raise, the global pool covers the
/// accumulated raise, and the charged capacities still saturate.
pub open spec fn busy_extension_feasible(
    caps: Map<(int, int), int>,
    inst: Instance,
    k: int,
    from: int,
    to: int,
) -> bool {
    &&& forall|t: int|
        from <= t < to ==> caps[(#[trigger] inst.v_ix(t), inst.gamma_ix())] >= (
        if caps[(inst.v_ix(t), inst.omega_ix())] < k {
            k - caps[(inst.v_ix(t), inst.omega_ix())]
        } else {
            0
        })
    &&& caps[(inst.gamma_ix(), inst.omega_ix())] >= busy_inc(caps, inst, k, from, to)
    &&& saturates(busy_caps(caps, inst, k, from, to), inst)
}

/// Tries to force processor level `k` busy on every slot of `[from, to)`:
/// each slot's sink allotment is raised to at least `k`, the raise is paid
/// for from the slot's own idle budget, and the accumulated raise is paid
/// for once more from the global idle pool on the auxiliary-to-sink edge.
/// Returns `Ok(true)` when every budget sufficed and the network still
/// supports a saturating flow, `Ok(false)` exactly when the extension is
/// infeasible: a per-slot or global budget would go negative, or the
/// charged capacities no longer saturate. An error reports a recomputed
/// flow above its structural bound. Only the slot capacities of
/// `[from, to)` and the auxiliary-to-sink capacity are touched.
fn keepbusy_from_to(
    k: usize,
    from: usize,
    to: usize,
    nw: &mut DenseCapacity<i32>,
    instance: &Instance,
) -> (r: Result<bool, SchedulingError>)
    requires
        instance.wf(),
        net_wf(*old(nw), *instance),
        1 <= k <= instance.m,
        from <= to <= instance.d_max,
    ensures
        net_wf(*final(nw), *instance),
        r is Err ==> r->Err_0 is MaxFlowExceedsBound && !saturates(
            busy_caps(caps_of(*old(nw)), *instance, k as int, from as int, to as int),
            *instance,
        ),
        r matches Ok(b) ==> (b <==> busy_extension_feasible(
            caps_of(*old(nw)),
            *instance,
            k as int,
            from as int,
            to as int,
        )),
        forall|i: int, j: int|
            !((instance.v_ix(from as int) <= i < instance.v_ix(to as int) && (j
                == instance.gamma_ix() || j == instance.omega_ix())) || (i == instance.gamma_ix()
                && j == instance.omega_ix())) ==> #[trigger] caps_of(*final(nw))[(i, j)] == caps_of(
                *old(nw),
            )[(i, j)],
        r matches Ok(true) ==> {
            &&& forall|t: int|
                from <= t < to ==> {
                    &&& caps_of(*final(nw))[(#[trigger] instance.v_ix(t), instance.omega_ix())]
                        == if caps_of(*old(nw))[(instance.v_ix(t), instance.omega_ix())] < k {
                        k as int
                    } else {
                        caps_of(*old(nw))[(instance.v_ix(t), instance.omega_ix())]
                    }
                    &&& caps_of(*final(nw))[(instance.v_ix(t), instance.gamma_ix())] == caps_of(
                        *old(nw),
                    )[(instance.v_ix(t), instance.gamma_ix())] - (
                    if caps_of(*old(nw))[(instance.v_ix(t), instance.omega_ix())] < k {
                        k - caps_of(*old(nw))[(instance.v_ix(t), instance.omega_ix())]
                    } else {
                        0
                    })
                }
            &&& caps_of(*final(nw))[(instance.gamma_ix(), instance.omega_ix())] == caps_of(
                *old(nw),
            )[(instance.gamma_ix(), instance.omega_ix())] - busy_inc(
                caps_of(*old(nw)),
                *instance,
                k as int,
                from as int,
                to as int,
            )
        },
{
    let ghost caps0 = caps_of(*nw);
    let mut total_increase: i64 = 0;
    let omega = instance.omega_node();
    let gamma = instance.gamma_node();
    let mut t = from;
    while t < to
        invariant
            instance.wf(),
            net_wf(*nw, *instance),
            1 <= k <= instance.m,
            from <= t <= to <= instance.d_max,
            omega as int == instance.omega_ix(),
            gamma as int == instance.gamma_ix(),
            caps0 == caps_of(*old(nw)),
            caps_of(*nw) == busy_slot_caps(caps0, *instance, k as int, from as int, t as int),
            total_increase as int == busy_inc(caps0, *instance, k as int, from as int, t as int),
            0 <= total_increase as int <= (t - from) * (k as int),
            forall|i: int, j: int|
                !(instance.v_ix(from as int) <= i < instance.v_ix(t as int) && (j
                    == instance.gamma_ix() || j == instance.omega_ix()))
                    ==> #[trigger] caps_of(*nw)[(i, j)] == caps0[(i, j)],
            forall|s: int|
                from <= s < t ==> {
                    &&& caps_of(*nw)[(#[trigger] instance.v_ix(s), instance.omega_ix())] == if
                        caps0[(instance.v_ix(s), instance.omega_ix())] < k {
                        k as int
                    } else {
                        caps0[(instance.v_ix(s), instance.omega_ix())]
                    }
                    &&& caps_of(*nw)[(instance.v_ix(s), instance.gamma_ix())] == caps0[(
                        instance.v_ix(s),
                        instance.gamma_ix(),
                    )] - (if caps0[(instance.v_ix(s), instance.omega_ix())] < k {
                        k - caps0[(instance.v_ix(s), instance.omega_ix())]
                    } else {
                        0
                    })
                },
        decreases to - t,
    {
        let v_t = instance.v_node(t);
        let old_l_t = capacity(nw, v_t, omega);
        let new_l_t = if (k as i32) > old_l_t {
            k as i32
        } else {
            old_l_t
        };
        assert(new_l_t > 0);
        let increase = new_l_t - old_l_t;
        let ghost caps_before = caps_of(*nw);
        set_edge_capacity(nw, v_t, omega, new_l_t);
        proof {
            lemma_source_out_cap_same_row(
                caps_of(*nw),
                caps_before,
                instance.alpha_ix(),
                instance.node_count(),
            );
        }
        let g_t = capacity(nw, v_t, gamma);
        let new_gamma_cap = g_t - increase;
        if new_gamma_cap < 0 {
            return Ok(false);
        }
        let ghost caps_mid = caps_of(*nw);
        set_edge_capacity(nw, v_t, gamma, new_gamma_cap);
        proof {
            lemma_source_out_cap_same_row(
                caps_of(*nw),
                caps_mid,
                instance.alpha_ix(),
                instance.node_count(),
            );
            assert((t + 1 - from) * (k as int) == (t - from) * (k as int) + k) by (nonlinear_arith);
            assert((t + 1 - from) * (k as int) <= i32::MAX * i32::MAX) by (nonlinear_arith)
                requires
                    0 <= t + 1 - from <= i32::MAX,
                    0 <= k <= i32::MAX,
            ;
        }
        total_increase += increase as i64;
        t += 1;
    }
    let go = capacity(nw, gamma, omega);
    let new_cap_gamma_omega = go as i64 - total_increase;
    if new_cap_gamma_omega < 0 {
        return Ok(false);
    }
    let ghost caps_pre_pool = caps_of(*nw);
    set_edge_capacity(nw, gamma, omega, new_cap_gamma_omega as i32);
    proof {
        lemma_source_out_cap_same_row(
            caps_of(*nw),
            caps_pre_pool,
            instance.alpha_ix(),
            instance.node_count(),
        );
    }
    let max_flow = augment_flow(nw);
    if max_flow > instance.p_total as i32 {
        return Err(SchedulingError::MaxFlowExceedsBound { flow: max_flow, bound: instance.p_total });
    }
    Ok(max_flow == instance.p_total as i32)
}

/// Finds, by bisection, the largest position in `[a, b)` at which the
/// predicate answers true, assuming the predicate answers true on a prefix
/// of `[a, b)` and false from then on. That monotonicity is a documented
/// precondition of the caller and is not enforced here: the contract only
/// pins down what was observed, which for a deterministic monotone
/// predicate identifies the boundary exactly. `None` reports that the
/// predicate already answered false at the lower bound.
pub fn binary_search_maximum<F: Fn(usize) -> bool>(predicate: F, a: usize, b: usize) -> (r: Option<
    usize,
>)
    requires
        a < b,
        forall|i: usize| a <= i < b ==> call_requires(predicate, (i,)),
    ensures
        match r {
            Some(x) => {
                &&& a <= x < b
                &&& call_ensures(predicate, (x,), true)
                &&& x + 1 < b ==> call_ensures(predicate, ((x + 1) as usize,), false)
            },
            None => exists|i: usize|
                a <= i < b && (#[trigger] call_ensures(predicate, (i,), false)) && (i == a
                    || call_ensures(predicate, (i,), true)),
        },
{
    let mut lo: usize = a;
    let mut hi: usize = b;
    while hi - lo > 1
        invariant
            a <= lo < hi <= b,
            forall|i: usize| a <= i < b ==> call_requires(predicate, (i,)),
            lo == a || call_ensures(predicate, (lo,), true),
            hi == b || call_ensures(predicate, (hi,), false),
        decreases hi - lo,
    {
        let mid: usize = lo + (hi - lo) / 2;
        if predicate(mid) {
            lo = mid;
        } else {
            hi = mid;
        }
    }
    if predicate(lo) {
        Some(lo)
    } else {
        None
    }
}

/// Extends the committed network by the longest feasible keep-idle range
/// of processor level `k` starting at `from`, found by binary search over
/// probes on snapshots, and returns the slot the cursor advances to: the
/// committed extension is feasible and the one-slot-longer extension is
/// not (unless the horizon is reached). An `Err` reports that even the
/// minimal, empty extension was infeasible: the committed network itself
/// no longer saturates.
fn keepidle(k: usize, from: usize, nw: &mut DenseCapacity<i32>, instance: &Instance) -> (r: Result<
    usize,
    SchedulingError,
>)
    requires
        instance.wf(),
        net_wf(*old(nw), *instance),
        1 <= k <= instance.m,
        from < instance.d_max,
        forall|t: int|
            from <= t < instance.d_max ==> slot_budget_inv(
                caps_of(*old(nw)),
                *instance,
                t,
                k as int,
            ),
    ensures
        net_wf(*final(nw), *instance),
        r matches Err(e) ==> e == (SchedulingError::InfeasibleInstance { level: k, slot: from })
            && !idle_extension_feasible(
            caps_of(*old(nw)),
            *instance,
            k as int,
            from as int,
            from as int,
        ),
        r matches Ok(upto) ==> {
            &&& from <= upto <= instance.d_max
            &&& idle_extension_feasible(
                caps_of(*old(nw)),
                *instance,
                k as int,
                from as int,
                upto as int,
            )
            &&& upto < instance.d_max ==> !idle_extension_feasible(
                caps_of(*old(nw)),
                *instance,
                k as int,
                from as int,
                upto as int + 1,
            )
            &&& forall|i: int, j: int|
                !(instance.v_ix(from as int) <= i < instance.v_ix(upto as int) && j
                    == instance.gamma_ix()) ==> #[trigger] caps_of(*final(nw))[(i, j)] == caps_of(
                    *old(nw),
                )[(i, j)]
            &&& forall|t: int|
                from <= t < upto ==> {
                    &&& caps_of(*old(nw))[(#[trigger] instance.v_ix(t), instance.omega_ix())] < k
                    &&& caps_of(*old(nw))[(instance.v_ix(t), instance.omega_ix())] + caps_of(
                        *old(nw),
                    )[(instance.v_ix(t), instance.gamma_ix())] == k
                    &&& caps_of(*final(nw))[(instance.v_ix(t), instance.gamma_ix())] == k - 1
                        - caps_of(*old(nw))[(instance.v_ix(t), instance.omega_ix())]
                }
        },
{
    let d_max = instance.d_max;
    let nw_probe: &DenseCapacity<i32> = nw;
    let can_keepidle = |upto: usize| -> (fe: bool)
        requires
            from <= upto <= instance.d_max,
        ensures
            fe <==> idle_extension_feasible(
                caps_of(*nw_probe),
                *instance,
                k as int,
                from as int,
                upto as int,
            ),
        {
            let mut my_nw = clone_network(nw_probe);
            match keepidle_from_to(k, from, upto, &mut my_nw, instance) {
                Ok(fe) => fe,
                Err(_) => false,
            }
        };
    let search = binary_search_maximum(can_keepidle, from, d_max + 1);
    let upto = match search {
        Some(u) => u,
        None => {
            proof {
                let i = choose|i: usize|
                    from <= i < d_max + 1 && (#[trigger] call_ensures(can_keepidle, (i,), false))
                        && (i == from || call_ensures(can_keepidle, (i,), true));
                assert(i == from);
            }
            return Err(SchedulingError::InfeasibleInstance { level: k, slot: from });
        },
    };
    match keepidle_from_to(k, from, upto, nw, instance) {
        Ok(true) => Ok(upto),
        Ok(false) => Err(SchedulingError::InfeasibleInstance { level: k, slot: from }),
        Err(e) => Err(e),
    }
}

/// Extends the committed network by the longest feasible keep-busy range
/// of processor level `k` starting at `from`, found by binary search over
/// probes on snapshots, and returns the slot the cursor advances to: the
/// committed extension is feasible and the one-slot-longer extension is
/// not (unless the horizon is reached). An `Err` reports that even the
/// minimal, empty extension was infeasible: the committed network itself
/// no longer saturates.
fn keepbusy(k: usize, from: usize, nw: &mut DenseCapacity<i32>, instance: &Instance) -> (r: Result<
    usize,
    SchedulingError,
>)
    requires
        instance.wf(),
        net_wf(*old(nw), *instance),
        1 <= k <= instance.m,
        from < instance.d_max,
    ensures
        net_wf(*final(nw), *instance),
        r matches Err(e) ==> e == (SchedulingError::InfeasibleInstance { level: k, slot: from })
            && !busy_extension_feasible(
            caps_of(*old(nw)),
            *instance,
            k as int,
            from as int,
            from as int,
        ),
        r matches Ok(upto) ==> {
            &&& from <= upto <= instance.d_max
            &&& busy_extension_feasible(
                caps_of(*old(nw)),
                *instance,
                k as int,
                from as int,
                upto as int,
            )
            &&& upto < instance.d_max ==> !busy_extension_feasible(
                caps_of(*old(nw)),
                *instance,
                k as int,
                from as int,
                upto as int + 1,
            )
            &&& forall|i: int, j: int|
                !((instance.v_ix(from as int) <= i < instance.v_ix(upto as int) && (j
                    == instance.gamma_ix() || j == instance.omega_ix())) || (i
                    == instance.gamma_ix() && j == instance.omega_ix()))
                    ==> #[trigger] caps_of(*final(nw))[(i, j)] == caps_of(*old(nw))[(i, j)]
            &&& forall|t: int|
                from <= t < upto ==> {
                    &&& caps_of(*final(nw))[(#[trigger] instance.v_ix(t), instance.omega_ix())]
                        == if caps_of(*old(nw))[(instance.v_ix(t), instance.omega_ix())] < k {
                        k as int
                    } else {
                        caps_of(*old(nw))[(instance.v_ix(t), instance.omega_ix())]
                    }
                    &&& caps_of(*final(nw))[(instance.v_ix(t), instance.gamma_ix())] == caps_of(
                        *old(nw),
                    )[(instance.v_ix(t), instance.gamma_ix())] - (if caps_of(
                        *old(nw),
                    )[(instance.v_ix(t), instance.omega_ix())] < k {
                        k - caps_of(*old(nw))[(instance.v_ix(t), instance.omega_ix())]
                    } else {
                        0
                    })
                }
            &&& caps_of(*final(nw))[(instance.gamma_ix(), instance.omega_ix())] == caps_of(
                *old(nw),
            )[(instance.gamma_ix(), instance.omega_ix())] - busy_inc(
                caps_of(*old(nw)),
                *instance,
                k as int,
                from as int,
                upto as int,
            )
        },
{
    let d_max = instance.d_max;
    let nw_probe: &DenseCapacity<i32> = nw;
    let can_keepbusy = |upto: usize| -> (fe: bool)
        requires
            from <= upto <= instance.d_max,
        ensures
            fe <==> busy_extension_feasible(
                caps_of(*nw_probe),
                *instance,
                k as int,
                from as int,
                upto as int,
            ),
        {
            let mut my_nw = clone_network(nw_probe);
            match keepbusy_from_to(k, from, upto, &mut my_nw, instance) {
                Ok(fe) => fe,
                Err(_) => false,
            }
        };
    let search = binary_search_maximum(can_keepbusy, from, d_max + 1);
    let upto = match search {
        Some(u) => u,
        None => {
            proof {
                let i = choose|i: usize|
                    from <= i < d_max + 1 && (#[trigger] call_ensures(can_keepbusy, (i,), false))
                        && (i == from || call_ensures(can_keepbusy, (i,), true));
                assert(i == from);
            }
            return Err(SchedulingError::InfeasibleInstance { level: k, slot: from });
        },
    };
    match keepbusy_from_to(k, from, upto, nw, instance) {
        Ok(true) => Ok(upto),
        Ok(false) => Err(SchedulingError::InfeasibleInstance { level: k, slot: from }),
        Err(e) => Err(e),
    }
}

/// The Parallel Left-to-Right algorithm: builds the flow network of the
/// instance, then, for each processor level from `m` down to 1, sweeps the
/// time horizon left to right, alternating maximal keep-idle and keep-busy
/// extensions found by binary search, and finally reads the schedule off
/// the saturating flow and validates it. A returned schedule is always
/// valid for the instance and puts at most `m` jobs into each slot; a
/// not-schedulable instance is reported as an explicit error, never as a
/// partial schedule. The per-slot budget identity the sweep relies on is
/// proved to hold throughout, so an invariant-violation report can never
/// be the outcome.
pub fn pltr(instance: &Instance) -> (r: Result<ParallelSchedule, SchedulingError>)
    requires
        instance.wf(),
    ensures
        r matches Ok(s) ==> {
            &&& s.slots().len() == instance.d_max
            &&& s.machines() == instance.m
            &&& schedule_valid_for(s.slots(), instance.jobs@)
            &&& capacity_respected(s.slots(), instance.m)
            &&& slots_hold_instance_ids(s.slots(), instance.jobs@)
            &&& (forall|i: int, j: int|
                0 <= i < j < instance.jobs@.len() ==> (#[trigger] instance.jobs@[i]).id != (
                #[trigger] instance.jobs@[j]).id) ==> total_units(s.slots()) == instance.p_total
        },
        r matches Err(e) ==> (e is InfeasibleInstance || e is ScheduleValidationFailure
            || e is CapacityExceeded),
        r matches Err(SchedulingError::InfeasibleInstance { level, slot }) ==> 1 <= level
            <= instance.m && slot < instance.d_max,
{
    let (mut nw, _matrix) = create_graph(instance);
    proof {
        assert forall|t: int|
            0 <= t < instance.d_max implies slot_budget_inv(
            caps_of(nw),
            *instance,
            t,
            instance.m as int,
        ) by {
            assert(caps_of(nw)[(instance.v_ix(t), instance.omega_ix())] == initial_cap(
                *instance,
                instance.v_ix(t),
                instance.omega_ix(),
            ));
            assert(caps_of(nw)[(instance.v_ix(t), instance.gamma_ix())] == initial_cap(
                *instance,
                instance.v_ix(t),
                instance.gamma_ix(),
            ));
        }
    }
    let mut k: usize = instance.m;
    while k >= 1
        invariant
            instance.wf(),
            net_wf(nw, *instance),
            k <= instance.m,
            forall|t: int|
                0 <= t < instance.d_max ==> slot_budget_inv(caps_of(nw), *instance, t, k as int),
        decreases k,
    {
        let ghost km1: int = k as int - 1;
        let mut t: usize = 0;
        while t < instance.d_max
            invariant
                instance.wf(),
                net_wf(nw, *instance),
                1 <= k <= instance.m,
                t <= instance.d_max,
                km1 == k as int - 1,
                forall|s: int| 0 <= s < t ==> slot_budget_inv(caps_of(nw), *instance, s, km1),
                forall|s: int|
                    t <= s < instance.d_max ==> slot_budget_inv(caps_of(nw), *instance, s, k as int),
            decreases instance.d_max - t,
        {
            let t0 = t;
            let ghost caps_a = caps_of(nw);
            t = match keepidle(k, t, &mut nw, instance) {
                Ok(u) => u,
                Err(e) => {
                    return Err(e);
                },
            };
            proof {
                assert forall|s: int|
                    0 <= s < t implies slot_budget_inv(caps_of(nw), *instance, s, km1) by {
                    if s < t0 {
                        assert(slot_budget_inv(caps_a, *instance, s, km1));
                        assert(caps_of(nw)[(instance.v_ix(s), instance.omega_ix())] == caps_a[(
                            instance.v_ix(s),
                            instance.omega_ix(),
                        )]);
                        assert(caps_of(nw)[(instance.v_ix(s), instance.gamma_ix())] == caps_a[(
                            instance.v_ix(s),
                            instance.gamma_ix(),
                        )]);
                    } else {
                        assert(caps_a[(instance.v_ix(s), instance.omega_ix())] < k);
                        assert(caps_a[(instance.v_ix(s), instance.omega_ix())] + caps_a[(
                            instance.v_ix(s),
                            instance.gamma_ix(),
                        )] == k);
                        assert(caps_of(nw)[(instance.v_ix(s), instance.gamma_ix())] == k - 1
                            - caps_a[(instance.v_ix(s), instance.omega_ix())]);
                        assert(caps_of(nw)[(instance.v_ix(s), instance.omega_ix())] == caps_a[(
                            instance.v_ix(s),
                            instance.omega_ix(),
                        )]);
                    }
                }
                assert forall|s: int|
                    t <= s < instance.d_max implies slot_budget_inv(
                    caps_of(nw),
                    *instance,
                    s,
                    k as int,
                ) by {
                    assert(slot_budget_inv(caps_a, *instance, s, k as int));
                    assert(caps_of(nw)[(instance.v_ix(s), instance.omega_ix())] == caps_a[(
                        instance.v_ix(s),
                        instance.omega_ix(),
                    )]);
                    assert(caps_of(nw)[(instance.v_ix(s), instance.gamma_ix())] == caps_a[(
                        instance.v_ix(s),
                        instance.gamma_ix(),
                    )]);
                }
            }
            if t < instance.d_max {
                let ghost t1 = t as int;
                let ghost caps_b = caps_of(nw);
                t = match keepbusy(k, t, &mut nw, instance) {
                    Ok(u) => u,
                    Err(e) => {
                        return Err(e);
                    },
                };
                proof {
                    assert forall|s: int|
                        0 <= s < t implies slot_budget_inv(caps_of(nw), *instance, s, km1) by {
                        if s < t1 {
                            assert(slot_budget_inv(caps_b, *instance, s, km1));
                            assert(caps_of(nw)[(instance.v_ix(s), instance.omega_ix())] == caps_b[(
                                instance.v_ix(s),
                                instance.omega_ix(),
                            )]);
                            assert(caps_of(nw)[(instance.v_ix(s), instance.gamma_ix())] == caps_b[(
                                instance.v_ix(s),
                                instance.gamma_ix(),
                            )]);
                        } else {
                            assert(slot_budget_inv(caps_b, *instance, s, k as int));
                            let l0 = caps_b[(instance.v_ix(s), instance.omega_ix())];
                            let g0 = caps_b[(instance.v_ix(s), instance.gamma_ix())];
                            assert(caps_of(nw)[(instance.v_ix(s), instance.omega_ix())] == if l0
                                < k {
                                k as int
                            } else {
                                l0
                            });
                            assert(caps_of(nw)[(instance.v_ix(s), instance.gamma_ix())] == g0 - (
                            if l0 < k {
                                k - l0
                            } else {
                                0
                            }));
                            assert(g0 >= 0);
                        }
                    }
                    assert forall|s: int|
                        t <= s < instance.d_max implies slot_budget_inv(
                        caps_of(nw),
                        *instance,
                        s,
                        k as int,
                    ) by {
                        assert(slot_budget_inv(caps_b, *instance, s, k as int));
                        assert(caps_of(nw)[(instance.v_ix(s), instance.omega_ix())] == caps_b[(
                            instance.v_ix(s),
                            instance.omega_ix(),
                        )]);
                        assert(caps_of(nw)[(instance.v_ix(s), instance.gamma_ix())] == caps_b[(
                            instance.v_ix(s),
                            instance.gamma_ix(),
                        )]);
                    }
                }
            }
            if t <= t0 {
                return Err(SchedulingError::InfeasibleInstance { level: k, slot: t0 });
            }
        }
        k -= 1;
    }
    let result = ParallelSchedule::from_flow(&nw, instance);
    proof {
        if result is Ok && (forall|i: int, j: int|
            0 <= i < j < instance.jobs@.len() ==> (#[trigger] instance.jobs@[i]).id != (
            #[trigger] instance.jobs@[j]).id) {
            lemma_valid_schedule_places_total(result->Ok_0.slots(), instance.jobs@);
        }
    }
    result
}

/// The law the binary search obeys: if the probe decides the predicate `p`
/// (it answers true exactly where `p` holds), `p` holds on a prefix of
/// `[a, b)` and nowhere else in it, and an outcome satisfies the search's
/// contract, then `Some(x)` names exactly the largest position of `[a, b)`
/// satisfying `p`, and `None` is returned exactly when `p` holds nowhere in
/// `[a, b)`.
pub proof fn lemma_binary_search_maximum_exact<F: Fn(usize) -> bool>(
    predicate: F,
    p: spec_fn(int) -> bool,
    a: usize,
    b: usize,
    r: Option<usize>,
)
    requires
        a < b,
        forall|i: usize, res: bool| call_ensures(predicate, (i,), res) ==> res == p(i as int),
        forall|i: int, j: int| a <= i <= j < b && #[trigger] p(j) ==> #[trigger] p(i),
        match r {
            Some(x) => {
                &&& a <= x < b
                &&& call_ensures(predicate, (x,), true)
                &&& x + 1 < b ==> call_ensures(predicate, ((x + 1) as usize,), false)
            },
            None => exists|i: usize|
                a <= i < b && (#[trigger] call_ensures(predicate, (i,), false)) && (i == a
                    || call_ensures(predicate, (i,), true)),
        },
    ensures
        match r {
            Some(x) => p(x as int) && (forall|j: int| x < j < b ==> !(#[trigger] p(j))),
            None => forall|j: int| a <= j < b ==> !(#[trigger] p(j)),
        },
{
    match r {
        Some(x) => {
            assert(p(x as int));
            if x + 1 < b {
                assert(!p(x + 1));
                assert forall|j: int| x < j < b implies !(#[trigger] p(j)) by {
                    if p(j) {
                        assert(p(x + 1));
                    }
                }
            }
        },
        None => {
            let i = choose|i: usize|
                a <= i < b && (#[trigger] call_ensures(predicate, (i,), false)) && (i == a
                    || call_ensures(predicate, (i,), true));
            assert(!p(i as int));
            assert(i == a);
            assert forall|j: int| a <= j < b implies !(#[trigger] p(j)) by {
                if p(j) {
                    assert(p(a as int));
                }
            }
        },
    }
}

/// Total capacity currently assigned to the edge from `v1` to `v2`: its flow
/// plus its residual.
fn capacity(nw: &DenseCapacity<i32>, v1: usize, v2: usize) -> (r: i32)
    requires
        v1 < num_nodes_of(*nw),
        v2 < num_nodes_of(*nw),
        0 <= caps_of(*nw)[(v1 as int, v2 as int)] <= i32::MAX,
    ensures
        r as int == caps_of(*nw)[(v1 as int, v2 as int)],
{
    let f = edge_flow(nw, v1, v2);
    let rc = edge_residual(nw, v1, v2);
    f + rc
}

} // verus!
