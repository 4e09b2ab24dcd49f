use vstd::prelude::*;

use crate::network::{edge_flow, flows_of, num_nodes_of};
use pathfinding::directed::edmonds_karp::DenseCapacity;

verus! {

/// A job to be scheduled: an identity, a release time `r` (inclusive), a
/// deadline `d` (exclusive) and a processing volume `p`, the number of
/// discrete unit-time slots the job must occupy.
#[derive(Clone, Copy, Debug)]
pub struct Job {
    pub id: usize,
    pub r: usize,
    pub d: usize,
    pub p: usize,
}

impl Job {
    /// A job is well formed when its window is non-empty and its processing
    /// volume is positive and fits inside the window.
    pub open spec fn wf(self) -> bool {
        self.r < self.d && 0 < self.p <= self.d - self.r
    }

    /// Builds a job from an explicitly supplied identifier; identifier
    /// assignment is the caller's responsibility.
    pub fn new(id: usize, r: usize, d: usize, p: usize) -> (j: Job)
        ensures
            j.id == id,
            j.r == r,
            j.d == d,
            j.p == p,
    {
        Job { id, r, d, p }
    }
}

/// The largest deadline among `jobs`, or 0 when there are none.
pub open spec fn spec_d_max(jobs: Seq<Job>) -> int
    decreases jobs.len(),
{
    if jobs.len() == 0 {
        0
    } else {
        let rest = spec_d_max(jobs.drop_last());
        if jobs.last().d > rest {
            jobs.last().d as int
        } else {
            rest
        }
    }
}

/// The total processing volume of `jobs`.
pub open spec fn spec_p_total(jobs: Seq<Job>) -> int
    decreases jobs.len(),
{
    if jobs.len() == 0 {
        0
    } else {
        spec_p_total(jobs.drop_last()) + jobs.last().p
    }
}

proof fn lemma_d_max_take_succ(jobs: Seq<Job>, i: int)
    requires
        0 <= i < jobs.len(),
    ensures
        spec_d_max(jobs.take(i + 1)) == if jobs[i].d > spec_d_max(jobs.take(i)) {
            jobs[i].d as int
        } else {
            spec_d_max(jobs.take(i))
        },
{
    assert(jobs.take(i + 1).drop_last() =~= jobs.take(i));
    assert(jobs.take(i + 1).last() == jobs[i]);
}

proof fn lemma_p_total_take_succ(jobs: Seq<Job>, i: int)
    requires
        0 <= i < jobs.len(),
    ensures
        spec_p_total(jobs.take(i + 1)) == spec_p_total(jobs.take(i)) + jobs[i].p,
{
    assert(jobs.take(i + 1).drop_last() =~= jobs.take(i));
    assert(jobs.take(i + 1).last() == jobs[i]);
}

/// Every prefix sum of processing volumes is at most the full sum.
proof fn lemma_p_total_take_le(jobs: Seq<Job>, i: int)
    requires
        0 <= i <= jobs.len(),
    ensures
        spec_p_total(jobs.take(i)) <= spec_p_total(jobs),
    decreases jobs.len(),
{
    if i == jobs.len() {
        assert(jobs.take(i) =~= jobs);
    } else {
        assert(jobs.drop_last().take(i) =~= jobs.take(i));
        lemma_p_total_take_le(jobs.drop_last(), i);
    }
}

/// The deadline of every job is at most `spec_d_max(jobs)`.
proof fn lemma_d_max_is_bound(jobs: Seq<Job>, i: int)
    requires
        0 <= i < jobs.len(),
    ensures
        jobs[i].d <= spec_d_max(jobs),
    decreases jobs.len(),
{
    if i == jobs.len() - 1 {
    } else {
        lemma_d_max_is_bound(jobs.drop_last(), i);
    }
}

/// The total processing volume is never negative.
pub proof fn lemma_p_total_nonneg(jobs: Seq<Job>)
    ensures
        spec_p_total(jobs) >= 0,
    decreases jobs.len(),
{
    if jobs.len() > 0 {
        lemma_p_total_nonneg(jobs.drop_last());
    }
}

/// Each single processing volume is at most the total.
pub proof fn lemma_p_le_p_total(jobs: Seq<Job>, i: int)
    requires
        0 <= i < jobs.len(),
    ensures
        jobs[i].p <= spec_p_total(jobs),
    decreases jobs.len(),
{
    if i == jobs.len() - 1 {
        lemma_p_total_nonneg(jobs.drop_last());
    } else {
        lemma_p_le_p_total(jobs.drop_last(), i);
    }
}

/// Removing one job removes exactly its volume from the total.
proof fn lemma_p_total_remove(jobs: Seq<Job>, j: int)
    requires
        0 <= j < jobs.len(),
    ensures
        spec_p_total(jobs) == spec_p_total(jobs.remove(j)) + jobs[j].p,
    decreases jobs.len(),
{
    if j == jobs.len() - 1 {
        assert(jobs.remove(j) =~= jobs.drop_last());
    } else {
        assert(jobs.remove(j).drop_last() =~= jobs.drop_last().remove(j));
        assert(jobs.remove(j).last() == jobs.last());
        lemma_p_total_remove(jobs.drop_last(), j);
    }
}

/// The total processing volume depends only on which jobs are present,
/// not on their order.
pub proof fn lemma_p_total_permutation(pre: Seq<Job>, post: Seq<Job>)
    requires
        post.to_multiset() == pre.to_multiset(),
    ensures
        spec_p_total(post) == spec_p_total(pre),
    decreases post.len(),
{
    broadcast use vstd::seq_lib::group_to_multiset_ensures;

    if post.len() > 0 {
        let x = post.last();
        assert(post.contains(x));
        assert(pre.to_multiset().count(x) > 0);
        assert(pre.contains(x));
        let j = choose|j: int| 0 <= j < pre.len() && pre[j] == x;
        assert(post.drop_last() =~= post.remove(post.len() - 1));
        assert(post.remove(post.len() - 1).to_multiset() =~= post.to_multiset().remove(x));
        assert(pre.remove(j).to_multiset() =~= pre.to_multiset().remove(x));
        lemma_p_total_remove(pre, j);
        lemma_p_total_permutation(pre.remove(j), post.drop_last());
    } else {
        assert(post.to_multiset().len() == post.len());
        assert(pre.to_multiset().len() == pre.len());
    }
}

/// Removing one job leaves the largest deadline to the remaining jobs and
/// the removed one.
proof fn lemma_d_max_remove(jobs: Seq<Job>, j: int)
    requires
        0 <= j < jobs.len(),
    ensures
        spec_d_max(jobs) == if jobs[j].d > spec_d_max(jobs.remove(j)) {
            jobs[j].d as int
        } else {
            spec_d_max(jobs.remove(j))
        },
    decreases jobs.len(),
{
    if j == jobs.len() - 1 {
        assert(jobs.remove(j) =~= jobs.drop_last());
    } else {
        assert(jobs.remove(j).drop_last() =~= jobs.drop_last().remove(j));
        assert(jobs.remove(j).last() == jobs.last());
        lemma_d_max_remove(jobs.drop_last(), j);
    }
}

/// The largest deadline depends only on which jobs are present, not on
/// their order.
pub proof fn lemma_d_max_permutation(pre: Seq<Job>, post: Seq<Job>)
    requires
        post.to_multiset() == pre.to_multiset(),
    ensures
        spec_d_max(post) == spec_d_max(pre),
    decreases post.len(),
{
    broadcast use vstd::seq_lib::group_to_multiset_ensures;

    if post.len() > 0 {
        let x = post.last();
        assert(post.contains(x));
        assert(pre.to_multiset().count(x) > 0);
        assert(pre.contains(x));
        let j = choose|j: int| 0 <= j < pre.len() && pre[j] == x;
        assert(post.drop_last() =~= post.remove(post.len() - 1));
        assert(post.remove(post.len() - 1).to_multiset() =~= post.to_multiset().remove(x));
        assert(pre.remove(j).to_multiset() =~= pre.to_multiset().remove(x));
        lemma_d_max_remove(pre, j);
        lemma_d_max_permutation(pre.remove(j), post.drop_last());
    } else {
        assert(post.to_multiset().len() == post.len());
        assert(pre.to_multiset().len() == pre.len());
    }
}

/// A per-job bound on the processing volume bounds the total linearly.
pub proof fn lemma_p_total_bounded(jobs: Seq<Job>, bound: int)
    requires
        bound >= 0,
        forall|i: int| 0 <= i < jobs.len() ==> (#[trigger] jobs[i]).p <= bound,
    ensures
        spec_p_total(jobs) <= jobs.len() * bound,
    decreases jobs.len(),
{
    if jobs.len() > 0 {
        lemma_p_total_bounded(jobs.drop_last(), bound);
        assert(jobs.len() * bound == (jobs.len() - 1) * bound + bound) by (nonlinear_arith);
    }
}

/// A bound on every deadline bounds the largest deadline.
pub proof fn lemma_d_max_le_bound(jobs: Seq<Job>, bound: int)
    requires
        bound >= 0,
        forall|i: int| 0 <= i < jobs.len() ==> (#[trigger] jobs[i]).d <= bound,
    ensures
        spec_d_max(jobs) <= bound,
    decreases jobs.len(),
{
    if jobs.len() > 0 {
        lemma_d_max_le_bound(jobs.drop_last(), bound);
    }
}

/// The largest deadline over `jobs`, computed by a left-to-right scan.
pub fn get_d_max(jobs: &Vec<Job>) -> (r: usize)
    ensures
        r as int == spec_d_max(jobs@),
{
    let mut d_max: usize = 0;
    let mut i: usize = 0;
    while i < jobs.len()
        invariant
            i <= jobs@.len(),
            d_max as int == spec_d_max(jobs@.take(i as int)),
        decreases jobs@.len() - i,
    {
        proof {
            lemma_d_max_take_succ(jobs@, i as int);
        }
        if jobs[i].d > d_max {
            d_max = jobs[i].d;
        }
        i += 1;
    }
    proof {
        assert(jobs@.take(jobs@.len() as int) =~= jobs@);
    }
    d_max
}

/// The sum of all jobs' processing volumes.
pub fn get_total_processing_volume(jobs: &Vec<Job>) -> (r: usize)
    requires
        spec_p_total(jobs@) <= usize::MAX,
    ensures
        r as int == spec_p_total(jobs@),
{
    let mut p_total: usize = 0;
    let mut i: usize = 0;
    while i < jobs.len()
        invariant
            i <= jobs@.len(),
            spec_p_total(jobs@) <= usize::MAX,
            p_total as int == spec_p_total(jobs@.take(i as int)),
        decreases jobs@.len() - i,
    {
        proof {
            lemma_p_total_take_succ(jobs@, i as int);
            lemma_p_total_take_le(jobs@, i as int + 1);
        }
        p_total += jobs[i].p;
        i += 1;
    }
    proof {
        assert(jobs@.take(jobs@.len() as int) =~= jobs@);
    }
    p_total
}

/// The ways a scheduling run can fail. All of them are internal-consistency
/// or not-schedulable outcomes: a well-formed, schedulable instance is
/// expected to produce none of them.
#[derive(Clone, Debug)]
pub enum SchedulingError {
    /// An algebraic identity the sweep assumes did not hold: the idle and
    /// busy budget of a slot did not sum to the processor level.
    InvariantViolation { level: usize, slot: usize, omega_cap: i32, gamma_cap: i32 },
    /// Even the minimal extension at this level and slot does not admit a
    /// saturating flow: the instance is not schedulable under the model.
    InfeasibleInstance { level: usize, slot: usize },
    /// A recomputed maximum flow exceeded the total processing volume,
    /// violating the network's structural upper bound.
    MaxFlowExceedsBound { flow: i32, bound: usize },
    /// The extracted schedule failed the per-job slot-count or window check
    /// for the job with this identifier, which got `scheduled` of its
    /// `required` units.
    ScheduleValidationFailure { job_id: usize, scheduled: usize, required: usize },
    /// The extracted schedule put more than `m` jobs into one slot.
    CapacityExceeded { slot: usize },
}

/// All data specifying a problem instance, together with the precomputed
/// time horizon `d_max` and total processing volume `p_total`. The
/// lower-bound-per-slot parameter `q` is accepted and stored but not
/// enforced by the flow network.
#[derive(Clone, Debug)]
pub struct Instance {
    pub jobs: Vec<Job>,
    pub m: usize,
    pub q: usize,
    pub d_max: usize,
    pub p_total: usize,
}

impl Instance {
    /// Well-formedness: every job is well formed, the stored horizon covers
    /// every deadline, the stored total volume is the sum of the jobs'
    /// volumes, and all derived node indices and capacities fit the machine
    /// representation used by the flow network.
    pub open spec fn wf(self) -> bool {
        &&& forall|i: int| 0 <= i < self.jobs@.len() ==> (#[trigger] self.jobs@[i]).wf()
        &&& spec_d_max(self.jobs@) <= self.d_max
        &&& self.p_total == spec_p_total(self.jobs@)
        &&& self.p_total <= i32::MAX
        &&& self.m <= i32::MAX
        &&& self.jobs@.len() + self.d_max + 3 <= i32::MAX
        &&& (self.jobs@.len() + self.d_max + 3) * (self.jobs@.len() + self.d_max + 3)
            <= usize::MAX
    }

    /// Number of nodes of the flow network for this instance: one source,
    /// one node per job, one node per time slot, one auxiliary node and one
    /// sink.
    pub open spec fn node_count(self) -> int {
        self.jobs@.len() + self.d_max + 3
    }

    /// Index of the source node.
    pub open spec fn alpha_ix(self) -> int {
        0
    }

    /// Index of the node of job `j`.
    pub open spec fn u_ix(self, j: int) -> int {
        1 + j
    }

    /// Index of the node of time slot `t`.
    pub open spec fn v_ix(self, t: int) -> int {
        1 + self.jobs@.len() + t
    }

    /// Index of the auxiliary budget node.
    pub open spec fn gamma_ix(self) -> int {
        1 + self.jobs@.len() + self.d_max
    }

    /// Index of the sink node.
    pub open spec fn omega_ix(self) -> int {
        self.gamma_ix() + 1
    }

    pub fn new(jobs: Vec<Job>, m: usize, q: usize) -> (inst: Instance)
        requires
            forall|i: int| 0 <= i < jobs@.len() ==> (#[trigger] jobs@[i]).wf(),
            spec_p_total(jobs@) <= i32::MAX,
            m <= i32::MAX,
            jobs@.len() + spec_d_max(jobs@) + 3 <= i32::MAX,
            (jobs@.len() + spec_d_max(jobs@) + 3) * (jobs@.len() + spec_d_max(jobs@) + 3)
                <= usize::MAX,
        ensures
            inst.wf(),
            inst.jobs == jobs,
            inst.m == m,
            inst.q == q,
            inst.d_max as int == spec_d_max(jobs@),
            inst.p_total as int == spec_p_total(jobs@),
    {
        proof {
            if jobs@.len() > 0 {
                lemma_d_max_is_bound(jobs@, 0);
            }
        }
        let d_max = get_d_max(&jobs);
        let p_total = get_total_processing_volume(&jobs);
        Instance { jobs, m, q, d_max, p_total }
    }

    /// The conditions under which a job list, machine count and parameter
    /// describe an instance the engine can work on: every job well formed
    /// and the derived quantities within the machine bounds.
    pub open spec fn buildable(jobs: Seq<Job>, m: usize) -> bool {
        &&& forall|i: int| 0 <= i < jobs.len() ==> (#[trigger] jobs[i]).wf()
        &&& spec_p_total(jobs) <= i32::MAX
        &&& m <= i32::MAX
        &&& jobs.len() + spec_d_max(jobs) + 3 <= i32::MAX
        &&& (jobs.len() + spec_d_max(jobs) + 3) * (jobs.len() + spec_d_max(jobs) + 3)
            <= usize::MAX
    }

    /// Builds an instance after checking the construction contract at run
    /// time, for callers such as dataset ingestion that cannot vouch for
    /// their input. `Some` exactly when the checks pass.
    pub fn try_new(jobs: Vec<Job>, m: usize, q: usize) -> (r: Option<Instance>)
        ensures
            r matches Some(inst) ==> {
                &&& inst.wf()
                &&& inst.jobs == jobs
                &&& inst.m == m
                &&& inst.q == q
                &&& inst.d_max as int == spec_d_max(jobs@)
                &&& inst.p_total as int == spec_p_total(jobs@)
            },
            r is Some <==> Self::buildable(jobs@, m),
    {
        let i32_top: usize = 2147483647;
        let mut psum: usize = 0;
        let mut i: usize = 0;
        while i < jobs.len()
            invariant
                i32_top == i32::MAX,
                i <= jobs@.len(),
                forall|k: int| 0 <= k < i ==> (#[trigger] jobs@[k]).wf(),
                psum as int == spec_p_total(jobs@.take(i as int)),
                psum <= i32_top,
            decreases jobs@.len() - i,
        {
            let job = jobs[i];
            proof {
                lemma_p_total_take_succ(jobs@, i as int);
            }
            if !(job.r < job.d && job.p >= 1 && job.p <= job.d - job.r) {
                return None;
            }
            if job.p > i32_top - psum {
                proof {
                    lemma_p_total_take_le(jobs@, i as int + 1);
                }
                return None;
            }
            psum += job.p;
            i += 1;
        }
        proof {
            assert(jobs@.take(jobs@.len() as int) =~= jobs@);
        }
        if m > i32_top {
            return None;
        }
        let d_max = get_d_max(&jobs);
        let nd: u128 = jobs.len() as u128 + d_max as u128 + 3;
        if nd > i32_top as u128 {
            return None;
        }
        proof {
            assert(nd * nd <= u128::MAX) by (nonlinear_arith)
                requires
                    0 <= nd <= 2147483647,
            ;
        }
        if nd * nd > usize::MAX as u128 {
            proof {
                assert((jobs@.len() + d_max + 3) * (jobs@.len() + d_max + 3) == nd * nd)
                    by (nonlinear_arith)
                    requires
                        nd == jobs@.len() + d_max + 3,
                ;
            }
            return None;
        }
        proof {
            assert((jobs@.len() + d_max + 3) * (jobs@.len() + d_max + 3) == nd * nd)
                by (nonlinear_arith)
                requires
                    nd == jobs@.len() + d_max + 3,
            ;
        }
        Some(Instance { jobs, m, q, d_max, p_total: psum })
    }

    /// The number of the node `u_j` of the flow network for job number `job`.
    pub fn u_node(&self, job: usize) -> (r: usize)
        requires
            job < usize::MAX,
        ensures
            r as int == self.u_ix(job as int),
    {
        1 + job
    }

    /// The number of the node `v_t` of the flow network for time slot `tslot`.
    pub fn v_node(&self, tslot: usize) -> (r: usize)
        requires
            1 + self.jobs@.len() + tslot <= usize::MAX,
        ensures
            r as int == self.v_ix(tslot as int),
    {
        1 + self.jobs.len() + tslot
    }

    /// The number of the source node of the flow network.
    pub fn alpha_node(&self) -> (r: usize)
        ensures
            r as int == self.alpha_ix(),
    {
        0
    }

    /// The number of the auxiliary node of the flow network, which accounts
    /// for the idle budget of the processors.
    pub fn gamma_node(&self) -> (r: usize)
        requires
            1 + self.jobs@.len() + self.d_max <= usize::MAX,
        ensures
            r as int == self.gamma_ix(),
    {
        1 + self.jobs.len() + self.d_max
    }

    /// The number of the sink node of the flow network.
    pub fn omega_node(&self) -> (r: usize)
        requires
            2 + self.jobs@.len() + self.d_max <= usize::MAX,
        ensures
            r as int == self.omega_ix(),
    {
        self.gamma_node() + 1
    }
}

/// How often the identifier `id` occurs in one slot.
pub open spec fn occ(slot: Seq<usize>, id: usize) -> int
    decreases slot.len(),
{
    if slot.len() == 0 {
        0
    } else {
        occ(slot.drop_last(), id) + if slot.last() == id {
            1int
        } else {
            0int
        }
    }
}

/// How often the identifier `id` occurs in the slots `0 .. t` of the
/// schedule `s`.
pub open spec fn count_upto(s: Seq<Seq<usize>>, id: usize, t: int) -> int
    decreases t,
{
    if t <= 0 {
        0
    } else {
        count_upto(s, id, t - 1) + occ(s[t - 1], id)
    }
}

/// How often the identifier `id` occurs in the whole schedule `s`.
pub open spec fn count_in(s: Seq<Seq<usize>>, id: usize) -> int {
    count_upto(s, id, s.len() as int)
}

/// A job is feasibly placed in the schedule `s` when its identifier occurs
/// exactly as often as its processing volume demands, and only in slots of
/// its window.
pub open spec fn job_scheduled_ok(s: Seq<Seq<usize>>, job: Job) -> bool {
    &&& count_in(s, job.id) == job.p
    &&& forall|t: int| 0 <= t < s.len() && occ(#[trigger] s[t], job.id) > 0 ==> job.r <= t < job.d
}

/// A schedule is valid for a job list when every job of the list is
/// feasibly placed.
pub open spec fn schedule_valid_for(s: Seq<Seq<usize>>, jobs: Seq<Job>) -> bool {
    forall|i: int| 0 <= i < jobs.len() ==> job_scheduled_ok(s, #[trigger] jobs[i])
}

/// No slot of the schedule holds more job identifiers than there are
/// machines.
pub open spec fn capacity_respected(s: Seq<Seq<usize>>, m: usize) -> bool {
    forall|t: int| 0 <= t < s.len() ==> (#[trigger] s[t]).len() <= m
}

/// The value is the identifier of one of the given jobs.
pub open spec fn is_job_id(e: usize, jobs: Seq<Job>) -> bool {
    exists|ji: int| 0 <= ji < jobs.len() && e == (#[trigger] jobs[ji]).id
}

/// Every identifier in the slot belongs to one of the given jobs.
pub open spec fn slot_holds_ids(slot: Seq<usize>, jobs: Seq<Job>) -> bool {
    forall|x: int| 0 <= x < slot.len() ==> is_job_id(#[trigger] slot[x], jobs)
}

/// Every identifier in every slot belongs to one of the given jobs: the
/// schedule mentions no foreign identifiers.
pub open spec fn slots_hold_instance_ids(s: Seq<Seq<usize>>, jobs: Seq<Job>) -> bool {
    forall|t: int| 0 <= t < s.len() ==> slot_holds_ids(#[trigger] s[t], jobs)
}

/// Total number of job identifiers placed across all slots.
pub open spec fn total_units(s: Seq<Seq<usize>>) -> int
    decreases s.len(),
{
    if s.len() == 0 {
        0
    } else {
        total_units(s.drop_last()) + s.last().len()
    }
}

/// One slot with every occurrence of `id` removed, order kept.
pub open spec fn remove_id_slot(slot: Seq<usize>, id: usize) -> Seq<usize>
    decreases slot.len(),
{
    if slot.len() == 0 {
        Seq::empty()
    } else {
        remove_id_slot(slot.drop_last(), id) + if slot.last() == id {
            Seq::<usize>::empty()
        } else {
            seq![slot.last()]
        }
    }
}

/// The whole schedule with every occurrence of `id` removed.
pub open spec fn remove_id(s: Seq<Seq<usize>>, id: usize) -> Seq<Seq<usize>> {
    s.map_values(|slot: Seq<usize>| remove_id_slot(slot, id))
}

proof fn lemma_remove_slot_len(slot: Seq<usize>, id: usize)
    ensures
        remove_id_slot(slot, id).len() == slot.len() - occ(slot, id),
    decreases slot.len(),
{
    if slot.len() > 0 {
        lemma_remove_slot_len(slot.drop_last(), id);
    }
}

proof fn lemma_remove_slot_occ(slot: Seq<usize>, id: usize, id2: usize)
    requires
        id2 != id,
    ensures
        occ(remove_id_slot(slot, id), id2) == occ(slot, id2),
    decreases slot.len(),
{
    if slot.len() > 0 {
        lemma_remove_slot_occ(slot.drop_last(), id, id2);
        let prev = remove_id_slot(slot.drop_last(), id);
        if slot.last() == id {
            assert(remove_id_slot(slot, id) =~= prev);
        } else {
            assert(remove_id_slot(slot, id) =~= prev.push(slot.last()));
            assert(prev.push(slot.last()).drop_last() =~= prev);
        }
    }
}

proof fn lemma_remove_slot_elements(slot: Seq<usize>, id: usize)
    ensures
        forall|x: int|
            0 <= x < remove_id_slot(slot, id).len() ==> (#[trigger] remove_id_slot(slot, id)[x])
                != id && slot.contains(remove_id_slot(slot, id)[x]),
    decreases slot.len(),
{
    if slot.len() > 0 {
        lemma_remove_slot_elements(slot.drop_last(), id);
        let prev = remove_id_slot(slot.drop_last(), id);
        assert forall|x: int|
            0 <= x < remove_id_slot(slot, id).len() implies (#[trigger] remove_id_slot(slot, id)[x])
            != id && slot.contains(remove_id_slot(slot, id)[x]) by {
            if x < prev.len() {
                assert(remove_id_slot(slot, id)[x] == prev[x]);
                assert(slot.drop_last().contains(prev[x]));
                let y = choose|y: int| 0 <= y < slot.drop_last().len() && slot.drop_last()[y]
                    == prev[x];
                assert(slot[y] == prev[x]);
            } else {
                assert(remove_id_slot(slot, id)[x] == slot.last());
                assert(slot[slot.len() - 1] == slot.last());
            }
        }
    }
}

/// Removing the last job's identifier from a slot leaves only the other
/// jobs' identifiers.
proof fn lemma_remove_slot_keeps_ids(slot: Seq<usize>, jobs: Seq<Job>)
    requires
        jobs.len() > 0,
        slot_holds_ids(slot, jobs),
    ensures
        slot_holds_ids(remove_id_slot(slot, jobs.last().id), jobs.drop_last()),
{
    let id = jobs.last().id;
    let out = remove_id_slot(slot, id);
    let rest = jobs.drop_last();
    lemma_remove_slot_elements(slot, id);
    assert forall|x: int| 0 <= x < out.len() implies is_job_id(#[trigger] out[x], rest) by {
        assert(out[x] != id && slot.contains(out[x]));
        let y = choose|y: int| 0 <= y < slot.len() && slot[y] == out[x];
        assert(is_job_id(slot[y], jobs));
        let ji = choose|ji: int| 0 <= ji < jobs.len() && slot[y] == (#[trigger] jobs[ji]).id;
        assert(ji < jobs.len() - 1) by {
            if ji == jobs.len() - 1 {
                assert(jobs[ji] == jobs.last());
                assert(out[x] == id);
            }
        }
        assert(rest[ji] == jobs[ji]);
        assert(0 <= ji < rest.len() && out[x] == rest[ji].id);
    }
}

proof fn lemma_count_upto_remove(s: Seq<Seq<usize>>, id: usize, id2: usize, t: int)
    requires
        id2 != id,
        0 <= t <= s.len(),
    ensures
        count_upto(remove_id(s, id), id2, t) == count_upto(s, id2, t),
    decreases t,
{
    if t > 0 {
        lemma_count_upto_remove(s, id, id2, t - 1);
        assert(remove_id(s, id)[t - 1] == remove_id_slot(s[t - 1], id));
        lemma_remove_slot_occ(s[t - 1], id, id2);
    }
}

proof fn lemma_total_units_remove(s: Seq<Seq<usize>>, id: usize, t: int)
    requires
        0 <= t <= s.len(),
    ensures
        total_units(remove_id(s, id).take(t)) == total_units(s.take(t)) - count_upto(s, id, t),
    decreases t,
{
    if t > 0 {
        lemma_total_units_remove(s, id, t - 1);
        assert(remove_id(s, id).take(t).drop_last() =~= remove_id(s, id).take(t - 1));
        assert(s.take(t).drop_last() =~= s.take(t - 1));
        assert(remove_id(s, id).take(t).last() == remove_id_slot(s[t - 1], id));
        assert(s.take(t).last() == s[t - 1]);
        lemma_remove_slot_len(s[t - 1], id);
        lemma_occ_nonneg(s[t - 1], id);
    }
}

proof fn lemma_total_units_zero(s: Seq<Seq<usize>>)
    requires
        forall|t: int| 0 <= t < s.len() ==> (#[trigger] s[t]).len() == 0,
    ensures
        total_units(s) == 0,
    decreases s.len(),
{
    if s.len() > 0 {
        lemma_total_units_zero(s.drop_last());
    }
}

/// Law: a valid schedule that mentions only the given jobs' identifiers
/// places, summed over all slots, exactly the jobs' total processing
/// volume — provided the identifiers are pairwise distinct, as an
/// instance's caller-assigned identifiers are meant to be. So a schedule
/// meeting the validity and contents conditions is never partially
/// assigned.
pub proof fn lemma_valid_schedule_places_total(s: Seq<Seq<usize>>, jobs: Seq<Job>)
    requires
        schedule_valid_for(s, jobs),
        slots_hold_instance_ids(s, jobs),
        forall|i: int, j: int|
            0 <= i < j < jobs.len() ==> (#[trigger] jobs[i]).id != (#[trigger] jobs[j]).id,
    ensures
        total_units(s) == spec_p_total(jobs),
    decreases jobs.len(),
{
    if jobs.len() == 0 {
        assert forall|t: int| 0 <= t < s.len() implies (#[trigger] s[t]).len() == 0 by {
            assert(slot_holds_ids(s[t], jobs));
            if s[t].len() > 0 {
                assert(is_job_id(s[t][0], jobs));
                let ji = choose|ji: int| 0 <= ji < jobs.len() && s[t][0] == (#[trigger] jobs[ji]).id;
                assert(false);
            }
        }
        lemma_total_units_zero(s);
    } else {
        let last = jobs.last();
        let rest = jobs.drop_last();
        let s2 = remove_id(s, last.id);
        assert(s2.len() == s.len());
        assert(jobs[jobs.len() - 1] == last);
        assert(count_in(s, last.id) == last.p);
        // the reduced schedule is valid for the remaining jobs
        assert forall|i: int| 0 <= i < rest.len() implies job_scheduled_ok(
            s2,
            #[trigger] rest[i],
        ) by {
            assert(rest[i] == jobs[i]);
            assert(job_scheduled_ok(s, jobs[i]));
            assert(jobs[i].id != last.id);
            lemma_count_upto_remove(s, last.id, jobs[i].id, s.len() as int);
            assert(count_in(s2, rest[i].id) == count_in(s, jobs[i].id));
            assert forall|t: int|
                0 <= t < s2.len() && occ(#[trigger] s2[t], rest[i].id) > 0 implies rest[i].r <= t
                < rest[i].d by {
                assert(s2[t] == remove_id_slot(s[t], last.id));
                lemma_remove_slot_occ(s[t], last.id, jobs[i].id);
                assert(occ(s[t], jobs[i].id) > 0);
            }
        }
        // the reduced schedule mentions only the remaining jobs' identifiers
        assert forall|t: int| 0 <= t < s2.len() implies slot_holds_ids(
            #[trigger] s2[t],
            rest,
        ) by {
            assert(slot_holds_ids(s[t], jobs));
            lemma_remove_slot_keeps_ids(s[t], jobs);
            assert(s2[t] == remove_id_slot(s[t], last.id));
        }
        lemma_valid_schedule_places_total(s2, rest);
        lemma_total_units_remove(s, last.id, s.len() as int);
        assert(s.take(s.len() as int) =~= s);
        assert(s2.take(s.len() as int) =~= s2);
    }
}

proof fn lemma_occ_take_succ(slot: Seq<usize>, id: usize, i: int)
    requires
        0 <= i < slot.len(),
    ensures
        occ(slot.take(i + 1), id) == occ(slot.take(i), id) + if slot[i] == id {
            1int
        } else {
            0int
        },
{
    assert(slot.take(i + 1).drop_last() =~= slot.take(i));
    assert(slot.take(i + 1).last() == slot[i]);
}

/// How often the value `v` occurs in a list of slot numbers.
pub open spec fn count_eq(s: Seq<usize>, v: usize) -> int
    decreases s.len(),
{
    if s.len() == 0 {
        0
    } else {
        count_eq(s.drop_last(), v) + if s.last() == v {
            1int
        } else {
            0int
        }
    }
}

proof fn lemma_count_eq_absent(s: Seq<usize>, v: usize)
    requires
        forall|x: int| 0 <= x < s.len() ==> (#[trigger] s[x]) != v,
    ensures
        count_eq(s, v) == 0,
    decreases s.len(),
{
    if s.len() > 0 {
        lemma_count_eq_absent(s.drop_last(), v);
    }
}

proof fn lemma_occ_nonneg(slot: Seq<usize>, id: usize)
    ensures
        occ(slot, id) >= 0,
    decreases slot.len(),
{
    if slot.len() > 0 {
        lemma_occ_nonneg(slot.drop_last(), id);
    }
}

/// A single-processor schedule: at most one job identifier per time slot.
pub struct Schedule(pub Vec<Option<usize>>);

/// A multi-processor schedule: one list of job identifiers per time slot,
/// together with the machine count it was built for.
#[derive(PartialEq, Debug)]
pub struct ParallelSchedule(Vec<Vec<usize>>, usize);

impl ParallelSchedule {
    /// The job identifiers of each time slot.
    pub closed spec fn slots(self) -> Seq<Seq<usize>> {
        self.0.deep_view()
    }

    /// The machine count the schedule was built for.
    pub closed spec fn machines(self) -> usize {
        self.1
    }

    pub fn from_vec(vec: Vec<Vec<usize>>, m: usize) -> (s: ParallelSchedule)
        ensures
            s.slots() == vec.deep_view(),
            s.machines() == m,
    {
        ParallelSchedule(vec, m)
    }

    /// The slot rows of the schedule, for rendering by a consumer.
    pub fn slot_rows(&self) -> (r: &Vec<Vec<usize>>)
        ensures
            r.deep_view() == self.slots(),
    {
        &self.0
    }

    /// The machine count the schedule was built for.
    pub fn machine_count(&self) -> (r: usize)
        ensures
            r == self.machines(),
    {
        self.1
    }

    /// The time slots (with multiplicity, in increasing order) in which the
    /// identifier of `job` occurs.
    pub fn timeslots_of(&self, job: &Job) -> (r: Vec<usize>)
        ensures
            r@.len() == count_in(self.slots(), job.id),
            forall|x: int|
                0 <= x < r@.len() ==> 0 <= #[trigger] r@[x] < self.slots().len() && occ(
                    self.slots()[r@[x] as int],
                    job.id,
                ) > 0,
            forall|t: int|
                0 <= t < self.slots().len() && occ(#[trigger] self.slots()[t], job.id) > 0
                    ==> exists|x: int| 0 <= x < r@.len() && r@[x] == t,
            forall|x: int, y: int| 0 <= x < y < r@.len() ==> #[trigger] r@[x] <= #[trigger] r@[y],
            forall|t: int|
                0 <= t < self.slots().len() ==> count_eq(r@, t as usize) == occ(
                    #[trigger] self.slots()[t],
                    job.id,
                ),
    {
        let ghost s = self.slots();
        let mut timeslots: Vec<usize> = Vec::with_capacity(job.p);
        let mut t: usize = 0;
        while t < self.0.len()
            invariant
                s == self.slots(),
                s.len() == self.0@.len(),
                t <= self.0@.len(),
                timeslots@.len() == count_upto(s, job.id, t as int),
                forall|x: int|
                    0 <= x < timeslots@.len() ==> 0 <= #[trigger] timeslots@[x] < t && occ(
                        s[timeslots@[x] as int],
                        job.id,
                    ) > 0,
                forall|t2: int|
                    0 <= t2 < t && occ(#[trigger] s[t2], job.id) > 0 ==> exists|x: int|
                        0 <= x < timeslots@.len() && timeslots@[x] == t2,
                forall|x: int, y: int|
                    0 <= x < y < timeslots@.len() ==> #[trigger] timeslots@[x]
                        <= #[trigger] timeslots@[y],
                forall|t2: int|
                    0 <= t2 < t ==> count_eq(timeslots@, t2 as usize) == occ(
                        #[trigger] s[t2],
                        job.id,
                    ),
            decreases self.0@.len() - t,
        {
            let slot = &self.0[t];
            let ghost sl = s[t as int];
            proof {
                assert(sl == slot@);
                lemma_count_eq_absent(timeslots@, t);
            }
            let mut i: usize = 0;
            while i < slot.len()
                invariant
                    s == self.slots(),
                    s.len() == self.0@.len(),
                    t < self.0@.len(),
                    sl == s[t as int],
                    sl == slot@,
                    i <= slot@.len(),
                    timeslots@.len() == count_upto(s, job.id, t as int) + occ(
                        sl.take(i as int),
                        job.id,
                    ),
                    forall|x: int|
                        0 <= x < timeslots@.len() ==> 0 <= #[trigger] timeslots@[x] <= t && occ(
                            s[timeslots@[x] as int],
                            job.id,
                        ) > 0,
                    occ(sl.take(i as int), job.id) > 0 ==> exists|x: int|
                        0 <= x < timeslots@.len() && timeslots@[x] == t,
                    forall|t2: int|
                        0 <= t2 < t && occ(#[trigger] s[t2], job.id) > 0 ==> exists|x: int|
                            0 <= x < timeslots@.len() && timeslots@[x] == t2,
                    forall|x: int, y: int|
                        0 <= x < y < timeslots@.len() ==> #[trigger] timeslots@[x]
                            <= #[trigger] timeslots@[y],
                    count_eq(timeslots@, t) == occ(sl.take(i as int), job.id),
                    forall|t2: int|
                        0 <= t2 < t ==> count_eq(timeslots@, t2 as usize) == occ(
                            #[trigger] s[t2],
                            job.id,
                        ),
                decreases slot@.len() - i,
            {
                proof {
                    lemma_occ_take_succ(sl, job.id, i as int);
                    lemma_occ_nonneg(sl.take(i as int), job.id);
                }
                if job.id == slot[i] {
                    let ghost prev = timeslots@;
                    timeslots.push(t);
                    proof {
                        assert(occ(s[t as int], job.id) > 0) by {
                            lemma_occ_take_le(sl, job.id, i as int + 1);
                            assert(sl.take(sl.len() as int) =~= sl);
                        }
                        assert(timeslots@[prev.len() as int] == t);
                        assert(timeslots@.drop_last() =~= prev);
                        assert forall|t2: int|
                            0 <= t2 < t && occ(#[trigger] s[t2], job.id) > 0 implies exists|x: int|
                            0 <= x < timeslots@.len() && timeslots@[x] == t2 by {
                            let x0 = choose|x0: int| 0 <= x0 < prev.len() && prev[x0] == t2;
                            assert(timeslots@[x0] == t2);
                        }
                    }
                }
                i += 1;
            }
            proof {
                assert(sl.take(sl.len() as int) =~= sl);
            }
            t += 1;
        }
        proof {
            assert(count_upto(s, job.id, self.0@.len() as int) == count_in(s, job.id));
        }
        timeslots
    }

    /// Checks the schedule against the instance: every job's identifier
    /// occurs exactly as often as its processing volume demands, and only
    /// in slots of its window. `Ok` exactly when the schedule is valid.
    pub fn is_valid_for(&self, instance: &Instance) -> (r: Result<(), SchedulingError>)
        ensures
            r is Ok <==> schedule_valid_for(self.slots(), instance.jobs@),
            r matches Err(e) ==> e matches SchedulingError::ScheduleValidationFailure {
                job_id,
                ..
            } && exists|i: int|
                0 <= i < instance.jobs@.len() && (#[trigger] instance.jobs@[i]).id == job_id
                    && !job_scheduled_ok(self.slots(), instance.jobs@[i]) && (forall|i2: int|
                    0 <= i2 < i ==> job_scheduled_ok(self.slots(), #[trigger] instance.jobs@[i2])),
    {
        let mut ji: usize = 0;
        while ji < instance.jobs.len()
            invariant
                forall|i: int|
                    0 <= i < ji ==> job_scheduled_ok(self.slots(), #[trigger] instance.jobs@[i]),
            decreases instance.jobs@.len() - ji,
        {
            let job = &instance.jobs[ji];
            let slots: Vec<usize> = self.timeslots_of(job);
            if slots.len() != job.p {
                proof {
                    assert(!job_scheduled_ok(self.slots(), instance.jobs@[ji as int]));
                    assert(!schedule_valid_for(self.slots(), instance.jobs@));
                }
                return Err(
                    SchedulingError::ScheduleValidationFailure {
                        job_id: job.id,
                        scheduled: slots.len(),
                        required: job.p,
                    },
                );
            }
            let mut x: usize = 0;
            while x < slots.len()
                invariant
                    0 <= ji < instance.jobs@.len(),
                    *job == instance.jobs@[ji as int],
                    x <= slots@.len(),
                    slots@.len() == count_in(self.slots(), job.id),
                    forall|i: int|
                        0 <= i < ji ==> job_scheduled_ok(
                            self.slots(),
                            #[trigger] instance.jobs@[i],
                        ),
                    forall|y: int|
                        0 <= y < slots@.len() ==> 0 <= #[trigger] slots@[y] < self.slots().len()
                            && occ(self.slots()[slots@[y] as int], job.id) > 0,
                    forall|t: int|
                        0 <= t < self.slots().len() && occ(#[trigger] self.slots()[t], job.id) > 0
                            ==> exists|y: int| 0 <= y < slots@.len() && slots@[y] == t,
                    forall|y: int| 0 <= y < x ==> job.r <= #[trigger] slots@[y] < job.d,
                decreases slots@.len() - x,
            {
                let t = slots[x];
                if t < job.r || t >= job.d {
                    proof {
                        let jv = instance.jobs@[ji as int];
                        assert(occ(self.slots()[slots@[x as int] as int], jv.id) > 0);
                        assert(!job_scheduled_ok(self.slots(), jv));
                        assert(!schedule_valid_for(self.slots(), instance.jobs@));
                    }
                    return Err(
                        SchedulingError::ScheduleValidationFailure {
                            job_id: job.id,
                            scheduled: slots.len(),
                            required: job.p,
                        },
                    );
                }
                x += 1;
            }
            proof {
                let jv = instance.jobs@[ji as int];
                assert forall|t: int|
                    0 <= t < self.slots().len() && occ(#[trigger] self.slots()[t], jv.id)
                        > 0 implies jv.r <= t < jv.d by {
                    let y = choose|y: int| 0 <= y < slots@.len() && slots@[y] == t;
                    assert(jv.r <= slots@[y] < jv.d);
                }
                assert(job_scheduled_ok(self.slots(), jv));
            }
            ji += 1;
        }
        Ok(())
    }
}

/// The job identifiers of the first `jn` jobs that the flow assignment
/// `flows` routes through time slot `t`, in job order.
pub open spec fn extract_slot_upto(
    flows: Map<(int, int), int>,
    inst: Instance,
    t: int,
    jn: int,
) -> Seq<usize>
    decreases jn,
{
    if jn <= 0 {
        Seq::empty()
    } else {
        let prev = extract_slot_upto(flows, inst, t, jn - 1);
        if flows[(inst.u_ix(jn - 1), inst.v_ix(t))] == 1 {
            prev.push(inst.jobs@[jn - 1].id)
        } else {
            prev
        }
    }
}

/// The job identifiers that the flow assignment routes through slot `t`.
pub open spec fn extract_slot(flows: Map<(int, int), int>, inst: Instance, t: int) -> Seq<usize> {
    extract_slot_upto(flows, inst, t, inst.jobs@.len() as int)
}

/// The whole schedule that the flow assignment encodes, slot by slot.
pub open spec fn extracted_schedule(flows: Map<(int, int), int>, inst: Instance) -> Seq<
    Seq<usize>,
> {
    Seq::new(inst.d_max as nat, |t: int| extract_slot(flows, inst, t))
}

/// Every identifier an extracted slot holds is the identifier of one of
/// the instance's jobs.
proof fn lemma_extract_slot_ids(flows: Map<(int, int), int>, inst: Instance, t: int, jn: int)
    requires
        0 <= jn <= inst.jobs@.len(),
    ensures
        slot_holds_ids(extract_slot_upto(flows, inst, t, jn), inst.jobs@),
    decreases jn,
{
    let cur = extract_slot_upto(flows, inst, t, jn);
    if jn > 0 {
        lemma_extract_slot_ids(flows, inst, t, jn - 1);
        let prev = extract_slot_upto(flows, inst, t, jn - 1);
        assert forall|x: int| 0 <= x < cur.len() implies is_job_id(
            #[trigger] cur[x],
            inst.jobs@,
        ) by {
            if x < prev.len() {
                assert(cur[x] == prev[x]);
                assert(is_job_id(prev[x], inst.jobs@));
            } else {
                assert(cur[x] == (#[trigger] inst.jobs@[jn - 1]).id);
            }
        }
    }
}

impl ParallelSchedule {
    /// Reads the schedule off the final flow values of the network: job `j`
    /// occupies slot `t` exactly when one unit of flow runs from the job's
    /// node to the slot's node. The result is validated before it is handed
    /// out: `Ok` exactly when the extracted schedule is valid for the
    /// instance and puts at most `m` jobs into each slot, so a caller never
    /// sees a partially assigned or silently invalid schedule.
    pub fn from_flow(nw: &DenseCapacity<i32>, instance: &Instance) -> (r: Result<
        ParallelSchedule,
        SchedulingError,
    >)
        requires
            instance.wf(),
            num_nodes_of(*nw) == instance.node_count(),
        ensures
            r matches Ok(s) ==> {
                &&& s.slots() == extracted_schedule(flows_of(*nw), *instance)
                &&& s.slots().len() == instance.d_max
                &&& s.machines() == instance.m
                &&& schedule_valid_for(s.slots(), instance.jobs@)
                &&& capacity_respected(s.slots(), instance.m)
                &&& slots_hold_instance_ids(s.slots(), instance.jobs@)
            },
            r is Err <==> !(schedule_valid_for(
                extracted_schedule(flows_of(*nw), *instance),
                instance.jobs@,
            ) && capacity_respected(extracted_schedule(flows_of(*nw), *instance), instance.m)),
            r matches Err(e) ==> (e is ScheduleValidationFailure || e is CapacityExceeded),
    {
        let ghost ex = extracted_schedule(flows_of(*nw), *instance);
        let mut rows: Vec<Vec<usize>> = Vec::new();
        let mut t: usize = 0;
        while t < instance.d_max
            invariant
                instance.wf(),
                num_nodes_of(*nw) == instance.node_count(),
                ex == extracted_schedule(flows_of(*nw), *instance),
                t <= instance.d_max,
                rows@.len() == t,
                forall|t2: int| 0 <= t2 < t ==> (#[trigger] rows@[t2])@ == ex[t2],
                forall|t2: int| 0 <= t2 < t ==> (#[trigger] rows@[t2])@.len() <= instance.m,
            decreases instance.d_max - t,
        {
            let mut slot: Vec<usize> = Vec::new();
            let mut j: usize = 0;
            while j < instance.jobs.len()
                invariant
                    instance.wf(),
                    num_nodes_of(*nw) == instance.node_count(),
                    t < instance.d_max,
                    j <= instance.jobs@.len(),
                    slot@ == extract_slot_upto(
                        flows_of(*nw),
                        *instance,
                        t as int,
                        j as int,
                    ),
                decreases instance.jobs@.len() - j,
            {
                let u_j = instance.u_node(j);
                let v_t = instance.v_node(t);
                if edge_flow(nw, u_j, v_t) == 1 {
                    slot.push(instance.jobs[j].id);
                }
                j += 1;
            }
            if slot.len() > instance.m {
                proof {
                    assert(ex[t as int] == slot@);
                    assert(!capacity_respected(ex, instance.m));
                }
                return Err(SchedulingError::CapacityExceeded { slot: t });
            }
            rows.push(slot);
            t += 1;
        }
        let schedule = ParallelSchedule(rows, instance.m);
        proof {
            assert forall|t2: int| 0 <= t2 < rows@.len() implies #[trigger] schedule.slots()[t2]
                == ex[t2] by {
                assert(rows@[t2].deep_view() =~= rows@[t2]@);
            }
            assert(schedule.slots() =~= ex);
            assert forall|t2: int| 0 <= t2 < schedule.slots().len() implies slot_holds_ids(
                #[trigger] schedule.slots()[t2],
                instance.jobs@,
            ) by {
                lemma_extract_slot_ids(
                    flows_of(*nw),
                    *instance,
                    t2,
                    instance.jobs@.len() as int,
                );
            }
        }
        match schedule.is_valid_for(instance) {
            Ok(()) => Ok(schedule),
            Err(e) => Err(e),
        }
    }
}

proof fn lemma_occ_take_le(slot: Seq<usize>, id: usize, i: int)
    requires
        0 <= i <= slot.len(),
    ensures
        occ(slot.take(i), id) <= occ(slot, id),
    decreases slot.len(),
{
    if i == slot.len() {
        assert(slot.take(i) =~= slot);
    } else {
        assert(slot.drop_last().take(i) =~= slot.take(i));
        lemma_occ_take_le(slot.drop_last(), id, i);
    }
}

} // verus!
