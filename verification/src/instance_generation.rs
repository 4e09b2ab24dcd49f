use vstd::prelude::*;

use crate::types::{
    lemma_d_max_le_bound, lemma_p_total_bounded, spec_d_max, spec_p_total, Instance, Job,
};
use rand::RngExt;

verus! {

#[verifier::external_type_specification]
#[verifier::external_body]
pub struct ExThreadRng(rand::rngs::ThreadRng);

/// Relies on rand::rng: a handle to the thread-local random generator.
/// Nothing can be promised of it.
#[verifier::external_body]
fn fresh_rng() -> rand::rngs::ThreadRng {
    rand::rng()
}

/// Relies on RngExt::random_range over a half-open range: the draw lies in
/// `[lo, hi)`. Nothing more is promised of a random value.
#[verifier::external_body]
fn sample_range(rng: &mut rand::rngs::ThreadRng, lo: usize, hi: usize) -> (r: usize)
    requires
        lo < hi,
    ensures
        lo <= r < hi,
{
    rng.random_range(lo..hi)
}

/// The volume bound the random generator draws under: at most half the
/// window, rounded down, but always at least one unit.
pub open spec fn volume_bounded(j: Job) -> bool {
    j.p <= if (j.d - j.r) / 2 > 1 {
        (j.d - j.r) / 2
    } else {
        1
    }
}

/// The job's whole window lies inside the single stretch of width `vs`
/// that contains its release time.
pub open spec fn in_valley(j: Job, vs: int) -> bool {
    vs > 0 && j.d <= (j.r as int / vs + 1) * vs
}

/// Some job of the list carries the identifier `x`.
pub open spec fn has_id(jobs: Seq<Job>, x: int) -> bool {
    exists|i: int| 0 <= i < jobs.len() && (#[trigger] jobs[i]).id == x
}

/// Jobs are ordered by non-decreasing deadline.
pub open spec fn sorted_by_deadline(jobs: Seq<Job>) -> bool {
    forall|i: int, j: int| 0 <= i < j < jobs.len() ==> jobs[i].d <= jobs[j].d
}

/// Sorts jobs by non-decreasing deadline, keeping the relative order of
/// jobs with equal deadlines, by insertion into an initially empty list.
pub fn sort_jobs_by_deadline(jobs: Vec<Job>) -> (r: Vec<Job>)
    ensures
        r@.to_multiset() == jobs@.to_multiset(),
        r@.len() == jobs@.len(),
        sorted_by_deadline(r@),
{
    broadcast use vstd::seq_lib::group_to_multiset_ensures;

    let mut sorted: Vec<Job> = Vec::new();
    let mut i: usize = 0;
    while i < jobs.len()
        invariant
            i <= jobs@.len(),
            sorted@.len() == i,
            sorted@.to_multiset() == jobs@.take(i as int).to_multiset(),
            sorted_by_deadline(sorted@),
        decreases jobs@.len() - i,
    {
        broadcast use vstd::seq_lib::group_to_multiset_ensures;

        let job = jobs[i].clone();
        let mut pos: usize = 0;
        while pos < sorted.len() && sorted[pos].d <= job.d
            invariant
                pos <= sorted@.len(),
                forall|x: int| 0 <= x < pos ==> (#[trigger] sorted@[x]).d <= job.d,
            decreases sorted@.len() - pos,
        {
            pos += 1;
        }
        proof {
            assert(jobs@.take(i as int + 1).drop_last() =~= jobs@.take(i as int));
            assert(jobs@.take(i as int + 1) =~= jobs@.take(i as int).push(jobs@[i as int]));
            assert(job == jobs@[i as int]);
        }
        let ghost prev = sorted@;
        sorted.insert(pos, job);
        proof {
            vstd::seq_lib::to_multiset_insert(prev, pos as int, job);
            assert(sorted_by_deadline(sorted@)) by {
                assert(forall|x: int|
                    0 <= x < sorted@.len() && x != pos ==> #[trigger] sorted@[x] == if x < pos {
                        prev[x]
                    } else {
                        prev[x - 1]
                    });
                assert(pos < prev.len() ==> job.d < prev[pos as int].d);
            }
        }
        i += 1;
    }
    proof {
        assert(jobs@.take(jobs@.len() as int) =~= jobs@);
    }
    sorted
}

/// Generates `n` jobs with random windows inside `[0, upto)` whose sizes
/// average about `interval_avg`; job number `i` gets identifier `i`, and
/// every generated job is well formed.
fn generate_random_jobs(n: usize, upto: usize, interval_avg: usize) -> (jobs: Vec<Job>)
    requires
        2 * interval_avg < usize::MAX,
        upto > if 2 * interval_avg > 2 {
            2 * interval_avg
        } else {
            2
        },
    ensures
        jobs@.len() == n,
        forall|i: int|
            0 <= i < n ==> (#[trigger] jobs@[i]).wf() && jobs@[i].id == i && jobs@[i].d < upto
                && jobs@[i].p < upto && volume_bounded(jobs@[i]),
{
    let mut jobs: Vec<Job> = Vec::with_capacity(n);
    let mut rng = fresh_rng();
    let bound: usize = if 2 * interval_avg > 2 {
        2 * interval_avg
    } else {
        2
    };
    let mut i: usize = 0;
    while i < n
        invariant
            upto > bound >= 2,
            jobs@.len() == i,
            i <= n,
            forall|x: int|
                0 <= x < i ==> (#[trigger] jobs@[x]).wf() && jobs@[x].id == x && jobs@[x].d < upto
                    && jobs@[x].p < upto && volume_bounded(jobs@[x]),
        decreases n - i,
    {
        let interval_size: usize = sample_range(&mut rng, 1, bound);
        assert(upto - interval_size > 1);
        let r: usize = sample_range(&mut rng, 0, upto - interval_size);
        let d: usize = r + interval_size;
        let p_top: usize = if interval_size / 2 > 1 {
            interval_size / 2
        } else {
            1
        };
        let p: usize = sample_range(&mut rng, 1, p_top + 1);
        let job = Job { id: i, r, d, p };
        jobs.push(job);
        i += 1;
    }
    jobs
}

/// Generates an instance of `n` random jobs, sorted by deadline, for `m`
/// machines with lower-bound parameter `q`.
pub fn generate_random_instance(n: usize, upto: usize, interval_avg: usize, q: usize, m: usize)
    -> (inst: Instance)
    requires
        2 * interval_avg < usize::MAX,
        upto > if 2 * interval_avg > 2 {
            2 * interval_avg
        } else {
            2
        },
        n * upto <= i32::MAX,
        m <= i32::MAX,
        n + upto + 3 <= i32::MAX,
        (n + upto + 3) * (n + upto + 3) <= usize::MAX,
    ensures
        inst.wf(),
        inst.jobs@.len() == n,
        inst.m == m,
        inst.q == q,
        sorted_by_deadline(inst.jobs@),
        inst.d_max < upto,
        forall|i: int| 0 <= i < n ==> (#[trigger] inst.jobs@[i]).d < upto,
        forall|i: int| 0 <= i < n ==> volume_bounded(#[trigger] inst.jobs@[i]),
        forall|i: int| 0 <= i < n ==> (#[trigger] inst.jobs@[i]).id < n,
        forall|x: int| 0 <= x < n ==> #[trigger] has_id(inst.jobs@, x),
{
    broadcast use vstd::seq_lib::group_to_multiset_ensures;

    let jobs = generate_random_jobs(n, upto, interval_avg);
    let sorted = sort_jobs_by_deadline(jobs);
    proof {
        lemma_sorted_jobs_keep_bounds(jobs@, sorted@, upto as int);
        lemma_instance_fits(sorted@, n as int, upto as int);
        lemma_ids_cover(jobs@, sorted@, n as int);
        lemma_volume_bound_kept(jobs@, sorted@);
        crate::types::lemma_d_max_le_bound(sorted@, upto as int - 1);
    }
    Instance::new(sorted, m, q)
}

/// Bounds on the derived horizon and total volume carry over to the size
/// conditions that building an instance asks for.
proof fn lemma_instance_fits(jobs: Seq<Job>, n: int, upto: int)
    requires
        upto >= 1,
        jobs.len() == n,
        spec_p_total(jobs) <= n * upto,
        spec_d_max(jobs) <= upto,
        n * upto <= i32::MAX,
        n + upto + 3 <= i32::MAX,
        (n + upto + 3) * (n + upto + 3) <= usize::MAX,
    ensures
        spec_p_total(jobs) <= i32::MAX,
        jobs.len() + spec_d_max(jobs) + 3 <= i32::MAX,
        (jobs.len() + spec_d_max(jobs) + 3) * (jobs.len() + spec_d_max(jobs) + 3) <= usize::MAX,
{
    crate::types::lemma_p_total_nonneg(jobs);
    assert((jobs.len() + spec_d_max(jobs) + 3) * (jobs.len() + spec_d_max(jobs) + 3) <= (n + upto
        + 3) * (n + upto + 3)) by (nonlinear_arith)
        requires
            0 <= jobs.len() + spec_d_max(jobs) + 3 <= n + upto + 3,
    ;
}

/// A rearrangement of well-formed jobs whose deadlines and volumes lie
/// below `upto` keeps those bounds, so the derived horizon and total
/// volume of the rearranged list are linearly bounded.
proof fn lemma_sorted_jobs_keep_bounds(pre: Seq<Job>, post: Seq<Job>, upto: int)
    requires
        upto >= 1,
        post.to_multiset() == pre.to_multiset(),
        post.len() == pre.len(),
        forall|i: int|
            0 <= i < pre.len() ==> (#[trigger] pre[i]).wf() && pre[i].d < upto && pre[i].p < upto,
    ensures
        forall|i: int|
            0 <= i < post.len() ==> (#[trigger] post[i]).wf() && post[i].d < upto && post[i].p
                < upto,
        spec_p_total(post) <= post.len() * upto,
        spec_d_max(post) <= upto,
{
    broadcast use vstd::seq_lib::group_to_multiset_ensures;

    assert forall|i: int|
        0 <= i < post.len() implies (#[trigger] post[i]).wf() && post[i].d < upto && post[i].p
        < upto by {
        assert(post.contains(post[i]));
        assert(post.to_multiset().count(post[i]) > 0);
        assert(pre.contains(post[i]));
        let j = choose|j: int| 0 <= j < pre.len() && pre[j] == post[i];
        assert(pre[j].wf());
    }
    lemma_p_total_bounded(post, upto);
    lemma_d_max_le_bound(post, upto);
}

/// A rearrangement keeps the random generator's per-job volume bound.
proof fn lemma_volume_bound_kept(pre: Seq<Job>, post: Seq<Job>)
    requires
        post.to_multiset() == pre.to_multiset(),
        forall|i: int| 0 <= i < pre.len() ==> volume_bounded(#[trigger] pre[i]),
    ensures
        forall|i: int| 0 <= i < post.len() ==> volume_bounded(#[trigger] post[i]),
{
    broadcast use vstd::seq_lib::group_to_multiset_ensures;

    assert forall|i: int| 0 <= i < post.len() implies volume_bounded(#[trigger] post[i]) by {
        assert(post.contains(post[i]));
        assert(pre.to_multiset().count(post[i]) > 0);
        assert(pre.contains(post[i]));
        let j = choose|j: int| 0 <= j < pre.len() && pre[j] == post[i];
        assert(volume_bounded(pre[j]));
    }
}

/// A rearrangement keeps each job's window inside its stretch.
proof fn lemma_valley_kept(pre: Seq<Job>, post: Seq<Job>, vs: int)
    requires
        post.to_multiset() == pre.to_multiset(),
        forall|i: int| 0 <= i < pre.len() ==> in_valley(#[trigger] pre[i], vs),
    ensures
        forall|i: int| 0 <= i < post.len() ==> in_valley(#[trigger] post[i], vs),
{
    broadcast use vstd::seq_lib::group_to_multiset_ensures;

    assert forall|i: int| 0 <= i < post.len() implies in_valley(#[trigger] post[i], vs) by {
        assert(post.contains(post[i]));
        assert(pre.to_multiset().count(post[i]) > 0);
        assert(pre.contains(post[i]));
        let j = choose|j: int| 0 <= j < pre.len() && pre[j] == post[i];
        assert(in_valley(pre[j], vs));
    }
}

/// A rearrangement of jobs numbered by their positions keeps every number
/// below the length and covers each number exactly once.
proof fn lemma_ids_cover(pre: Seq<Job>, post: Seq<Job>, n: int)
    requires
        post.to_multiset() == pre.to_multiset(),
        post.len() == n,
        pre.len() == n,
        forall|i: int| 0 <= i < n ==> (#[trigger] pre[i]).id == i,
    ensures
        forall|x: int| 0 <= x < n ==> #[trigger] has_id(post, x),
        forall|i: int| 0 <= i < n ==> (#[trigger] post[i]).id < n,
{
    broadcast use vstd::seq_lib::group_to_multiset_ensures;

    assert forall|x: int| 0 <= x < n implies #[trigger] has_id(post, x) by {
        assert(pre.contains(pre[x]));
        assert(post.to_multiset().count(pre[x]) > 0);
        assert(post.contains(pre[x]));
        let i = choose|i: int| 0 <= i < post.len() && post[i] == pre[x];
        assert(post[i].id == x);
    }
    assert forall|i: int| 0 <= i < n implies (#[trigger] post[i]).id < n by {
        assert(post.contains(post[i]));
        assert(pre.to_multiset().count(post[i]) > 0);
        assert(pre.contains(post[i]));
        let j = choose|j: int| 0 <= j < pre.len() && pre[j] == post[i];
        assert(post[i].id == j);
    }
}

/// Generates an instance whose jobs cluster into `valley_num` equally wide
/// stretches of the horizon `[0, upto)`, sorted by deadline.
pub fn generate_valley_instance(
    n: usize,
    upto: usize,
    interval_avg: usize,
    q: usize,
    m: usize,
    valley_num: usize,
) -> (inst: Instance)
    requires
        valley_num >= 1,
        2 * interval_avg < usize::MAX,
        upto / valley_num > if 2 * interval_avg > 2 {
            2 * interval_avg
        } else {
            2
        },
        n * upto <= i32::MAX,
        m <= i32::MAX,
        n + upto + 3 <= i32::MAX,
        (n + upto + 3) * (n + upto + 3) <= usize::MAX,
    ensures
        inst.wf(),
        inst.jobs@.len() == n,
        inst.m == m,
        inst.q == q,
        sorted_by_deadline(inst.jobs@),
        inst.d_max < upto,
        forall|i: int| 0 <= i < n ==> (#[trigger] inst.jobs@[i]).d < upto,
        forall|i: int| 0 <= i < n ==> volume_bounded(#[trigger] inst.jobs@[i]),
        forall|i: int|
            0 <= i < n ==> in_valley(#[trigger] inst.jobs@[i], upto as int / valley_num as int),
        forall|i: int| 0 <= i < n ==> (#[trigger] inst.jobs@[i]).id < n,
        forall|x: int| 0 <= x < n ==> #[trigger] has_id(inst.jobs@, x),
{
    broadcast use vstd::seq_lib::group_to_multiset_ensures;

    let valley_size = upto / valley_num;
    assert(valley_size * valley_num <= upto) by (nonlinear_arith)
        requires
            valley_num >= 1,
            valley_size == upto / valley_num,
    ;
    let mut jobs = generate_random_jobs(n, valley_size, interval_avg);
    let mut i: usize = 0;
    while i < jobs.len()
        invariant
            valley_num >= 1,
            valley_size == upto / valley_num,
            valley_size * valley_num <= upto,
            valley_size >= 2,
            jobs@.len() == n,
            i <= n,
            forall|x: int|
                i <= x < n ==> (#[trigger] jobs@[x]).wf() && jobs@[x].d < valley_size && jobs@[x].p
                    < valley_size && volume_bounded(jobs@[x]),
            forall|x: int|
                0 <= x < i ==> (#[trigger] jobs@[x]).wf() && jobs@[x].d < upto && jobs@[x].p
                    < upto && volume_bounded(jobs@[x]) && in_valley(jobs@[x], valley_size as int),
            forall|x: int| 0 <= x < n ==> (#[trigger] jobs@[x]).id == x,
        decreases n - i,
    {
        let offset_factor = i % valley_num;
        proof {
            assert(valley_size * (i % valley_num) <= valley_size * (valley_num - 1))
                by (nonlinear_arith)
                requires
                    valley_num >= 1,
                    valley_size >= 0,
                    0 <= i % valley_num <= valley_num - 1,
            ;
            assert(valley_size * (valley_num - 1) == valley_size * valley_num - valley_size)
                by (nonlinear_arith);
        }
        let offset = valley_size * offset_factor;
        let old_job = jobs[i].clone();
        let moved = Job {
            id: old_job.id,
            r: old_job.r + offset,
            d: old_job.d + offset,
            p: old_job.p,
        };
        proof {
            assert(moved.r as int / (valley_size as int) == offset_factor as int)
                by (nonlinear_arith)
                requires
                    valley_size as int > 0,
                    moved.r == old_job.r + valley_size * offset_factor,
                    0 <= old_job.r < valley_size,
                    offset_factor >= 0,
            ;
            assert((offset_factor as int + 1) * (valley_size as int) == valley_size as int
                * offset_factor as int + valley_size as int) by (nonlinear_arith);
            assert(valley_size as int * offset_factor as int == (valley_size
                * offset_factor) as int);
            assert(in_valley(moved, valley_size as int));
        }
        jobs.set(i, moved);
        i += 1;
    }
    let sorted = sort_jobs_by_deadline(jobs);
    proof {
        lemma_sorted_jobs_keep_bounds(jobs@, sorted@, upto as int);
        lemma_instance_fits(sorted@, n as int, upto as int);
        lemma_ids_cover(jobs@, sorted@, n as int);
        lemma_volume_bound_kept(jobs@, sorted@);
        lemma_valley_kept(jobs@, sorted@, valley_size as int);
        crate::types::lemma_d_max_le_bound(sorted@, upto as int - 1);
    }
    Instance::new(sorted, m, q)
}

/// A small fixed instance of four jobs on one machine, with the horizon
/// one slot past the largest deadline: six units of processing volume
/// over the slots up to 11, and exactly these jobs in deadline order.
pub fn generate_small_deterministic_problem_instance() -> (inst: Instance)
    ensures
        inst.wf(),
        inst.jobs@ == seq![
            Job { id: 1, r: 1, d: 3, p: 1 },
            Job { id: 3, r: 6, d: 7, p: 1 },
            Job { id: 4, r: 7, d: 9, p: 2 },
            Job { id: 2, r: 1, d: 10, p: 2 },
        ],
        inst.jobs@.len() == 4,
        inst.m == 1,
        inst.q == 1,
        sorted_by_deadline(inst.jobs@),
        inst.p_total == 6,
        inst.d_max == 11,
{
    broadcast use vstd::seq_lib::group_to_multiset_ensures;

    let mut jobs: Vec<Job> = Vec::new();
    jobs.push(Job { id: 1, r: 1, d: 3, p: 1 });
    jobs.push(Job { id: 2, r: 1, d: 10, p: 2 });
    jobs.push(Job { id: 3, r: 6, d: 7, p: 1 });
    jobs.push(Job { id: 4, r: 7, d: 9, p: 2 });
    proof {
        assert(forall|i: int|
            0 <= i < jobs@.len() ==> (#[trigger] jobs@[i]).wf() && jobs@[i].d < 11 && jobs@[i].p
                < 11);
    }
    let sorted = sort_jobs_by_deadline(jobs);
    proof {
        lemma_sorted_jobs_keep_bounds(jobs@, sorted@, 11);
        assert(spec_p_total(jobs@) == 6) by {
            reveal_with_fuel(spec_p_total, 5);
        }
        assert(spec_d_max(jobs@) == 10) by {
            reveal_with_fuel(spec_d_max, 5);
        }
        crate::types::lemma_p_total_permutation(jobs@, sorted@);
        crate::types::lemma_d_max_permutation(jobs@, sorted@);
        let expect = seq![
            Job { id: 1, r: 1, d: 3, p: 1 },
            Job { id: 3, r: 6, d: 7, p: 1 },
            Job { id: 4, r: 7, d: 9, p: 2 },
            Job { id: 2, r: 1, d: 10, p: 2 },
        ];
        assert(expect =~= Seq::<Job>::empty().push(Job { id: 1, r: 1, d: 3, p: 1 }).push(
            Job { id: 3, r: 6, d: 7, p: 1 },
        ).push(Job { id: 4, r: 7, d: 9, p: 2 }).push(Job { id: 2, r: 1, d: 10, p: 2 }));
        assert(sorted@.to_multiset() =~= expect.to_multiset());
        let se = sorted@;
        assert(se.len() == 4);
        assert(expect.contains(expect[0]) && expect.contains(expect[1]) && expect.contains(
            expect[2],
        ) && expect.contains(expect[3]));
        assert(expect.to_multiset().count(expect[0]) > 0 && expect.to_multiset().count(expect[1])
            > 0 && expect.to_multiset().count(expect[2]) > 0 && expect.to_multiset().count(
            expect[3],
        ) > 0);
        assert(se.to_multiset().count(expect[0]) > 0 && se.to_multiset().count(expect[1]) > 0
            && se.to_multiset().count(expect[2]) > 0 && se.to_multiset().count(expect[3]) > 0);
        assert(se.contains(expect[0]) && se.contains(expect[1]) && se.contains(expect[2])
            && se.contains(expect[3]));
        let i0 = choose|i: int| 0 <= i < 4 && se[i] == expect[0];
        let i1 = choose|i: int| 0 <= i < 4 && se[i] == expect[1];
        let i2 = choose|i: int| 0 <= i < 4 && se[i] == expect[2];
        let i3 = choose|i: int| 0 <= i < 4 && se[i] == expect[3];
        assert(i0 < i1) by {
            if i1 < i0 {
                assert(se[i1].d <= se[i0].d);
            }
        }
        assert(i1 < i2) by {
            if i2 < i1 {
                assert(se[i2].d <= se[i1].d);
            }
        }
        assert(i2 < i3) by {
            if i3 < i2 {
                assert(se[i3].d <= se[i2].d);
            }
        }
        assert(i0 == 0 && i1 == 1 && i2 == 2 && i3 == 3);
        assert(se =~= expect);
        assert(usize::MAX >= u32::MAX);
        assert((4int + 11 + 3) * (4int + 11 + 3) == 324) by (nonlinear_arith);
        assert(4int * 11 == 44) by (nonlinear_arith);
        lemma_instance_fits(sorted@, 4, 11);
    }
    let jobs = sorted;
    let d_max = crate::types::get_d_max(&jobs) + 1;
    let p_total = crate::types::get_total_processing_volume(&jobs);
    proof {
        assert(usize::MAX >= u32::MAX);
        assert((jobs@.len() + d_max + 3) * (jobs@.len() + d_max + 3) <= 361) by (nonlinear_arith)
            requires
                0 <= jobs@.len() + d_max + 3 <= 19,
        ;
    }
    Instance { jobs, q: 1, m: 1, d_max, p_total }
}

} // verus!
