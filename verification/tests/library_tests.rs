use pltr::algorithm::{pltr, vec_to_square_matrix};
use pltr::dataset_parsing::{parse_matrix_string, parse_vector_string, record_to_instance, ParseError};
use pltr::instance_generation::{
    generate_random_instance, generate_small_deterministic_problem_instance,
    generate_valley_instance, sort_jobs_by_deadline,
};
use pltr::types::{Instance, Job, ParallelSchedule, SchedulingError};

#[test]
fn parse_plain_vector() {
    let v = parse_vector_string("[1, 2, 3]").unwrap();
    assert_eq!(v, vec![1, 2, 3]);
}

#[test]
fn parse_unbracketed_vector() {
    let v = parse_vector_string("12").unwrap();
    assert_eq!(v, vec![12]);
}

#[test]
fn parse_vector_with_padding() {
    let v = parse_vector_string("[ 7 ,08, 900 ]").unwrap();
    assert_eq!(v, vec![7, 8, 900]);
}

#[test]
fn parse_empty_brackets_fails() {
    assert_eq!(parse_vector_string("[]"), Err(ParseError::InvalidNumber));
}

#[test]
fn parse_bad_digit_fails() {
    assert_eq!(parse_vector_string("[1, x]"), Err(ParseError::InvalidNumber));
}

#[test]
fn parse_huge_number_fails() {
    assert_eq!(
        parse_vector_string("99999999999999999999999999999999"),
        Err(ParseError::InvalidNumber)
    );
}

#[test]
fn parse_matrix_column_minima() {
    let v = parse_matrix_string("3,2;1,5", 2).unwrap();
    assert_eq!(v, vec![1, 2]);
}

#[test]
fn parse_matrix_short_row_keeps_default() {
    let v = parse_matrix_string("5,6", 3).unwrap();
    assert_eq!(v, vec![5, 6, usize::MAX]);
}

#[test]
fn parse_matrix_wide_row_fails() {
    assert_eq!(parse_matrix_string("1,2,3", 2), Err(ParseError::RowTooWide));
}

#[test]
fn record_builds_instance() {
    let inst = record_to_instance("[0, 2]", "[2, 4]", "3,1;2,2", 1, 2, 5).unwrap();
    assert_eq!(inst.m, 1);
    assert_eq!(inst.q, 1);
    assert_eq!(inst.jobs.len(), 2);
    assert_eq!(inst.jobs[0].id, 5);
    assert_eq!(inst.jobs[0].r, 0);
    assert_eq!(inst.jobs[0].d, 2);
    assert_eq!(inst.jobs[0].p, 2);
    assert_eq!(inst.jobs[1].id, 6);
    assert_eq!(inst.jobs[1].r, 2);
    assert_eq!(inst.jobs[1].d, 4);
    assert_eq!(inst.jobs[1].p, 1);
    let schedule = pltr(&inst).unwrap();
    assert!(schedule.is_valid_for(&inst).is_ok());
}

#[test]
fn record_with_empty_window_fails() {
    let result = record_to_instance("[0]", "[0]", "1", 1, 1, 0);
    assert!(matches!(result, Err(ParseError::BadInstance)));
}

#[test]
fn try_new_accepts_good_jobs() {
    let jobs = vec![Job::new(0, 0, 2, 1), Job::new(1, 1, 3, 2)];
    let inst = Instance::try_new(jobs, 2, 1).unwrap();
    assert_eq!(inst.d_max, 3);
    assert_eq!(inst.p_total, 3);
}

#[test]
fn try_new_rejects_bad_volume() {
    let jobs = vec![Job::new(0, 0, 2, 3)];
    assert!(Instance::try_new(jobs, 2, 1).is_none());
}

#[test]
fn sorting_orders_by_deadline() {
    let jobs = vec![
        Job::new(0, 0, 9, 1),
        Job::new(1, 0, 2, 1),
        Job::new(2, 0, 5, 1),
    ];
    let sorted = sort_jobs_by_deadline(jobs);
    let deadlines: Vec<usize> = sorted.iter().map(|j| j.d).collect();
    assert_eq!(deadlines, vec![2, 5, 9]);
    let ids: Vec<usize> = sorted.iter().map(|j| j.id).collect();
    assert_eq!(ids, vec![1, 2, 0]);
}

#[test]
fn random_instance_is_well_formed() {
    let inst = generate_random_instance(10, 50, 3, 1, 2);
    assert_eq!(inst.jobs.len(), 10);
    assert_eq!(inst.m, 2);
    for w in inst.jobs.windows(2) {
        assert!(w[0].d <= w[1].d);
    }
    for job in inst.jobs.iter() {
        assert!(job.r < job.d);
        assert!(job.d <= 50);
        assert!(1 <= job.p && job.p <= job.d - job.r);
        assert!(job.p <= std::cmp::max(1, (job.d - job.r) / 2));
    }
}

#[test]
fn valley_instance_is_well_formed() {
    let inst = generate_valley_instance(12, 100, 4, 1, 3, 4);
    assert_eq!(inst.jobs.len(), 12);
    for w in inst.jobs.windows(2) {
        assert!(w[0].d <= w[1].d);
    }
    for job in inst.jobs.iter() {
        assert!(job.r < job.d);
        assert!(job.d <= 100);
        assert!(1 <= job.p && job.p <= job.d - job.r);
        let stretch = 100 / 4;
        assert!(job.d <= (job.r / stretch + 1) * stretch);
    }
}

#[test]
fn small_deterministic_instance_values() {
    let inst = generate_small_deterministic_problem_instance();
    assert_eq!(inst.jobs.len(), 4);
    assert_eq!(inst.m, 1);
    assert_eq!(inst.q, 1);
    assert_eq!(inst.d_max, 11);
    assert_eq!(inst.p_total, 6);
    let deadlines: Vec<usize> = inst.jobs.iter().map(|j| j.d).collect();
    assert_eq!(deadlines, vec![3, 7, 9, 10]);
    let ids: Vec<usize> = inst.jobs.iter().map(|j| j.id).collect();
    assert_eq!(ids, vec![1, 3, 4, 2]);
    let schedule = pltr(&inst).unwrap();
    assert!(schedule.is_valid_for(&inst).is_ok());
}

#[test]
fn overloaded_instance_is_reported_infeasible() {
    let jobs = vec![Job::new(0, 0, 1, 1), Job::new(1, 0, 1, 1)];
    let instance = Instance::new(jobs, 1, 1);
    let result = pltr(&instance);
    assert!(matches!(
        result,
        Err(SchedulingError::InfeasibleInstance { .. })
    ));
}

#[test]
fn validation_rejects_missing_job() {
    let jobs = vec![Job::new(0, 0, 2, 1), Job::new(1, 0, 2, 1)];
    let instance = Instance::new(jobs, 1, 1);
    let schedule = ParallelSchedule::from_vec(vec![vec![0], vec![]], 1);
    let result = schedule.is_valid_for(&instance);
    assert!(matches!(
        result,
        Err(SchedulingError::ScheduleValidationFailure { job_id: 1, scheduled: 0, required: 1 })
    ));
}

#[test]
fn validation_rejects_slot_outside_window() {
    let jobs = vec![Job::new(0, 1, 2, 1)];
    let instance = Instance::new(jobs, 1, 1);
    let schedule = ParallelSchedule::from_vec(vec![vec![0], vec![]], 1);
    assert!(schedule.is_valid_for(&instance).is_err());
}

#[test]
fn timeslots_counts_occurrences() {
    let schedule = ParallelSchedule::from_vec(vec![vec![0, 1], vec![1], vec![]], 2);
    let job = Job::new(1, 0, 3, 2);
    let slots = schedule.timeslots_of(&job);
    assert_eq!(slots, vec![0, 1]);
}

#[test]
fn square_matrix_from_flat_list() {
    let flat = vec![1, 2, 3, 4];
    let m = vec_to_square_matrix(&flat, 2);
    assert_eq!(m, vec![vec![1, 2], vec![3, 4]]);
}

#[test]
fn square_matrix_ignores_extra_entries() {
    let flat = vec![1, 2, 3, 4, 5];
    let m = vec_to_square_matrix(&flat, 2);
    assert_eq!(m, vec![vec![1, 2], vec![3, 4]]);
}

#[test]
fn timeslots_keeps_order_and_multiplicity() {
    let schedule = ParallelSchedule::from_vec(vec![vec![1, 1], vec![0], vec![1]], 2);
    let job = Job::new(1, 0, 3, 3);
    let slots = schedule.timeslots_of(&job);
    assert_eq!(slots, vec![0, 0, 2]);
}

#[test]
fn capacity_is_respected_on_full_slots() {
    let jobs = vec![
        Job::new(0, 0, 2, 2),
        Job::new(1, 0, 2, 2),
    ];
    let instance = Instance::new(jobs, 2, 1);
    let schedule = pltr(&instance).unwrap();
    let rows = schedule.slot_rows();
    for slot in rows.iter() {
        assert!(slot.len() <= 2);
    }
    assert_eq!(schedule.machine_count(), 2);
}
