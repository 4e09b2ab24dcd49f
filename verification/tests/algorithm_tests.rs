use pltr::algorithm::{binary_search_maximum, pltr};
use pltr::types::{Instance, Job, ParallelSchedule};

#[test]
fn bs_on_integers() {
    let v: Vec<usize> = (0..10).collect();
    let threshold = 5;
    let is_small = |i| v[i] < threshold;
    let res = binary_search_maximum(is_small, 0, 10);
    assert_eq!(res, Some(4));
}

#[test]
fn bs_all_fulfill_pred() {
    let v: Vec<usize> = (0..10).collect();
    let threshold = 11;
    let is_small = |i| v[i] < threshold;
    let res = binary_search_maximum(is_small, 0, 10);
    assert_eq!(res, Some(9));
}

#[test]
fn bs_none_fulfill_pred() {
    let v: Vec<i32> = (0..10).collect();
    let threshold = 5;
    let is_small = |i| v[i] < threshold;
    let res = binary_search_maximum(is_small, 5, 10);
    assert_eq!(res, None);
}

#[test]
fn bs_range_limits() {
    let v: Vec<usize> = (0..10).collect();
    let threshold = 11;
    let is_small = |i| v[i] < threshold;
    let res = binary_search_maximum(is_small, 0, 7);
    assert_eq!(res, Some(6));
}

#[test]
fn simple_unit_instance() {
    let jobs: Vec<Job> = (0..10)
        .map(|i| Job {
            id: i,
            r: i,
            d: i + 1,
            p: 1,
        })
        .collect();
    let m = 1;
    let q = 1;
    let instance = Instance::new(jobs, m, q);
    let schedule = pltr(&instance).unwrap();
    let target_schedule: ParallelSchedule =
        ParallelSchedule::from_vec((0..10).map(|i| vec![i]).collect(), m);
    assert!(target_schedule.is_valid_for(&instance).is_ok());
    assert_eq!(target_schedule, schedule);
}

#[test]
fn simple_on_off() {
    let jobs: Vec<Job> = (0..10)
        .map(|i| Job {
            id: i,
            r: 2 * i,
            d: 2 * i + 1,
            p: 1,
        })
        .collect();
    let m = 2;
    let q = 1;
    let instance = Instance::new(jobs, m, q);
    let schedule = pltr(&instance).unwrap();
    let target_schedule_vec = (0..19)
        .map(|tslot| {
            if tslot % 2 == 0 {
                let id: usize = tslot / 2;
                vec![id]
            } else {
                vec![]
            }
        })
        .collect();
    let target_schedule = ParallelSchedule::from_vec(target_schedule_vec, m);
    assert!(target_schedule.is_valid_for(&instance).is_ok());
    assert_eq!(target_schedule, schedule);
}

#[test]
fn simultaneous_on_off() {
    let jobs: Vec<Job> = (0..10)
        .flat_map(|i| {
            vec![
                Job {
                    id: 4 * i,
                    r: 2 * i,
                    d: 2 * i + 1,
                    p: 1,
                },
                Job {
                    id: 4 * i + 1,
                    r: 2 * i,
                    d: 2 * i + 1,
                    p: 1,
                },
                Job {
                    id: 4 * i + 2,
                    r: 2 * i,
                    d: 2 * i + 1,
                    p: 1,
                },
                Job {
                    id: 4 * i + 3,
                    r: 2 * i,
                    d: 2 * i + 1,
                    p: 1,
                },
            ]
        })
        .collect();
    let m = 5;
    let q = 1;
    let instance = Instance::new(jobs, m, q);
    let schedule = pltr(&instance).unwrap();
    let target_schedule_vec = (0..19)
        .map(|tslot| {
            if tslot % 2 == 0 {
                let id: usize = tslot * 2;
                vec![id, id + 1, id + 2, id + 3]
            } else {
                vec![]
            }
        })
        .collect();
    let target_schedule = ParallelSchedule::from_vec(target_schedule_vec, m);
    assert!(target_schedule.is_valid_for(&instance).is_ok());
    assert_eq!(target_schedule, schedule);
}

#[test]
fn test_around_d_max() {
    let mut jobs: Vec<Job> = (0..10)
        .map(|i| Job {
            id: i,
            r: i,
            d: i + 1,
            p: 1,
        })
        .collect();
    jobs.push(Job {
        id: 10,
        r: 6,
        d: 10,
        p: 2,
    });
    let m = 2;
    let q = 1;
    let instance = Instance::new(jobs, m, q);
    let mut target_schedule_vec: Vec<Vec<usize>> = (0..10).map(|i| vec![i]).collect();
    target_schedule_vec[8].push(10);
    target_schedule_vec[9].push(10);
    let target_schedule: ParallelSchedule = ParallelSchedule::from_vec(target_schedule_vec, m);
    assert!(target_schedule.is_valid_for(&instance).is_ok());
    let schedule = pltr(&instance).unwrap();
    assert_eq!(target_schedule, schedule);
}

#[test]
fn generated_instance() {
    let instance = Instance {
        jobs: vec![
            Job {
                id: 3,
                r: 5,
                d: 12,
                p: 3,
            },
            Job {
                id: 2,
                r: 12,
                d: 13,
                p: 1,
            },
            Job {
                id: 4,
                r: 12,
                d: 13,
                p: 1,
            },
            Job {
                id: 1,
                r: 9,
                d: 14,
                p: 1,
            },
            Job {
                id: 7,
                r: 7,
                d: 14,
                p: 1,
            },
            Job {
                id: 0,
                r: 10,
                d: 17,
                p: 1,
            },
            Job {
                id: 6,
                r: 16,
                d: 17,
                p: 1,
            },
            Job {
                id: 5,
                r: 15,
                d: 18,
                p: 1,
            },
        ],
        m: 6,
        q: 1,
        d_max: 18,
        p_total: 10,
    };
    let _schedule = pltr(&instance).unwrap();
}

#[test]
fn generated_instance_two() {
    let instance = Instance {
        jobs: vec![
            Job {
                id: 9,
                r: 2,
                d: 3,
                p: 1,
            },
            Job {
                id: 5,
                r: 3,
                d: 5,
                p: 1,
            },
            Job {
                id: 0,
                r: 4,
                d: 7,
                p: 1,
            },
            Job {
                id: 7,
                r: 4,
                d: 8,
                p: 2,
            },
            Job {
                id: 1,
                r: 5,
                d: 9,
                p: 2,
            },
            Job {
                id: 2,
                r: 8,
                d: 9,
                p: 1,
            },
            Job {
                id: 3,
                r: 3,
                d: 9,
                p: 3,
            },
            Job {
                id: 4,
                r: 8,
                d: 11,
                p: 1,
            },
            Job {
                id: 6,
                r: 4,
                d: 11,
                p: 2,
            },
            Job {
                id: 8,
                r: 6,
                d: 11,
                p: 2,
            },
        ],
        m: 5,
        q: 1,
        d_max: 11,
        p_total: 16,
    };
    let _schedule = pltr(&instance).unwrap();
}

#[test]
fn generated_valley_instance_mid() {
    let instance = Instance {
        jobs: vec![
            Job {
                id: 1,
                r: 4,
                d: 5,
                p: 1,
            },
            Job {
                id: 7,
                r: 4,
                d: 5,
                p: 1,
            },
            Job {
                id: 3,
                r: 1,
                d: 10,
                p: 2,
            },
            Job {
                id: 5,
                r: 3,
                d: 10,
                p: 2,
            },
            Job {
                id: 0,
                r: 18,
                d: 20,
                p: 1,
            },
            Job {
                id: 6,
                r: 16,
                d: 24,
                p: 1,
            },
            Job {
                id: 4,
                r: 25,
                d: 28,
                p: 1,
            },
            Job {
                id: 2,
                r: 22,
                d: 29,
                p: 1,
            },
        ],
        m: 5,
        q: 1,
        d_max: 29,
        p_total: 10,
    };
    let _schedule = pltr(&instance).unwrap();
}

#[test]
fn generated_valley_instance_small() {
    let instance = Instance {
        jobs: vec![
            Job {
                id: 0,
                r: 3,
                d: 4,
                p: 1,
            },
            Job {
                id: 4,
                r: 3,
                d: 4,
                p: 1,
            },
            Job {
                id: 3,
                r: 1,
                d: 6,
                p: 2,
            },
            Job {
                id: 1,
                r: 7,
                d: 8,
                p: 1,
            },
            Job {
                id: 2,
                r: 4,
                d: 9,
                p: 2,
            },
        ],
        m: 5,
        q: 1,
        d_max: 9,
        p_total: 7,
    };
    let _schedule = pltr(&instance).unwrap();
}
