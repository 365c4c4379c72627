use algorithms::scheduling::{schedule, try_wsct, wsct, Job, JobStrategy};
use std::cmp::Ordering;

fn job(weight: i32, length: i32, strategy: JobStrategy) -> Job {
    Job { weight, length, strategy }
}

#[test]
fn test2() {
    let details = vec![[8, 50], [74, 59], [31, 73], [45, 79], [10, 10], [41, 66]];
    let mut diff_jobs = details
        .iter()
        .map(|d| Job { weight: d[0], length: d[1], strategy: JobStrategy::Diff })
        .collect();
    let diff_s = wsct(&mut diff_jobs);

    let mut ratio_jobs = details
        .iter()
        .map(|d| Job { weight: d[0], length: d[1], strategy: JobStrategy::Ratio })
        .collect();
    let ratio_s = wsct(&mut ratio_jobs);

    assert_eq!(diff_s, 31814);
    assert_eq!(ratio_s, 31814);
}

#[test]
fn test3() {
    let details = vec![
        [8, 50],
        [74, 59],
        [31, 73],
        [45, 79],
        [24, 10],
        [41, 66],
        [93, 43],
        [88, 4],
        [28, 30],
        [41, 13],
    ];
    let mut diff_jobs = details
        .iter()
        .map(|d| Job { weight: d[0], length: d[1], strategy: JobStrategy::Diff })
        .collect();
    let diff_s = wsct(&mut diff_jobs);

    let mut ratio_jobs = details
        .iter()
        .map(|d| Job { weight: d[0], length: d[1], strategy: JobStrategy::Ratio })
        .collect();
    let ratio_s = wsct(&mut ratio_jobs);

    assert_eq!(diff_s, 61545);
    assert_eq!(ratio_s, 60213);
}

#[test]
fn test4() {
    let details = vec![
        [1, 37],
        [79, 39],
        [94, 16],
        [16, 73],
        [48, 44],
        [52, 40],
        [96, 27],
        [15, 86],
        [20, 81],
        [99, 57],
        [10, 90],
        [46, 66],
        [77, 52],
        [42, 74],
        [16, 45],
        [47, 4],
        [84, 41],
        [34, 54],
        [87, 53],
        [13, 69],
        [83, 88],
        [69, 63],
        [5, 97],
        [13, 65],
        [10, 46],
        [17, 10],
        [62, 79],
        [62, 32],
        [13, 12],
        [57, 61],
        [100, 98],
        [43, 7],
    ];
    let mut diff_jobs = details
        .iter()
        .map(|d| Job { weight: d[0], length: d[1], strategy: JobStrategy::Diff })
        .collect();
    let diff_s = wsct(&mut diff_jobs);

    let mut ratio_jobs = details
        .iter()
        .map(|d| Job { weight: d[0], length: d[1], strategy: JobStrategy::Ratio })
        .collect();
    let ratio_s = wsct(&mut ratio_jobs);

    assert_eq!(diff_s, 688647);
    assert_eq!(ratio_s, 674634);
}

#[test]
fn no_jobs_sum_to_zero() {
    let mut jobs: Vec<Job> = Vec::new();
    assert_eq!(wsct(&mut jobs), 0);
    assert!(jobs.is_empty());
}

#[test]
fn one_job_counts_its_own_length() {
    let mut jobs = vec![job(3, 5, JobStrategy::Diff)];
    assert_eq!(wsct(&mut jobs), 15);
}

#[test]
fn two_jobs_exact_sum() {
    // By difference (3, 5) has -2 and (1, 2) has -1: the second runs first.
    // 1 * 2 + 3 * (2 + 5) = 23.
    let mut jobs = vec![job(3, 5, JobStrategy::Diff), job(1, 2, JobStrategy::Diff)];
    assert_eq!(wsct(&mut jobs), 23);
    assert_eq!((jobs[0].weight, jobs[0].length), (1, 2));
    assert_eq!((jobs[1].weight, jobs[1].length), (3, 5));
}

#[test]
fn ratio_and_difference_can_disagree() {
    // Differences: (3, 5) -> -2, (1, 2) -> -1. Ratios: 3/5 > 1/2.
    let mut by_ratio = vec![job(1, 2, JobStrategy::Ratio), job(3, 5, JobStrategy::Ratio)];
    // 3 * 5 + 1 * (5 + 2) = 22.
    assert_eq!(wsct(&mut by_ratio), 22);
    assert_eq!((by_ratio[0].weight, by_ratio[0].length), (3, 5));
}

#[test]
fn equal_priority_goes_by_weight() {
    // Both differences are 1: the heavier job runs first.
    let mut jobs = vec![job(2, 1, JobStrategy::Diff), job(5, 4, JobStrategy::Diff)];
    schedule(&mut jobs);
    assert_eq!((jobs[0].weight, jobs[0].length), (5, 4));
    assert_eq!((jobs[1].weight, jobs[1].length), (2, 1));
}

#[test]
fn full_ties_keep_their_order() {
    // Weight 0 over any positive length is priority 0, and the weights tie too.
    let mut jobs = vec![
        job(0, 7, JobStrategy::Ratio),
        job(4, 2, JobStrategy::Ratio),
        job(0, 3, JobStrategy::Ratio),
    ];
    schedule(&mut jobs);
    assert_eq!((jobs[0].weight, jobs[0].length), (4, 2));
    assert_eq!((jobs[1].weight, jobs[1].length), (0, 7));
    assert_eq!((jobs[2].weight, jobs[2].length), (0, 3));
}

#[test]
fn schedule_keeps_every_job() {
    let given = vec![
        job(8, 50, JobStrategy::Ratio),
        job(74, 59, JobStrategy::Ratio),
        job(8, 50, JobStrategy::Ratio),
        job(10, 10, JobStrategy::Ratio),
    ];
    let mut jobs = given.clone();
    schedule(&mut jobs);
    assert_eq!(jobs.len(), given.len());
    let mut before: Vec<(i32, i32)> = given.iter().map(|j| (j.weight, j.length)).collect();
    let mut after: Vec<(i32, i32)> = jobs.iter().map(|j| (j.weight, j.length)).collect();
    before.sort();
    after.sort();
    assert_eq!(before, after);
    for i in 0..jobs.len() {
        for j in (i + 1)..jobs.len() {
            assert!(!jobs[j].goes_before(&jobs[i]));
        }
    }
}

#[test]
fn zero_length_ranks_beyond_every_quotient() {
    let endless = job(1, 0, JobStrategy::Ratio);
    let large = job(i32::MAX, 1, JobStrategy::Ratio);
    let bottomless = job(-1, 0, JobStrategy::Ratio);
    let small = job(i32::MIN, 1, JobStrategy::Ratio);
    assert!(endless.goes_before(&large));
    assert!(!large.goes_before(&endless));
    assert!(small.goes_before(&bottomless));
    assert!(endless.goes_before(&bottomless));
    assert!(!bottomless.goes_before(&endless));
}

#[test]
fn negative_length_turns_the_quotient() {
    // 6 / -3 = -2 and -1 / 1 = -1.
    let a = job(6, -3, JobStrategy::Ratio);
    let b = job(-1, 1, JobStrategy::Ratio);
    assert!(b.goes_before(&a));
    assert!(!a.goes_before(&b));
}

#[test]
fn job_without_priority_goes_by_weight() {
    let none = job(0, 0, JobStrategy::Ratio);
    let heavy = job(2, 100, JobStrategy::Ratio);
    let light = job(-2, 1, JobStrategy::Ratio);
    assert!(heavy.goes_before(&none));
    assert!(none.goes_before(&light));
}

#[test]
fn priorities_of_both_kinds_compare_as_numbers() {
    // 7 - 5 = 2 against 5 / 2.
    let by_difference = job(7, 5, JobStrategy::Diff);
    let by_ratio = job(5, 2, JobStrategy::Ratio);
    assert!(by_ratio.goes_before(&by_difference));
    assert!(!by_difference.goes_before(&by_ratio));
}

#[test]
fn comparison_is_never_equal() {
    let a = job(3, 5, JobStrategy::Diff);
    let b = job(1, 2, JobStrategy::Diff);
    assert_eq!(a.cmp(&b), Ordering::Greater);
    assert_eq!(b.cmp(&a), Ordering::Less);
    assert_eq!(a.cmp(&a), Ordering::Greater);
}

#[test]
fn large_quotients_compare_exactly() {
    // 2147483647 / 2147483646 > 2147483646 / 2147483645 fails: the first is smaller.
    let a = job(2147483647, 2147483646, JobStrategy::Ratio);
    let b = job(2147483646, 2147483645, JobStrategy::Ratio);
    assert!(b.goes_before(&a));
    assert!(!a.goes_before(&b));
}

#[test]
fn checked_sum_agrees_where_it_fits() {
    let details = vec![[8, 50], [74, 59], [31, 73], [45, 79], [10, 10], [41, 66]];
    let mut jobs: Vec<Job> = details
        .iter()
        .map(|d| Job { weight: d[0], length: d[1], strategy: JobStrategy::Ratio })
        .collect();
    assert_eq!(try_wsct(&mut jobs), Some(31814));
}

#[test]
fn checked_sum_refuses_what_does_not_fit() {
    // The second completion time is 2 * (2^31 - 1); times the weight 2^31 - 1,
    // and added to the first product, the sum passes 2^63.
    let mut jobs = vec![
        job(i32::MAX, i32::MAX, JobStrategy::Diff),
        job(i32::MAX, i32::MAX, JobStrategy::Diff),
    ];
    assert_eq!(try_wsct(&mut jobs), None);
    let mut one = vec![job(i32::MAX, i32::MAX, JobStrategy::Diff)];
    assert_eq!(try_wsct(&mut one), Some(4611686014132420609));
}

#[test]
fn job_from_a_line() {
    let read = Job::parse("74 59", JobStrategy::Ratio).unwrap();
    assert_eq!((read.weight, read.length), (74, 59));
    assert_eq!(read.strategy, JobStrategy::Ratio);
    let signed = Job::parse("  -3\t+4 ", JobStrategy::Diff).unwrap();
    assert_eq!((signed.weight, signed.length), (-3, 4));
}

#[test]
fn job_lines_that_are_refused() {
    assert!(Job::parse("", JobStrategy::Diff).is_none());
    assert!(Job::parse("74", JobStrategy::Diff).is_none());
    assert!(Job::parse("74 x", JobStrategy::Diff).is_none());
    assert!(Job::parse("74 59 x", JobStrategy::Diff).is_none());
    assert!(Job::parse("74 2147483648", JobStrategy::Diff).is_none());
    assert!(Job::parse("74 59 12", JobStrategy::Diff).is_some());
}
