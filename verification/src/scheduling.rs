//! Greedy scheduling of jobs on one machine, and the weighted sum of the
//! completion times that the schedule gives.

use std::cmp::Ordering;
use vstd::prelude::*;
use crate::text::{fields, integer_of, read_integer, split_fields, views};

verus! {

/// How a job's priority is computed from its weight and its length.
#[derive(Debug, Clone, Copy, PartialEq, Eq, Structural)]
pub enum JobStrategy {
    /// Weight minus length.
    Diff,
    /// Weight divided by length.
    Ratio,
}

/// A job: how much its completion time counts, and how long it runs.
#[derive(Debug, Clone, Copy)]
pub struct Job {
    pub weight: i32,
    pub length: i32,
    pub strategy: JobStrategy,
}

/// A job's priority as a fraction with a denominator that is not negative:
/// the difference over 1, or the weight over the length. A denominator of 0
/// under a numerator that is not 0 stands for a priority beyond every number,
/// on the side of the numerator's sign.
pub open spec fn priority(job: Job) -> (int, int) {
    match job.strategy {
        JobStrategy::Diff => (job.weight - job.length, 1),
        JobStrategy::Ratio => if job.length < 0 {
            (-job.weight, -job.length)
        } else {
            (job.weight as int, job.length as int)
        },
    }
}

/// The job has no priority: its weight is divided by its length and both are 0.
pub open spec fn unranked(job: Job) -> bool {
    priority(job) == (0int, 0int)
}

/// Where the priority lies: 0 for a number, 1 above and -1 below all numbers.
pub open spec fn side(job: Job) -> int {
    let (numerator, denominator) = priority(job);
    if denominator > 0 {
        0
    } else if numerator > 0 {
        1
    } else {
        -1
    }
}

/// The priority of `a` is greater than that of `b`. A job without a priority
/// is neither above nor below any other.
pub open spec fn outranks(a: Job, b: Job) -> bool {
    let (a_num, a_den) = priority(a);
    let (b_num, b_den) = priority(b);
    &&& !unranked(a)
    &&& !unranked(b)
    &&& side(a) > side(b) || (side(a) == 0 && side(b) == 0 && a_num * b_den > b_num * a_den)
}

/// `a` is scheduled before `b`: its priority is greater or, where neither
/// priority is greater, its weight is.
pub open spec fn precedes(a: Job, b: Job) -> bool {
    outranks(a, b) || (!outranks(b, a) && a.weight > b.weight)
}

/// Where `job` goes into `queue`: behind every job of the queue, then forward
/// past each job that it precedes, up to the first that it does not.
pub open spec fn slot(queue: Seq<Job>, job: Job) -> int
    decreases queue.len(),
{
    if queue.len() > 0 && precedes(job, queue.last()) {
        slot(queue.drop_last(), job)
    } else {
        queue.len() as int
    }
}

/// The schedule: the jobs ordered by precedence, jobs of which neither
/// precedes the other in the order in which they were given.
pub open spec fn scheduled(jobs: Seq<Job>) -> Seq<Job>
    decreases jobs.len(),
{
    if jobs.len() == 0 {
        jobs
    } else {
        let queue = scheduled(jobs.drop_last());
        queue.insert(slot(queue, jobs.last()), jobs.last())
    }
}

/// Sum of the lengths of the jobs: when the last of them completes.
pub open spec fn total_length(jobs: Seq<Job>) -> int
    decreases jobs.len(),
{
    if jobs.len() == 0 {
        0
    } else {
        total_length(jobs.drop_last()) + jobs.last().length
    }
}

/// Sum over the jobs, run in the given order, of weight times completion time.
pub open spec fn weighted_completion(jobs: Seq<Job>) -> int
    decreases jobs.len(),
{
    if jobs.len() == 0 {
        0
    } else {
        weighted_completion(jobs.drop_last()) + jobs.last().weight * total_length(jobs)
    }
}

/// The integer lies in the range of `i64`.
pub open spec fn in_range(n: int) -> bool {
    i64::MIN <= n <= i64::MAX
}

/// Every completion time, every product of a weight and a completion time and
/// every partial sum of these products lies in the range of `i64`.
pub open spec fn sums_in_range(jobs: Seq<Job>) -> bool {
    forall|count: int|
        0 < count <= jobs.len() ==> {
            &&& in_range(#[trigger] total_length(jobs.take(count)))
            &&& in_range(jobs[count - 1].weight * total_length(jobs.take(count)))
            &&& in_range(weighted_completion(jobs.take(count)))
        }
}

/// No later job precedes an earlier one.
pub open spec fn ordered(jobs: Seq<Job>) -> bool {
    forall|i: int, j: int| 0 <= i < j < jobs.len() ==> !precedes(#[trigger] jobs[j], #[trigger] jobs[i])
}

/// Every job has a priority.
pub open spec fn all_ranked(jobs: Seq<Job>) -> bool {
    forall|i: int| 0 <= i < jobs.len() ==> !unranked(#[trigger] jobs[i])
}

/// No weight and no length is further from 0 than `bound`.
pub open spec fn all_within(jobs: Seq<Job>, bound: int) -> bool {
    forall|i: int|
        0 <= i < jobs.len() ==> -bound <= (#[trigger] jobs[i]).weight <= bound && -bound
            <= jobs[i].length <= bound
}

/// Fractions with positive denominators compare in a chain.
proof fn lemma_fraction_chain(an: int, ad: int, bn: int, bd: int, cn: int, cd: int)
    requires
        ad > 0,
        bd > 0,
        cd > 0,
        an * bd >= bn * ad,
        bn * cd >= cn * bd,
    ensures
        an * cd >= cn * ad,
        an * bd > bn * ad || bn * cd > cn * bd ==> an * cd > cn * ad,
{
    let x = an * cd;
    let y = cn * ad;
    let ab = an * bd;
    let ba = bn * ad;
    let bc = bn * cd;
    let cb = cn * bd;
    assert(ab * cd == x * bd) by (nonlinear_arith)
        requires
            ab == an * bd,
            x == an * cd,
    ;
    assert(ba * cd == bc * ad) by (nonlinear_arith)
        requires
            ba == bn * ad,
            bc == bn * cd,
    ;
    assert(cb * ad == y * bd) by (nonlinear_arith)
        requires
            cb == cn * bd,
            y == cn * ad,
    ;
    assert(ab * cd >= ba * cd) by (nonlinear_arith)
        requires
            ab >= ba,
            cd > 0,
    ;
    assert(bc * ad >= cb * ad) by (nonlinear_arith)
        requires
            bc >= cb,
            ad > 0,
    ;
    assert(x >= y) by (nonlinear_arith)
        requires
            x * bd >= y * bd,
            bd > 0,
    ;
    if ab > ba {
        assert(ab * cd > ba * cd) by (nonlinear_arith)
            requires
                ab > ba,
                cd > 0,
        ;
        assert(x > y) by (nonlinear_arith)
            requires
                x * bd > y * bd,
                bd > 0,
        ;
    }
    if bc > cb {
        assert(bc * ad > cb * ad) by (nonlinear_arith)
            requires
                bc > cb,
                ad > 0,
        ;
        assert(x > y) by (nonlinear_arith)
            requires
                x * bd > y * bd,
                bd > 0,
        ;
    }
}

/// Of two jobs at most one precedes the other.
pub proof fn lemma_precedes_one_way(a: Job, b: Job)
    ensures
        !(precedes(a, b) && precedes(b, a)),
{
}

/// Among jobs that have a priority, "is not preceded by" runs in a chain.
pub proof fn lemma_precedes_chain(a: Job, b: Job, c: Job)
    requires
        !unranked(a),
        !unranked(b),
        !unranked(c),
        !precedes(b, a),
        !precedes(c, b),
    ensures
        !precedes(c, a),
{
    let (an, ad) = priority(a);
    let (bn, bd) = priority(b);
    let (cn, cd) = priority(c);
    if side(a) == 0 && side(b) == 0 && side(c) == 0 {
        lemma_fraction_chain(an, ad, bn, bd, cn, cd);
    }
}

/// Where a job goes into a queue: it precedes every job behind it, and not
/// the one in front of it.
pub proof fn lemma_slot(queue: Seq<Job>, job: Job)
    ensures
        0 <= slot(queue, job) <= queue.len(),
        forall|k: int| slot(queue, job) <= k < queue.len() ==> precedes(job, #[trigger] queue[k]),
        slot(queue, job) > 0 ==> !precedes(job, queue[slot(queue, job) - 1]),
    decreases queue.len(),
{
    if queue.len() > 0 && precedes(job, queue.last()) {
        let front = queue.drop_last();
        lemma_slot(front, job);
        assert forall|k: int| slot(queue, job) <= k < queue.len() implies precedes(
            job,
            #[trigger] queue[k],
        ) by {
            if k < front.len() {
                assert(queue[k] == front[k]);
            }
        }
    }
}

/// The schedule holds the jobs that were given, each as often as it was given.
pub proof fn lemma_scheduled_permutes(jobs: Seq<Job>)
    ensures
        scheduled(jobs).len() == jobs.len(),
        scheduled(jobs).to_multiset() == jobs.to_multiset(),
    decreases jobs.len(),
{
    broadcast use vstd::seq_lib::group_to_multiset_ensures;

    if jobs.len() > 0 {
        let rest = jobs.drop_last();
        let last = jobs.last();
        let queue = scheduled(rest);
        lemma_scheduled_permutes(rest);
        lemma_slot(queue, last);
        let at = slot(queue, last);
        let longer = queue.insert(at, last);
        assert(longer.remove(at) =~= queue);
        assert(longer[at] == last);
        assert(longer.to_multiset().remove(last) == queue.to_multiset());
        assert(longer.contains(last));
        assert(longer.to_multiset() =~= queue.to_multiset().insert(last));
        assert(rest.push(last) =~= jobs);
    }
}

/// Where every job has a priority, no job of the schedule is preceded by a
/// later one.
pub proof fn lemma_scheduled_ordered(jobs: Seq<Job>)
    requires
        all_ranked(jobs),
    ensures
        all_ranked(scheduled(jobs)),
        ordered(scheduled(jobs)),
    decreases jobs.len(),
{
    if jobs.len() > 0 {
        let rest = jobs.drop_last();
        let last = jobs.last();
        let queue = scheduled(rest);
        assert forall|i: int| 0 <= i < rest.len() implies !unranked(#[trigger] rest[i]) by {
            assert(rest[i] == jobs[i]);
        }
        lemma_scheduled_ordered(rest);
        lemma_slot(queue, last);
        let at = slot(queue, last);
        let longer = queue.insert(at, last);
        assert forall|i: int, j: int| 0 <= i < j < longer.len() implies !precedes(
            #[trigger] longer[j],
            #[trigger] longer[i],
        ) by {
            if j == at {
                assert(longer[i] == queue[i]);
                if i < at - 1 {
                    lemma_precedes_chain(queue[i], queue[at - 1], last);
                }
            } else if i == at {
                assert(longer[j] == queue[j - 1]);
                lemma_precedes_one_way(last, queue[j - 1]);
            } else {
                let qi = if i < at { i } else { i - 1 };
                let qj = if j < at { j } else { j - 1 };
                assert(longer[i] == queue[qi]);
                assert(longer[j] == queue[qj]);
            }
        }
        assert forall|i: int| 0 <= i < longer.len() implies !unranked(#[trigger] longer[i]) by {
            if i < at {
                assert(longer[i] == queue[i]);
            } else if i > at {
                assert(longer[i] == queue[i - 1]);
            }
        }
    }
}

/// Bounds on the sums of jobs whose weights and lengths are bounded.
proof fn lemma_sums_bounded(jobs: Seq<Job>, bound: int)
    requires
        bound >= 0,
        all_within(jobs, bound),
    ensures
        -(jobs.len() * bound) <= total_length(jobs) <= jobs.len() * bound,
        -(jobs.len() * jobs.len() * bound * bound) <= weighted_completion(jobs) <= jobs.len()
            * jobs.len() * bound * bound,
        jobs.len() > 0 ==> -(jobs.len() * bound * bound) <= jobs.last().weight * total_length(jobs)
            <= jobs.len() * bound * bound,
    decreases jobs.len(),
{
    if jobs.len() > 0 {
        let rest = jobs.drop_last();
        let last = jobs.last();
        let n = rest.len() as int;
        assert forall|i: int| 0 <= i < rest.len() implies -bound <= (#[trigger] rest[i]).weight
            <= bound && -bound <= rest[i].length <= bound by {
            assert(rest[i] == jobs[i]);
        }
        lemma_sums_bounded(rest, bound);
        let len = total_length(jobs);
        let w = last.weight as int;
        assert((n + 1) * bound == n * bound + bound) by (nonlinear_arith);
        assert(-((n + 1) * bound * bound) <= w * len <= (n + 1) * bound * bound)
            by (nonlinear_arith)
            requires
                -bound <= w <= bound,
                -((n + 1) * bound) <= len <= (n + 1) * bound,
                bound >= 0,
                n >= 0,
        ;
        assert(n * n * bound * bound + (n + 1) * bound * bound <= (n + 1) * (n + 1) * bound * bound)
            by (nonlinear_arith)
            requires
                n >= 0,
                bound >= 0,
        ;
    }
}

/// Where no weight and no length is further from 0 than `bound`, and the
/// square of the number of jobs times the square of `bound` is in the range of
/// `i64`, so is every sum that the schedule passes through.
pub proof fn lemma_sums_in_range(jobs: Seq<Job>, bound: int)
    requires
        bound >= 0,
        all_within(jobs, bound),
        jobs.len() * jobs.len() * bound * bound <= i64::MAX,
    ensures
        sums_in_range(scheduled(jobs)),
{
    broadcast use vstd::seq_lib::group_to_multiset_ensures;

    let queue = scheduled(jobs);
    lemma_scheduled_permutes(jobs);
    assert forall|i: int| 0 <= i < queue.len() implies -bound <= (#[trigger] queue[i]).weight
        <= bound && -bound <= queue[i].length <= bound by {
        assert(queue.contains(queue[i]));
        assert(jobs.to_multiset().count(queue[i]) > 0);
        assert(jobs.contains(queue[i]));
        let k = choose|k: int| 0 <= k < jobs.len() && jobs[k] == queue[i];
        assert(jobs[k] == queue[i]);
    }
    let n = jobs.len() as int;
    assert forall|count: int| 0 < count <= queue.len() implies {
        &&& in_range(#[trigger] total_length(queue.take(count)))
        &&& in_range(queue[count - 1].weight * total_length(queue.take(count)))
        &&& in_range(weighted_completion(queue.take(count)))
    } by {
        let head = queue.take(count);
        assert forall|i: int| 0 <= i < head.len() implies -bound <= (#[trigger] head[i]).weight
            <= bound && -bound <= head[i].length <= bound by {
            assert(head[i] == queue[i]);
        }
        lemma_sums_bounded(head, bound);
        assert(head.last() == queue[count - 1]);
        assert(count * bound <= n * n * bound * bound && count * bound * bound <= n * n * bound
            * bound && count * count * bound * bound <= n * n * bound * bound)
            by (nonlinear_arith)
            requires
                0 < count <= n,
                bound >= 0,
        ;
    }
}

/// Every field denotes an integer.
pub open spec fn all_integers(found: Seq<Seq<char>>) -> bool {
    forall|i: int| 0 <= i < found.len() ==> integer_of(#[trigger] found[i]) is Some
}

/// The job that a line of text stands for: every field of the line is an
/// integer, the first is the weight and the second the length. A line with
/// fewer than two fields, or with a field that is no integer, stands for none.
pub open spec fn parsed_job(line: Seq<char>, strategy: JobStrategy) -> Option<Job> {
    let found = fields(line);
    if found.len() >= 2 && all_integers(found) {
        Some(
            Job {
                weight: integer_of(found[0]).unwrap() as i32,
                length: integer_of(found[1]).unwrap() as i32,
                strategy,
            },
        )
    } else {
        None
    }
}

impl Job {
    /// Reads a job from a line of text, to be ranked by `strategy`.
    pub fn parse(line: &str, strategy: JobStrategy) -> (job: Option<Job>)
        ensures
            job == parsed_job(line@, strategy),
    {
        let found = split_fields(line);
        if found.len() < 2 {
            return None;
        }
        let mut numbers: Vec<i32> = Vec::new();
        let mut at: usize = 0;
        while at < found.len()
            invariant
                at <= found@.len(),
                found@.len() >= 2,
                views(found@) == fields(line@),
                numbers@.len() == at,
                forall|i: int|
                    0 <= i < at ==> integer_of(#[trigger] views(found@)[i]) == Some(
                        numbers@[i] as int,
                    ),
            decreases found@.len() - at,
        {
            assert(views(found@)[at as int] == found@[at as int]@);
            match read_integer(&found[at]) {
                Some(number) => {
                    numbers.push(number);
                },
                None => {
                    return None;
                },
            }
            at += 1;
        }
        Some(Job { weight: numbers[0], length: numbers[1], strategy })
    }

    /// The priority as a fraction whose denominator is not negative.
    fn fraction(&self) -> (parts: (i64, i64))
        ensures
            (parts.0 as int, parts.1 as int) == priority(*self),
    {
        match self.strategy {
            JobStrategy::Diff => (self.weight as i64 - self.length as i64, 1),
            JobStrategy::Ratio => if self.length < 0 {
                (-(self.weight as i64), -(self.length as i64))
            } else {
                (self.weight as i64, self.length as i64)
            },
        }
    }

    /// Whether this job's priority is greater than that of `other`.
    fn above(&self, other: &Job) -> (yes: bool)
        ensures
            yes == outranks(*self, *other),
    {
        let (a_num, a_den) = self.fraction();
        let (b_num, b_den) = other.fraction();
        if (a_num == 0 && a_den == 0) || (b_num == 0 && b_den == 0) {
            return false;
        }
        let a_side: i8 = if a_den > 0 {
            0
        } else if a_num > 0 {
            1
        } else {
            -1
        };
        let b_side: i8 = if b_den > 0 {
            0
        } else if b_num > 0 {
            1
        } else {
            -1
        };
        if a_side != 0 || b_side != 0 {
            return a_side > b_side;
        }
        assert(-0x1_0000_0000 * 0x8000_0000 <= a_num * b_den <= 0x1_0000_0000 * 0x8000_0000)
            by (nonlinear_arith)
            requires
                -0x1_0000_0000 <= a_num <= 0x1_0000_0000,
                0 < b_den <= 0x8000_0000,
        ;
        assert(-0x1_0000_0000 * 0x8000_0000 <= b_num * a_den <= 0x1_0000_0000 * 0x8000_0000)
            by (nonlinear_arith)
            requires
                -0x1_0000_0000 <= b_num <= 0x1_0000_0000,
                0 < a_den <= 0x8000_0000,
        ;
        a_num as i128 * b_den as i128 > b_num as i128 * a_den as i128
    }

    /// Whether this job is scheduled before `other`.
    pub fn goes_before(&self, other: &Job) -> (yes: bool)
        ensures
            yes == precedes(*self, *other),
    {
        self.above(other) || (!other.above(self) && self.weight > other.weight)
    }

    /// Compares two jobs for sorting: less where this job is scheduled before
    /// `other`, greater where it is not. Two jobs never compare equal.
    pub fn cmp(&self, other: &Job) -> (order: Ordering)
        ensures
            order == if precedes(*self, *other) {
                Ordering::Less
            } else {
                Ordering::Greater
            },
    {
        if self.goes_before(other) {
            Ordering::Less
        } else {
            Ordering::Greater
        }
    }
}

/// Puts the jobs into the order of the schedule: the same jobs, and, where
/// each has a priority, none of them preceded by a later one.
pub fn schedule(jobs: &mut Vec<Job>)
    ensures
        final(jobs)@ == scheduled(old(jobs)@),
        final(jobs)@.to_multiset() == old(jobs)@.to_multiset(),
        all_ranked(old(jobs)@) ==> ordered(final(jobs)@),
{
    proof {
        lemma_scheduled_permutes(jobs@);
        if all_ranked(jobs@) {
            lemma_scheduled_ordered(jobs@);
        }
    }
    let mut queue: Vec<Job> = Vec::new();
    let mut next: usize = 0;
    assert(jobs@.take(0) =~= Seq::<Job>::empty());
    while next < jobs.len()
        invariant
            next <= jobs@.len(),
            jobs@ == old(jobs)@,
            queue@ == scheduled(jobs@.take(next as int)),
        decreases jobs@.len() - next,
    {
        let job = jobs[next];
        let mut at: usize = queue.len();
        assert(queue@.take(at as int) =~= queue@);
        while at > 0 && job.goes_before(&queue[at - 1])
            invariant
                at <= queue@.len(),
                slot(queue@, job) == slot(queue@.take(at as int), job),
            decreases at,
        {
            assert(queue@.take(at as int).drop_last() =~= queue@.take(at - 1));
            at -= 1;
        }
        assert(jobs@.take(next + 1).drop_last() =~= jobs@.take(next as int));
        queue.insert(at, job);
        next += 1;
    }
    assert(jobs@.take(next as int) =~= jobs@);
    *jobs = queue;
}

/// Schedules the jobs and returns the weighted sum of their completion times.
///
/// The jobs are left in the order of the schedule. The sum is accumulated in
/// 64 bits, job by job, as the schedule runs: what it passes through has to fit.
pub fn wsct(jobs: &mut Vec<Job>) -> (sum: i64)
    requires
        sums_in_range(scheduled(old(jobs)@)),
    ensures
        final(jobs)@ == scheduled(old(jobs)@),
        final(jobs)@.to_multiset() == old(jobs)@.to_multiset(),
        all_ranked(old(jobs)@) ==> ordered(final(jobs)@),
        sum == weighted_completion(final(jobs)@),
{
    schedule(jobs);
    let mut sum: i64 = 0;
    let mut len: i64 = 0;
    let mut next: usize = 0;
    assert(jobs@.take(0) =~= Seq::<Job>::empty());
    while next < jobs.len()
        invariant
            next <= jobs@.len(),
            sums_in_range(jobs@),
            len == total_length(jobs@.take(next as int)),
            sum == weighted_completion(jobs@.take(next as int)),
        decreases jobs@.len() - next,
    {
        let job = jobs[next];
        assert(jobs@.take(next + 1).drop_last() =~= jobs@.take(next as int));
        assert(in_range(total_length(jobs@.take(next + 1))));
        len += job.length as i64;
        sum += job.weight as i64 * len;
        next += 1;
    }
    assert(jobs@.take(next as int) =~= jobs@);
    sum
}

/// Schedules the jobs and returns the weighted sum of their completion times,
/// or nothing where a sum that the schedule passes through leaves the range of
/// `i64`. The jobs are left in the order of the schedule either way.
pub fn try_wsct(jobs: &mut Vec<Job>) -> (sum: Option<i64>)
    ensures
        final(jobs)@ == scheduled(old(jobs)@),
        final(jobs)@.to_multiset() == old(jobs)@.to_multiset(),
        all_ranked(old(jobs)@) ==> ordered(final(jobs)@),
        match sum {
            Some(total) => sums_in_range(final(jobs)@) && total == weighted_completion(
                final(jobs)@,
            ),
            None => !sums_in_range(final(jobs)@),
        },
{
    schedule(jobs);
    let mut sum: i64 = 0;
    let mut len: i64 = 0;
    let mut next: usize = 0;
    assert(jobs@.take(0) =~= Seq::<Job>::empty());
    while next < jobs.len()
        invariant
            next <= jobs@.len(),
            jobs@ == scheduled(old(jobs)@),
            jobs@.to_multiset() == old(jobs)@.to_multiset(),
            all_ranked(old(jobs)@) ==> ordered(jobs@),
            len == total_length(jobs@.take(next as int)),
            sum == weighted_completion(jobs@.take(next as int)),
            forall|count: int|
                0 < count <= next ==> {
                    &&& in_range(#[trigger] total_length(jobs@.take(count)))
                    &&& in_range(jobs@[count - 1].weight * total_length(jobs@.take(count)))
                    &&& in_range(weighted_completion(jobs@.take(count)))
                },
        decreases jobs@.len() - next,
    {
        let job = jobs[next];
        assert(jobs@.take(next + 1).drop_last() =~= jobs@.take(next as int));
        let ghost longer = jobs@.take(next + 1);
        assert(longer.last() == job);
        let end = match len.checked_add(job.length as i64) {
            Some(end) => end,
            None => {
                assert(!in_range(total_length(jobs@.take(next + 1))));
                return None;
            },
        };
        let term = match (job.weight as i64).checked_mul(end) {
            Some(term) => term,
            None => {
                assert(!in_range(jobs@[next + 1 - 1].weight * total_length(jobs@.take(next + 1))));
                return None;
            },
        };
        let total = match sum.checked_add(term) {
            Some(total) => total,
            None => {
                assert(!in_range(weighted_completion(jobs@.take(next + 1))));
                return None;
            },
        };
        len = end;
        sum = total;
        next += 1;
    }
    assert(jobs@.take(next as int) =~= jobs@);
    Some(sum)
}

} // verus!
