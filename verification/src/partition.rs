//! The time partitioner: splits a query's `[start, end]` range into
//! disjoint sub-ranges, one per worker, each a multiple of the partition
//! step, and flags the sub-ranges that reach into the recency window and
//! must therefore also consult not-yet-durable data.

use vstd::arithmetic::div_mod::{lemma_fundamental_div_mod, lemma_mod_division_less_than_divisor};
use vstd::prelude::*;

verus! {

/// Upper bound on every time quantity (in microseconds) the planner
/// accepts; generous for realistic timestamps while keeping all
/// intermediate arithmetic inside `i64`.
pub const MAX_TIME_MICROS: i64 = 0x400_0000_0000_0000;

/// A time sub-range of the queried range, dispatched to exactly one
/// worker node.
#[derive(Clone, Copy, PartialEq, Eq, Structural, Debug)]
pub struct Partition {
    pub start: i64,
    pub end: i64,
    /// The sub-range reaches into the recency window, so the worker must
    /// also read data that is not yet durably persisted.
    pub need_wal: bool,
}

pub open spec fn spec_max(a: int, b: int) -> int {
    if a >= b {
        a
    } else {
        b
    }
}

pub open spec fn spec_min(a: int, b: int) -> int {
    if a <= b {
        a
    } else {
        b
    }
}

/// `ceil(a / b)` for `a >= 1`, `b >= 1`.
pub open spec fn ceil_div(a: int, b: int) -> int {
    (a + b - 1) / b
}

/// The resolution step partitions are aligned to: the query step, but
/// never finer than the default lookback.
pub open spec fn partition_step(step: int, lookback: int) -> int {
    spec_max(step, lookback)
}

/// The number of resolution steps the range spans, at least one.
pub open spec fn n_steps(start: int, end: int, ps: int) -> int {
    if end <= start {
        1
    } else {
        spec_max(1, ceil_div(end - start, ps))
    }
}

/// The span of time covered by one worker: the partition step, scaled up
/// just enough that `workers` spans cover every step.
pub open spec fn worker_span(start: int, end: int, step: int, lookback: int, workers: int) -> int {
    let ps = partition_step(step, lookback);
    let ns = n_steps(start, end, ps);
    if ns > workers {
        ps * ceil_div(ns, workers)
    } else {
        ps
    }
}

/// Timestamps at or beyond this threshold may not be durably persisted
/// yet (clamped so the subtraction cannot wrap).
pub open spec fn wal_threshold(now: int, recency: int) -> int {
    if now - recency >= i64::MIN {
        now - recency
    } else {
        i64::MIN as int
    }
}

pub proof fn lemma_ceil_div_bounds(a: int, b: int)
    requires
        a >= 1,
        b >= 1,
    ensures
        1 <= ceil_div(a, b) <= a,
        a <= b * ceil_div(a, b) <= a + b - 1,
{
    let q = ceil_div(a, b);
    let r = (a + b - 1) % b;
    lemma_fundamental_div_mod(a + b - 1, b);
    lemma_mod_division_less_than_divisor(a + b - 1, b);
    assert(1 <= q <= a && a <= b * q <= a + b - 1) by (nonlinear_arith)
        requires
            a + b - 1 == b * q + r,
            0 <= r < b,
            a >= 1,
            b >= 1,
    ;
}

/// The worker span is at least the partition step, bounded overall, and
/// `workers` spans always reach from `start` past `end`.
pub proof fn lemma_worker_span_bounds(start: int, end: int, step: int, lookback: int, workers: int)
    requires
        0 <= start <= MAX_TIME_MICROS,
        0 <= end <= MAX_TIME_MICROS,
        1 <= step <= MAX_TIME_MICROS,
        1 <= lookback <= MAX_TIME_MICROS,
        workers >= 1,
    ensures
        partition_step(step, lookback) <= worker_span(start, end, step, lookback, workers),
        1 <= worker_span(start, end, step, lookback, workers) <= 2 * MAX_TIME_MICROS,
        start + workers * worker_span(start, end, step, lookback, workers) >= end,
{
    let ps = partition_step(step, lookback);
    let ns = n_steps(start, end, ps);
    let sp = worker_span(start, end, step, lookback, workers);
    if end <= start {
        assert(sp == ps);
        assert(workers * sp >= sp) by (nonlinear_arith)
            requires
                workers >= 1,
                sp >= 1,
        ;
    } else {
        let d = end - start;
        lemma_ceil_div_bounds(d, ps);
        assert(ns == ceil_div(d, ps));
        if ns > workers {
            let q = ceil_div(ns, workers);
            lemma_ceil_div_bounds(ns, workers);
            assert(sp == ps * q);
            assert(ps <= ps * q && ps * q <= ps * ns) by (nonlinear_arith)
                requires
                    1 <= q <= ns,
                    ps >= 1,
            ;
            assert(ps * ns <= d + ps - 1) by {
                assert(ps * ceil_div(d, ps) <= d + ps - 1);
            }
            assert(workers * (ps * q) >= ps * ns) by (nonlinear_arith)
                requires
                    workers * q >= ns,
                    ps >= 1,
                    workers >= 1,
                    q >= 1,
            ;
            assert(ps * ns >= d);
        } else {
            assert(sp == ps);
            assert(workers * ps >= ns * ps) by (nonlinear_arith)
                requires
                    workers >= ns,
                    ps >= 1,
            ;
            assert(ns * ps >= d) by {
                assert(ps * ceil_div(d, ps) >= d);
                assert(ns * ps == ps * ns) by (nonlinear_arith);
            }
        }
    }
}

/// What the partitioner guarantees of its output: partition `i` starts at
/// `start + i * span` and ends `span` later, clipped to `end`; every
/// partition after the first begins inside the range; the walk stops at
/// `end`, and never uses more than `workers` partitions; `need_wal` marks
/// exactly the partitions whose end reaches the recency threshold.
pub open spec fn partitions_wf(
    parts: Seq<Partition>,
    start: int,
    end: int,
    step: int,
    lookback: int,
    workers: int,
    now: int,
    recency: int,
) -> bool {
    let sp = worker_span(start, end, step, lookback, workers);
    &&& 1 <= parts.len() <= workers
    &&& forall|i: int| 0 <= i < parts.len() ==> (#[trigger] parts[i]).start == start + i * sp
    &&& forall|i: int|
        0 <= i < parts.len() ==> (#[trigger] parts[i]).end == spec_min(end, start + (i + 1) * sp)
    &&& forall|i: int| 1 <= i < parts.len() ==> start + #[trigger] (i * sp) <= end
    &&& (end > start ==> parts.last().end == end)
    &&& (end <= start ==> parts.len() == 1)
    &&& forall|i: int|
        0 <= i < parts.len() ==> ((#[trigger] parts[i]).need_wal <==> parts[i].end
            >= wal_threshold(now, recency))
}

/// Computes the worker span executably.
pub fn compute_worker_span(start: i64, end: i64, step: i64, lookback: i64, workers: usize) -> (r:
    i64)
    requires
        0 <= start <= MAX_TIME_MICROS,
        0 <= end <= MAX_TIME_MICROS,
        1 <= step <= MAX_TIME_MICROS,
        1 <= lookback <= MAX_TIME_MICROS,
        workers >= 1,
    ensures
        r == worker_span(start as int, end as int, step as int, lookback as int, workers as int),
{
    proof {
        lemma_worker_span_bounds(
            start as int,
            end as int,
            step as int,
            lookback as int,
            workers as int,
        );
    }
    let ps: i64 = if step >= lookback {
        step
    } else {
        lookback
    };
    if end <= start {
        return ps;
    }
    let d: u64 = (end - start) as u64;
    let psu: u64 = ps as u64;
    let ns: u64 = (d + psu - 1) / psu;
    proof {
        lemma_ceil_div_bounds(d as int, psu as int);
        assert(ns == ceil_div(d as int, psu as int));
        assert(n_steps(start as int, end as int, ps as int) == ns);
    }
    let w: u64 = if (workers as u64) <= ns {
        workers as u64
    } else {
        ns
    };
    if ns > w {
        let q: u64 = (ns + w - 1) / w;
        proof {
            lemma_ceil_div_bounds(ns as int, w as int);
            assert(q == ceil_div(ns as int, w as int));
            assert(psu * q <= psu * ns) by (nonlinear_arith)
                requires
                    1 <= q <= ns,
                    psu >= 1,
            ;
            assert(psu * ns <= d + psu - 1);
        }
        let r: u64 = psu * q;
        return r as i64;
    }
    ps
}

/// Walks from `start` to `end` in increments of the worker span, emitting
/// one partition per increment, clipping the final partition to `end`,
/// stopping once the walk passes `end` or every worker has a partition.
pub fn partition_range(
    start: i64,
    end: i64,
    step: i64,
    lookback: i64,
    workers: usize,
    now: i64,
    recency: i64,
) -> (r: Vec<Partition>)
    requires
        0 <= start <= MAX_TIME_MICROS,
        0 <= end <= MAX_TIME_MICROS,
        1 <= step <= MAX_TIME_MICROS,
        1 <= lookback <= MAX_TIME_MICROS,
        workers >= 1,
        0 <= recency <= MAX_TIME_MICROS,
    ensures
        partitions_wf(
            r@,
            start as int,
            end as int,
            step as int,
            lookback as int,
            workers as int,
            now as int,
            recency as int,
        ),
{
    let ghost sp_spec = worker_span(
        start as int,
        end as int,
        step as int,
        lookback as int,
        workers as int,
    );
    proof {
        lemma_worker_span_bounds(
            start as int,
            end as int,
            step as int,
            lookback as int,
            workers as int,
        );
    }
    let sp: i64 = compute_worker_span(start, end, step, lookback, workers);
    let wal_ts: i64 = if now >= i64::MIN + recency {
        now - recency
    } else {
        i64::MIN
    };
    assert(wal_ts == wal_threshold(now as int, recency as int));
    let mut parts: Vec<Partition> = Vec::new();
    let mut ws: i64 = start;
    let mut k: usize = 0;
    proof {
        assert(0 * sp_spec == 0) by (nonlinear_arith);
    }
    loop
        invariant
            sp == sp_spec,
            1 <= sp <= 2 * MAX_TIME_MICROS,
            0 <= start <= MAX_TIME_MICROS,
            0 <= end <= MAX_TIME_MICROS,
            workers >= 1,
            wal_ts == wal_threshold(now as int, recency as int),
            k <= workers,
            parts@.len() == k,
            ws == start + k * sp_spec,
            k == 0 || ws <= spec_max(end as int, start as int) + sp_spec,
            forall|i: int| 0 <= i < k ==> (#[trigger] parts@[i]).start == start + i * sp_spec,
            forall|i: int|
                0 <= i < k ==> (#[trigger] parts@[i]).end == spec_min(
                    end as int,
                    start + (i + 1) * sp_spec,
                ),
            forall|i: int| 1 <= i < k ==> start + #[trigger] (i * sp_spec) <= end,
            forall|i: int|
                0 <= i < k ==> ((#[trigger] parts@[i]).need_wal <==> parts@[i].end
                    >= wal_threshold(now as int, recency as int)),
        ensures
            k >= 1,
            k == workers || ws > end,
        decreases workers - k,
    {
        if k >= workers {
            break ;
        }
        if k > 0 && ws > end {
            break ;
        }
        let pend: i64 = if end <= ws + sp {
            end
        } else {
            ws + sp
        };
        proof {
            assert((k as int + 1) * sp_spec == k as int * sp_spec + sp_spec) by (nonlinear_arith);
        }
        let wal = pend >= wal_ts;
        parts.push(Partition { start: ws, end: pend, need_wal: wal });
        ws = ws + sp;
        k = k + 1;
    }
    proof {
        let partsv = parts@;
        let n = partsv.len() as int;
        if end > start {
            if k == workers && !(ws > end) {
                assert(start + workers * sp_spec >= end);
                assert(partsv.last().end == spec_min(end as int, start + n * sp_spec));
            }
            assert(partsv.last().end == end);
        }
        if end <= start {
            if n >= 2 {
                assert(start + 1 * sp_spec <= end);
                assert(1 * sp_spec == sp_spec) by (nonlinear_arith);
                assert(false);
            }
        }
    }
    parts
}

/// For a non-degenerate range the partitions are pairwise time-disjoint
/// except possibly at shared boundary instants, consecutive partitions
/// meet exactly, and the union of all partitions covers `[start, end]`.
pub proof fn lemma_partitions_disjoint_cover(
    parts: Seq<Partition>,
    start: int,
    end: int,
    step: int,
    lookback: int,
    workers: int,
    now: int,
    recency: int,
)
    requires
        0 <= start <= MAX_TIME_MICROS,
        0 <= end <= MAX_TIME_MICROS,
        1 <= step <= MAX_TIME_MICROS,
        1 <= lookback <= MAX_TIME_MICROS,
        workers >= 1,
        partitions_wf(parts, start, end, step, lookback, workers, now, recency),
        end > start,
    ensures
        parts[0].start == start,
        parts.last().end == end,
        forall|i: int| 0 <= i < parts.len() ==> (#[trigger] parts[i]).start <= parts[i].end <= end,
        forall|i: int| 0 < i < parts.len() ==> (#[trigger] parts[i]).start == parts[i - 1].end,
        forall|i: int, j: int|
            0 <= i < j < parts.len() ==> (#[trigger] parts[i]).end <= (#[trigger] parts[j]).start,
{
    lemma_worker_span_bounds(start, end, step, lookback, workers);
    let sp = worker_span(start, end, step, lookback, workers);
    let n = parts.len() as int;
    assert(parts[0].start == start + 0 * sp);
    assert(0 * sp == 0) by (nonlinear_arith);
    assert forall|i: int| 0 <= i < n implies (#[trigger] parts[i]).start <= parts[i].end
        <= end by {
        assert((i + 1) * sp == i * sp + sp) by (nonlinear_arith);
        if i >= 1 {
            assert(start + i * sp <= end);
        }
    }
    assert forall|i: int| 0 < i < n implies (#[trigger] parts[i]).start == parts[i - 1].end by {
        assert(start + i * sp <= end);
        assert(parts[i - 1].end == spec_min(end, start + i * sp));
    }
    assert forall|i: int, j: int| 0 <= i < j < n implies (#[trigger] parts[i]).end
        <= (#[trigger] parts[j]).start by {
        assert((i + 1) * sp <= j * sp) by (nonlinear_arith)
            requires
                i + 1 <= j,
                sp >= 1,
        ;
    }
}

/// Every instant of `[start, end]` lies inside some partition: together
/// with `lemma_partitions_disjoint_cover` this says the partitions cover
/// the range exactly.
pub proof fn lemma_partitions_cover_point(
    parts: Seq<Partition>,
    start: int,
    end: int,
    step: int,
    lookback: int,
    workers: int,
    now: int,
    recency: int,
    t: int,
)
    requires
        0 <= start <= MAX_TIME_MICROS,
        0 <= end <= MAX_TIME_MICROS,
        1 <= step <= MAX_TIME_MICROS,
        1 <= lookback <= MAX_TIME_MICROS,
        workers >= 1,
        partitions_wf(parts, start, end, step, lookback, workers, now, recency),
        end > start,
        start <= t <= end,
    ensures
        exists|i: int| 0 <= i < parts.len() && (#[trigger] parts[i]).start <= t <= parts[i].end,
{
    lemma_worker_span_bounds(start, end, step, lookback, workers);
    let sp = worker_span(start, end, step, lookback, workers);
    let n = parts.len() as int;
    {
        let q = (t - start) / sp;
        let rem = (t - start) % sp;
        lemma_fundamental_div_mod(t - start, sp);
        lemma_mod_division_less_than_divisor(t - start, sp);
        assert(t - start == sp * q + rem && 0 <= rem < sp);
        assert(q >= 0) by (nonlinear_arith)
            requires
                sp * q + rem == t - start,
                0 <= rem < sp,
                t - start >= 0,
                sp >= 1,
        ;
        if q < n {
            assert(parts[q].start == start + q * sp);
            assert(q * sp == sp * q) by (nonlinear_arith);
            assert(parts[q].start <= t);
            assert((q + 1) * sp == q * sp + sp) by (nonlinear_arith);
            assert(t < start + (q + 1) * sp);
            assert(parts[q].end == spec_min(end, start + (q + 1) * sp));
            assert(parts[q].start <= t <= parts[q].end);
        } else {
            // t lies at or past the start of what would be partition n,
            // which the walk only omits once it has passed `end`.
            assert(start + n * sp <= start + q * sp) by (nonlinear_arith)
                requires
                    n <= q,
                    sp >= 1,
            ;
            assert(sp * q == q * sp) by (nonlinear_arith);
            assert(start + q * sp <= t);
            assert((n - 1) * sp <= q * sp) by (nonlinear_arith)
                requires
                    n - 1 <= q,
                    sp >= 1,
            ;
            assert(parts[n - 1].start == start + (n - 1) * sp);
            assert(parts[n - 1].start <= t);
            assert(parts.last() == parts[n - 1]);
            assert(parts[n - 1].end == end);
            assert(parts[n - 1].start <= t <= parts[n - 1].end);
        }
    }
}

} // verus!
