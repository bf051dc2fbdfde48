//! The coordinator's decision logic: validating a query, planning its
//! partitions over the ordered healthy nodes, folding the workers'
//! partial results into one value, and summing their scan statistics.
//!
//! The network fan-out itself (one concurrent remote call per partition)
//! lives outside the library; it hands plain partial results back in.

use crate::merge::{
    all_have_sample, matrix_merge_post, merge_matrix, merge_scalar, merge_vector, scalar_fold,
    series_views, vector_merge_post,
};
use crate::nodes::{nodes_view, order_nodes, ordered_nodes_post, Node};
use crate::partition::{
    partition_range, partitions_wf, Partition, MAX_TIME_MICROS,
};
use crate::value::{ResultType, SearchError, Series, SeriesModel, Value};
use vstd::prelude::*;

verus! {

/// Scan statistics, summed across partitions for observability and
/// billing; summation saturates instead of wrapping.
#[derive(Clone, Copy, PartialEq, Eq, Structural, Debug)]
pub struct ScanStats {
    pub files: u64,
    pub records: u64,
    pub original_size: u64,
    pub compressed_size: u64,
}

pub open spec fn sat_add_spec(a: u64, b: u64) -> u64 {
    if a + b > u64::MAX {
        u64::MAX
    } else {
        (a + b) as u64
    }
}

pub open spec fn stats_add(a: ScanStats, b: ScanStats) -> ScanStats {
    ScanStats {
        files: sat_add_spec(a.files, b.files),
        records: sat_add_spec(a.records, b.records),
        original_size: sat_add_spec(a.original_size, b.original_size),
        compressed_size: sat_add_spec(a.compressed_size, b.compressed_size),
    }
}

fn sat_add(a: u64, b: u64) -> (r: u64)
    ensures
        r == sat_add_spec(a, b),
{
    if a > u64::MAX - b {
        u64::MAX
    } else {
        a + b
    }
}

impl ScanStats {
    /// An empty accumulator.
    pub fn new() -> (r: ScanStats)
        ensures
            r == (ScanStats { files: 0, records: 0, original_size: 0, compressed_size: 0 }),
    {
        ScanStats { files: 0, records: 0, original_size: 0, compressed_size: 0 }
    }

    /// Adds another partition's statistics into this accumulator.
    pub fn add(&mut self, other: &ScanStats)
        ensures
            *final(self) == stats_add(*old(self), *other),
    {
        self.files = sat_add(self.files, other.files);
        self.records = sat_add(self.records, other.records);
        self.original_size = sat_add(self.original_size, other.original_size);
        self.compressed_size = sat_add(self.compressed_size, other.compressed_size);
    }
}

/// One worker's partial result: its declared result shape (already
/// decoded at the boundary; an unrecognized tag decodes to `None`), its
/// series, and its scan statistics.
pub struct PartialResult {
    pub result_type: Option<ResultType>,
    pub series: Vec<Series>,
    pub stats: ScanStats,
}

/// The first declared result shape among the partial results; the
/// authoritative shape of the merged value.
pub open spec fn first_type(ps: Seq<PartialResult>) -> Option<ResultType>
    decreases ps.len(),
{
    if ps.len() == 0 {
        None
    } else if ps[0].result_type is Some {
        ps[0].result_type
    } else {
        first_type(ps.drop_first())
    }
}

/// All partial series, concatenated in partition-result order.
pub open spec fn concat_series(ps: Seq<PartialResult>) -> Seq<SeriesModel>
    decreases ps.len(),
{
    if ps.len() == 0 {
        Seq::empty()
    } else {
        concat_series(ps.drop_last()) + series_views(ps.last().series@)
    }
}

/// The summed scan statistics of the partial results.
pub open spec fn stats_total(ps: Seq<PartialResult>) -> ScanStats
    decreases ps.len(),
{
    if ps.len() == 0 {
        ScanStats { files: 0, records: 0, original_size: 0, compressed_size: 0 }
    } else {
        stats_add(stats_total(ps.drop_last()), ps.last().stats)
    }
}

proof fn lemma_first_type_at(ps: Seq<PartialResult>, i: int)
    requires
        0 <= i < ps.len(),
        forall|j: int| 0 <= j < i ==> (#[trigger] ps[j]).result_type is None,
        ps[i].result_type is Some,
    ensures
        first_type(ps) == ps[i].result_type,
    decreases i,
{
    if i > 0 {
        lemma_first_type_at(ps.drop_first(), i - 1);
        assert(forall|j: int| 0 <= j < i - 1 ==> ps.drop_first()[j] == ps[j + 1]);
    }
}

proof fn lemma_first_type_none(ps: Seq<PartialResult>)
    requires
        forall|j: int| 0 <= j < ps.len() ==> (#[trigger] ps[j]).result_type is None,
    ensures
        first_type(ps) is None,
    decreases ps.len(),
{
    if ps.len() > 0 {
        assert(forall|j: int| 0 <= j < ps.len() - 1 ==> ps.drop_first()[j] == ps[j + 1]);
        lemma_first_type_none(ps.drop_first());
    }
}

/// Sums the scan statistics of all partial results.
pub fn aggregate_stats(partials: &Vec<PartialResult>) -> (r: ScanStats)
    ensures
        r == stats_total(partials@),
{
    let mut acc = ScanStats::new();
    let mut k: usize = 0;
    proof {
        assert(partials@.take(0) =~= Seq::<PartialResult>::empty());
    }
    while k < partials.len()
        invariant
            k <= partials@.len(),
            acc == stats_total(partials@.take(k as int)),
        decreases partials@.len() - k,
    {
        proof {
            assert(partials@.take(k as int + 1).drop_last() =~= partials@.take(k as int));
            assert(partials@.take(k as int + 1).last() == partials@[k as int]);
        }
        acc.add(&partials[k].stats);
        k = k + 1;
    }
    proof {
        assert(partials@.take(partials@.len() as int) =~= partials@);
    }
    acc
}

/// Merges the partial results of all partitions into one value of the
/// declared shape.  The first declared shape is authoritative; partial
/// results declaring no recognizable shape at all are an
/// [`SearchError::InvalidResultShape`] failure.
pub fn merge_partials(partials: Vec<PartialResult>) -> (r: Result<Value, SearchError>)
    requires
        first_type(partials@) == Some(ResultType::Vector) ==> all_have_sample(
            concat_series(partials@),
        ),
    ensures
        (first_type(partials@) is None) <==> (r matches Err(SearchError::InvalidResultShape)),
        r is Err ==> first_type(partials@) is None,
        first_type(partials@) == Some(ResultType::Matrix) ==> (r matches Ok(v) && v matches
            Value::Matrix(mv) && matrix_merge_post(concat_series(partials@), mv@)),
        first_type(partials@) == Some(ResultType::Vector) ==> (r matches Ok(v) && v matches
            Value::Vector(vv) && vector_merge_post(concat_series(partials@), vv@)),
        first_type(partials@) == Some(ResultType::Scalar) ==> (r matches Ok(v) && v matches
            Value::Scalar(s) && s == scalar_fold(concat_series(partials@))),
{
    let ghost orig = partials@;
    let mut rest = partials;
    let mut all: Vec<Series> = Vec::new();
    let mut rt: Option<ResultType> = None;
    let mut p: Ghost<int> = Ghost(0);
    let ghost n = orig.len();
    proof {
        assert(orig.take(0) =~= Seq::<PartialResult>::empty());
        assert(concat_series(orig.take(0)) =~= Seq::<SeriesModel>::empty());
        assert(series_views(all@) =~= Seq::<SeriesModel>::empty());
    }
    while rest.len() > 0
        invariant
            0 <= p@ <= n,
            n == orig.len(),
            rest@.len() == n - p@,
            rest@ == orig.skip(p@),
            series_views(all@) == concat_series(orig.take(p@)),
            rt is Some ==> exists|i: int|
                0 <= i < p@ && (forall|j: int|
                    0 <= j < i ==> (#[trigger] orig[j]).result_type is None) && (
                #[trigger] orig[i]).result_type == rt && rt is Some,
            rt is None ==> forall|j: int| 0 <= j < p@ ==> (#[trigger] orig[j]).result_type is None,
        decreases rest@.len(),
    {
        proof {
            assert(rest@[0] == orig[p@]);
        }
        let part = rest.remove(0);
        proof {
            assert(part == orig[p@]);
        }
        if rt.is_none() {
            match part.result_type {
                Some(t) => {
                    rt = Some(t);
                    proof {
                        assert((#[trigger] orig[p@]).result_type == rt);
                    }
                },
                None => {},
            }
        }
        let mut sv = part.series;
        let ghost svo = sv@;
        let mut q: Ghost<int> = Ghost(0);
        while sv.len() > 0
            invariant
                0 <= q@ <= svo.len(),
                sv@.len() == svo.len() - q@,
                sv@ == svo.skip(q@),
                series_views(all@) == concat_series(orig.take(p@)) + series_views(
                    svo.take(q@),
                ),
            decreases sv@.len(),
        {
            proof {
                assert(sv@[0] == svo[q@]);
            }
            let s = sv.remove(0);
            let ghost alo = all@;
            all.push(s);
            proof {
                assert(s == svo[q@]);
                assert(series_views(all@) =~= series_views(alo).push(svo[q@]@));
                assert(series_views(svo.take(q@ + 1)) =~= series_views(
                    svo.take(q@),
                ).push(svo[q@]@));
                assert(series_views(all@) =~= concat_series(orig.take(p@)) + series_views(
                    svo.take(q@ + 1),
                ));
                assert(sv@ =~= svo.skip(q@ + 1));
            }
            q = Ghost(q@ + 1);
        }
        proof {
            assert(svo.take(svo.len() as int) =~= svo);
            assert(orig.take(p@ + 1).drop_last() =~= orig.take(p@));
            assert(orig.take(p@ + 1).last() == orig[p@]);
            assert(series_views(all@) =~= concat_series(orig.take(p@ + 1)));
            assert(rest@ =~= orig.skip(p@ + 1));
        }
        p = Ghost(p@ + 1);
    }
    proof {
        assert(orig.take(n as int) =~= orig);
        assert(series_views(all@) == concat_series(orig));
        match rt {
            Some(_) => {
                let i = choose|i: int|
                    0 <= i < p@ && (forall|j: int|
                        0 <= j < i ==> (#[trigger] orig[j]).result_type is None) && (
                    #[trigger] orig[i]).result_type == rt;
                lemma_first_type_at(orig, i);
            },
            None => {
                lemma_first_type_none(orig);
            },
        }
        assert(first_type(orig) == rt);
    }
    match rt {
        Some(ResultType::Matrix) => Ok(Value::Matrix(merge_matrix(&all))),
        Some(ResultType::Vector) => Ok(Value::Vector(merge_vector(&all))),
        Some(ResultType::Scalar) => Ok(Value::Scalar(merge_scalar(&all))),
        None => Err(SearchError::InvalidResultShape),
    }
}

/// The immutable configuration the coordinator is constructed with.
pub struct SearchConfig {
    /// The minimum meaningful resolution (microseconds).
    pub lookback_micros: i64,
    /// The maximum number of output points per series a query may ask
    /// for.
    pub max_points_per_series: i64,
    /// How far back from "now" data may still be missing from durable
    /// storage (microseconds).
    pub recency_window_micros: i64,
    /// The per-call deadline for each remote partition call (seconds).
    pub query_timeout_secs: u64,
    /// The message size cap for remote calls (megabytes).
    pub max_message_size_mb: u64,
    /// Whether the result cache is enabled.
    pub result_cache_enabled: bool,
}

pub open spec fn config_wf(c: SearchConfig) -> bool {
    &&& 1 <= c.lookback_micros <= MAX_TIME_MICROS
    &&& 0 <= c.max_points_per_series
    &&& 0 <= c.recency_window_micros <= MAX_TIME_MICROS
}

/// A range query as the coordinator accepts it.
pub struct Query {
    pub org_id: String,
    pub query_text: String,
    /// Inclusive range bounds, microsecond timestamps.
    pub start: i64,
    pub end: i64,
    /// Resolution step, microseconds; positive by caller contract.
    pub step: i64,
    pub no_cache: bool,
    /// The caller's end-to-end timeout (seconds), forwarded to workers.
    pub timeout_secs: i64,
}

pub open spec fn query_wf(q: Query) -> bool {
    &&& 0 <= q.start <= MAX_TIME_MICROS
    &&& 0 <= q.end <= MAX_TIME_MICROS
    &&& 1 <= q.step <= MAX_TIME_MICROS
}

/// The number of output points per series the query asks for.
pub open spec fn points_per_series(start: int, end: int, step: int) -> int {
    if end <= start {
        0
    } else {
        (end - start) / step
    }
}

/// The dispatch plan: the ordered node list and the partitions, paired
/// by position (partition `i` goes to node `i`; extra nodes beyond the
/// number of partitions stay unused).
pub struct Plan {
    pub nodes: Vec<Node>,
    pub partitions: Vec<Partition>,
}

/// Validates a query against the configuration and plans its dispatch:
/// orders the healthy nodes, rejects an empty node set and an
/// over-resolved query before any partitioning, then walks the range.
pub fn plan_search(cfg: &SearchConfig, q: &Query, healthy: &Vec<Node>, now: i64) -> (r: Result<
    Plan,
    SearchError,
>)
    requires
        config_wf(*cfg),
        query_wf(*q),
    ensures
        (healthy@.len() == 0) <==> (r matches Err(SearchError::NoWorkersAvailable)),
        (healthy@.len() > 0 && points_per_series(q.start as int, q.end as int, q.step as int)
            > cfg.max_points_per_series) <==> (r matches Err(SearchError::TooManyPoints)),
        r is Ok <==> (healthy@.len() > 0 && points_per_series(
            q.start as int,
            q.end as int,
            q.step as int,
        ) <= cfg.max_points_per_series),
        (r matches Ok(plan) ==> {
            &&& ordered_nodes_post(nodes_view(healthy@), nodes_view(plan.nodes@))
            &&& partitions_wf(
                plan.partitions@,
                q.start as int,
                q.end as int,
                q.step as int,
                cfg.lookback_micros as int,
                plan.nodes@.len() as int,
                now as int,
                cfg.recency_window_micros as int,
            )
            &&& plan.partitions@.len() <= plan.nodes@.len()
        }),
{
    let nodes = order_nodes(healthy);
    if nodes.len() == 0 {
        return Err(SearchError::NoWorkersAvailable);
    }
    if q.end > q.start {
        let pts: u64 = ((q.end - q.start) as u64) / (q.step as u64);
        if pts > cfg.max_points_per_series as u64 {
            return Err(SearchError::TooManyPoints);
        }
    }
    let workers = nodes.len();
    let parts = partition_range(
        q.start,
        q.end,
        q.step,
        cfg.lookback_micros,
        workers,
        now,
        cfg.recency_window_micros,
    );
    Ok(Plan { nodes, partitions: parts })
}

/// Relies on `chrono::Utc::now` and `DateTime::timestamp_micros` for the
/// current wall-clock instant, as microseconds since the Unix epoch;
/// nothing is assumed of the value it returns.
#[verifier::external_body]
fn now_micros() -> i64 {
    chrono::Utc::now().timestamp_micros()
}

/// Plans against the wall clock.  Everything clock-independent is pinned
/// exactly; the recency flags hold for whatever instant the clock
/// returned.
pub fn plan_search_now(cfg: &SearchConfig, q: &Query, healthy: &Vec<Node>) -> (r: Result<
    Plan,
    SearchError,
>)
    requires
        config_wf(*cfg),
        query_wf(*q),
    ensures
        (healthy@.len() == 0) <==> (r matches Err(SearchError::NoWorkersAvailable)),
        (healthy@.len() > 0 && points_per_series(q.start as int, q.end as int, q.step as int)
            > cfg.max_points_per_series) <==> (r matches Err(SearchError::TooManyPoints)),
        r is Ok <==> (healthy@.len() > 0 && points_per_series(
            q.start as int,
            q.end as int,
            q.step as int,
        ) <= cfg.max_points_per_series),
        (r matches Ok(plan) ==> {
            &&& ordered_nodes_post(nodes_view(healthy@), nodes_view(plan.nodes@))
            &&& plan.partitions@.len() <= plan.nodes@.len()
            &&& exists|now: int|
                #[trigger] partitions_wf(
                    plan.partitions@,
                    q.start as int,
                    q.end as int,
                    q.step as int,
                    cfg.lookback_micros as int,
                    plan.nodes@.len() as int,
                    now,
                    cfg.recency_window_micros as int,
                )
        }),
{
    let now = now_micros();
    let r = plan_search(cfg, q, healthy, now);
    proof {
        if r is Ok {
            let plan = r->Ok_0;
            assert(partitions_wf(
                plan.partitions@,
                q.start as int,
                q.end as int,
                q.step as int,
                cfg.lookback_micros as int,
                plan.nodes@.len() as int,
                now as int,
                cfg.recency_window_micros as int,
            ));
        }
    }
    r
}

} // verus!
