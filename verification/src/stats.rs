//! The correlator: pairs each query with its reply, measures how long it
//! took, and keeps rolling statistics for the current window.
//!
//! Times are monotonic and counted in nanoseconds from the moment the
//! collector was made. Every operation that needs the time exists twice:
//! once reading the clocks itself, and once taking the time as an argument,
//! which is where the contract says exactly what happens.
use std::collections::{HashMap, VecDeque};
use std::time::Instant;

use vstd::prelude::*;
use vstd::string::StringExecFns;

use crate::fingerprint::{fingerprint, fingerprint_text};
use crate::clock::{nanos_since, wall_clock_now};
use crate::output::{DisplayEvent, DisplayEventKind, DisplayEventKindView};
use crate::protocol::{ProtoEvent, ProtoEventView, TxStatus};
use crate::text::{truncate, truncated};

verus! {

broadcast use vstd::std_specs::hash::group_hash_axioms;

/// Nanoseconds in a millisecond.
pub const NANOS_PER_MILLI: u64 = 1_000_000;

/// Nanoseconds in a second: the width of the window that [`StatsCollector::qps`]
/// looks back over.
pub const NANOS_PER_SECOND: u64 = 1_000_000_000;

/// The longest prepared SQL text, in bytes, that a warning quotes in full.
pub const WARNING_SQL_LEN: usize = 80;

// ---------------------------------------------------------------------------
// Aggregates per fingerprint
// ---------------------------------------------------------------------------
/// What is known of all completed queries that share one fingerprint.
/// Durations are in nanoseconds.
#[derive(Debug)]
pub struct QueryAggregates {
    pub fingerprint: String,
    pub count: u64,
    pub total_duration: u128,
    pub min_duration: u64,
    pub max_duration: u64,
}

/// The mathematical value of a [`QueryAggregates`].
pub struct AggregateModel {
    pub fingerprint: Seq<char>,
    pub count: u64,
    pub total_duration: u128,
    pub min_duration: u64,
    pub max_duration: u64,
}

impl View for QueryAggregates {
    type V = AggregateModel;

    open spec fn view(&self) -> AggregateModel {
        AggregateModel {
            fingerprint: self.fingerprint@,
            count: self.count,
            total_duration: self.total_duration,
            min_duration: self.min_duration,
            max_duration: self.max_duration,
        }
    }
}

impl Clone for QueryAggregates {
    fn clone(&self) -> (res: Self)
        ensures
            res@ == self@,
    {
        QueryAggregates {
            fingerprint: self.fingerprint.clone(),
            count: self.count,
            total_duration: self.total_duration,
            min_duration: self.min_duration,
            max_duration: self.max_duration,
        }
    }
}

impl AggregateModel {
    /// The aggregate of a fingerprint seen once, with duration `d`.
    pub open spec fn first(fingerprint: Seq<char>, d: u64) -> AggregateModel {
        AggregateModel {
            fingerprint,
            count: 1,
            total_duration: d as u128,
            min_duration: d,
            max_duration: d,
        }
    }

    /// This aggregate after one more query, of duration `d`.
    pub open spec fn observed(self, d: u64) -> AggregateModel {
        AggregateModel {
            fingerprint: self.fingerprint,
            count: (self.count + 1) as u64,
            total_duration: (self.total_duration + d) as u128,
            min_duration: if d < self.min_duration {
                d
            } else {
                self.min_duration
            },
            max_duration: if d > self.max_duration {
                d
            } else {
                self.max_duration
            },
        }
    }

    /// True of an aggregate that counts at least one query and whose total
    /// lies between `count` times the shortest and `count` times the longest
    /// duration.
    pub open spec fn consistent(self) -> bool {
        &&& self.count >= 1
        &&& self.count * self.min_duration <= self.total_duration
        &&& self.total_duration <= self.count * self.max_duration
    }
}

/// The mean duration of a consistent aggregate lies between its shortest
/// and its longest duration.
pub proof fn lemma_mean_within_extremes(a: AggregateModel)
    requires
        a.consistent(),
    ensures
        a.min_duration <= a.total_duration / (a.count as u128) <= a.max_duration,
{
    let c = a.count as int;
    let t = a.total_duration as int;
    let lo = a.min_duration as int;
    let hi = a.max_duration as int;
    assert(lo <= t / c <= hi) by (nonlinear_arith)
        requires
            c >= 1,
            c * lo <= t,
            t <= c * hi,
    ;
}

/// One more observation keeps an aggregate consistent, and its total still
/// fits in 128 bits.
pub proof fn lemma_observed_consistent(a: AggregateModel, d: u64)
    requires
        a.consistent(),
        a.count < u64::MAX,
    ensures
        a.total_duration + d <= u128::MAX,
        a.observed(d).consistent(),
{
    let c = a.count as int;
    let t = a.total_duration as int;
    let lo = a.min_duration as int;
    let hi = a.max_duration as int;
    let x = d as int;
    let lo2 = if x < lo { x } else { lo };
    let hi2 = if x > hi { x } else { hi };
    assert((c + 1) * lo2 <= t + x && t + x <= (c + 1) * hi2) by (nonlinear_arith)
        requires
            c >= 1,
            c * lo <= t,
            t <= c * hi,
            lo2 <= lo,
            lo2 <= x,
            hi2 >= hi,
            hi2 >= x,
            0 <= lo2,
    ;
    assert((c + 1) * hi2 <= u128::MAX) by (nonlinear_arith)
        requires
            1 <= c + 1 <= 0xffff_ffff_ffff_ffff,
            0 <= hi2 <= 0xffff_ffff_ffff_ffff,
    ;
}

// ---------------------------------------------------------------------------
// The counts of one window
// ---------------------------------------------------------------------------
/// The sum of the six latency buckets.
pub open spec fn buckets_sum(buckets: Seq<u64>) -> int {
    buckets[0] + buckets[1] + buckets[2] + buckets[3] + buckets[4] + buckets[5]
}

/// The latency bucket of a duration: under 1 ms, 1 to 5, 5 to 10, 10 to
/// 50, 50 to 100, and 100 ms or more, each without its upper bound.
pub open spec fn latency_bucket(duration: u64) -> int {
    if duration < 1 * NANOS_PER_MILLI {
        0
    } else if duration < 5 * NANOS_PER_MILLI {
        1
    } else if duration < 10 * NANOS_PER_MILLI {
        2
    } else if duration < 50 * NANOS_PER_MILLI {
        3
    } else if duration < 100 * NANOS_PER_MILLI {
        4
    } else {
        5
    }
}

/// True if some aggregate is keyed by `fingerprint`.
pub open spec fn has_fingerprint(aggregates: Seq<AggregateModel>, fingerprint: Seq<char>) -> bool {
    exists|i: int| 0 <= i < aggregates.len() && #[trigger] aggregates[i].fingerprint == fingerprint
}

/// The position of an aggregate keyed by `fingerprint`.
pub open spec fn fingerprint_position(
    aggregates: Seq<AggregateModel>,
    fingerprint: Seq<char>,
) -> int {
    choose|i: int| 0 <= i < aggregates.len() && #[trigger] aggregates[i].fingerprint == fingerprint
}

/// True if no two aggregates share a fingerprint.
pub open spec fn distinct_fingerprints(aggregates: Seq<AggregateModel>) -> bool {
    forall|i: int, j: int|
        0 <= i < aggregates.len() && 0 <= j < aggregates.len() && i != j
            ==> aggregates[i].fingerprint != aggregates[j].fingerprint
}

/// The aggregates after a query with fingerprint `fingerprint` took `d`
/// nanoseconds. A fingerprint seen before has its aggregate updated in
/// place; a new one is added at the end, so the list stays in the order in
/// which the fingerprints were first seen.
pub open spec fn aggregates_with(
    aggregates: Seq<AggregateModel>,
    fingerprint: Seq<char>,
    d: u64,
) -> Seq<AggregateModel> {
    if has_fingerprint(aggregates, fingerprint) {
        let i = fingerprint_position(aggregates, fingerprint);
        aggregates.update(i, aggregates[i].observed(d))
    } else {
        aggregates.push(AggregateModel::first(fingerprint, d))
    }
}

/// The histogram after one more query fell into bucket `bucket`.
pub open spec fn buckets_with(buckets: Seq<u64>, bucket: int) -> Seq<u64> {
    buckets.update(bucket, (buckets[bucket] + 1) as u64)
}

/// What holds of the counts of a window at all times: the six buckets add
/// up to the number of queries, no fingerprint has two aggregates, and every
/// aggregate is consistent and counts no more queries than the window.
pub open spec fn counts_consistent(
    aggregates: Seq<AggregateModel>,
    buckets: Seq<u64>,
    total_queries: u64,
) -> bool {
    &&& buckets.len() == 6
    &&& buckets_sum(buckets) == total_queries
    &&& distinct_fingerprints(aggregates)
    &&& forall|i: int|
        0 <= i < aggregates.len() ==> (#[trigger] aggregates[i]).consistent() && aggregates[i].count
            <= total_queries
}

/// Counting one more query keeps the counts consistent.
pub proof fn lemma_counting_keeps_consistent(
    aggregates: Seq<AggregateModel>,
    buckets: Seq<u64>,
    total_queries: u64,
    fingerprint: Seq<char>,
    d: u64,
)
    requires
        counts_consistent(aggregates, buckets, total_queries),
        total_queries < u64::MAX,
    ensures
        counts_consistent(
            aggregates_with(aggregates, fingerprint, d),
            buckets_with(buckets, latency_bucket(d)),
            (total_queries + 1) as u64,
        ),
        buckets[latency_bucket(d)] < u64::MAX,
{
    let after = aggregates_with(aggregates, fingerprint, d);
    if has_fingerprint(aggregates, fingerprint) {
        let i = fingerprint_position(aggregates, fingerprint);
        lemma_observed_consistent(aggregates[i], d);
        assert forall|k: int| 0 <= k < after.len() implies (#[trigger] after[k]).consistent()
            && after[k].count <= total_queries + 1 by {
            if k != i {
                assert(after[k] == aggregates[k]);
            }
        }
        assert forall|a: int, b: int|
            0 <= a < after.len() && 0 <= b < after.len() && a != b implies after[a].fingerprint
            != after[b].fingerprint by {
            assert(after[a].fingerprint == aggregates[a].fingerprint);
            assert(after[b].fingerprint == aggregates[b].fingerprint);
        }
    } else {
        assert forall|k: int| 0 <= k < after.len() implies (#[trigger] after[k]).consistent()
            && after[k].count <= total_queries + 1 by {
            if k < aggregates.len() {
                assert(after[k] == aggregates[k]);
            } else {
                assert(1 * d == d) by (nonlinear_arith);
            }
        }
        assert forall|a: int, b: int|
            0 <= a < after.len() && 0 <= b < after.len() && a != b implies after[a].fingerprint
            != after[b].fingerprint by {
            if a < aggregates.len() {
                assert(after[a].fingerprint == aggregates[a].fingerprint);
            }
            if b < aggregates.len() {
                assert(after[b].fingerprint == aggregates[b].fingerprint);
            }
        }
    }
}

/// The counts of one statistics window: an aggregate per fingerprint, in
/// the order in which the fingerprints were first seen, the latency
/// histogram, and the number of completed queries.
struct Tally {
    aggregates: Vec<QueryAggregates>,
    latency_buckets: [u64; 6],
    total_queries: u64,
}

/// The models of a list of aggregates.
pub open spec fn aggregate_models(aggregates: Seq<QueryAggregates>) -> Seq<AggregateModel> {
    Seq::new(aggregates.len(), |i: int| aggregates[i]@)
}

impl Tally {
    /// The counts are consistent at all times.
    #[verifier::type_invariant]
    spec fn well_formed(self) -> bool {
        counts_consistent(
            aggregate_models(self.aggregates@),
            self.latency_buckets@,
            self.total_queries,
        )
    }

    /// The models of the aggregates, in order.
    spec fn aggregates(self) -> Seq<AggregateModel> {
        aggregate_models(self.aggregates@)
    }

    /// The six latency buckets.
    spec fn buckets(self) -> Seq<u64> {
        self.latency_buckets@
    }

    /// An empty window.
    fn new() -> (t: Tally)
        ensures
            t.aggregates() == Seq::<AggregateModel>::empty(),
            t.buckets() == seq![0u64, 0u64, 0u64, 0u64, 0u64, 0u64],
            t.total_queries == 0,
    {
        let t = Tally { aggregates: Vec::new(), latency_buckets: [0u64;6], total_queries: 0 };
        assert(t.aggregates() =~= Seq::<AggregateModel>::empty());
        assert(t.buckets() =~= seq![0u64, 0u64, 0u64, 0u64, 0u64, 0u64]);
        t
    }

    /// Picks the latency bucket of `duration`.
    fn bucket_of(duration: u64) -> (bucket: usize)
        ensures
            bucket == latency_bucket(duration),
            bucket < 6,
    {
        if duration < 1 * NANOS_PER_MILLI {
            0
        } else if duration < 5 * NANOS_PER_MILLI {
            1
        } else if duration < 10 * NANOS_PER_MILLI {
            2
        } else if duration < 50 * NANOS_PER_MILLI {
            3
        } else if duration < 100 * NANOS_PER_MILLI {
            4
        } else {
            5
        }
    }

    /// The position of the aggregate keyed by `fingerprint`, if there is one.
    fn find(aggregates: &Vec<QueryAggregates>, fingerprint: &String) -> (res: Option<usize>)
        ensures
            match res {
                Some(i) => i < aggregates@.len() && aggregates@[i as int].fingerprint@
                    == fingerprint@,
                None => !has_fingerprint(aggregate_models(aggregates@), fingerprint@),
            },
    {
        let mut i: usize = 0;
        while i < aggregates.len()
            invariant
                i <= aggregates@.len(),
                forall|k: int| 0 <= k < i ==> aggregates@[k].fingerprint@ != fingerprint@,
            decreases aggregates@.len() - i,
        {
            if aggregates[i].fingerprint == *fingerprint {
                return Some(i);
            }
            i = i + 1;
        }
        proof {
            let models = aggregate_models(aggregates@);
            if has_fingerprint(models, fingerprint@) {
                let k = fingerprint_position(models, fingerprint@);
                assert(models[k].fingerprint == aggregates@[k].fingerprint@);
            }
        }
        None
    }

    /// Counts one completed query: its latency bucket, its fingerprint's
    /// aggregate, and the total.
    fn record(&mut self, sql: &str, duration: u64)
        requires
            old(self).total_queries < u64::MAX,
        ensures
            final(self).aggregates() == aggregates_with(
                old(self).aggregates(),
                fingerprint_text(sql@),
                duration,
            ),
            final(self).buckets() == buckets_with(old(self).buckets(), latency_bucket(duration)),
            final(self).total_queries == old(self).total_queries + 1,
    {
        proof {
            use_type_invariant(&*self);
        }
        let key = fingerprint(sql);
        let ghost before = self.aggregates();
        let ghost after = aggregates_with(before, key@, duration);
        proof {
            lemma_counting_keeps_consistent(
                before,
                self.latency_buckets@,
                self.total_queries,
                key@,
                duration,
            );
        }
        let mut aggregates: Vec<QueryAggregates> = Vec::new();
        core::mem::swap(&mut self.aggregates, &mut aggregates);
        assert(aggregate_models(aggregates@) == before);
        match Tally::find(&aggregates, &key) {
            Some(i) => {
                proof {
                    assert(before[i as int].fingerprint == key@);
                    let p = fingerprint_position(before, key@);
                    assert(before[p].fingerprint == key@);
                    assert(p == i);
                    lemma_observed_consistent(before[i as int], duration);
                }
                let seen = &aggregates[i];
                let updated = QueryAggregates {
                    fingerprint: key,
                    count: seen.count + 1,
                    total_duration: seen.total_duration + duration as u128,
                    min_duration: if duration < seen.min_duration {
                        duration
                    } else {
                        seen.min_duration
                    },
                    max_duration: if duration > seen.max_duration {
                        duration
                    } else {
                        seen.max_duration
                    },
                };
                aggregates[i] = updated;
            },
            None => {
                aggregates.push(
                    QueryAggregates {
                        fingerprint: key,
                        count: 1,
                        total_duration: duration as u128,
                        min_duration: duration,
                        max_duration: duration,
                    },
                );
            },
        }
        assert(aggregate_models(aggregates@) =~= after);
        let bucket = Tally::bucket_of(duration);
        let mut buckets = self.latency_buckets;
        buckets[bucket] = buckets[bucket] + 1;
        assert(buckets@ =~= buckets_with(self.latency_buckets@, bucket as int));
        *self = Tally {
            aggregates,
            latency_buckets: buckets,
            total_queries: self.total_queries + 1,
        };
    }

    /// Forgets everything.
    fn clear(&mut self)
        ensures
            final(self).aggregates() == Seq::<AggregateModel>::empty(),
            final(self).buckets() == seq![0u64, 0u64, 0u64, 0u64, 0u64, 0u64],
            final(self).total_queries == 0,
    {
        *self = Tally::new();
    }
}

// ---------------------------------------------------------------------------
// Connections and pending queries
// ---------------------------------------------------------------------------
/// A query that was started and has not been answered yet.
pub struct PendingQuery {
    pub sql: String,
    /// When the query was started, in nanoseconds of monotonic time.
    pub started_at: u64,
}

/// The mathematical value of a [`PendingQuery`].
pub struct PendingModel {
    pub sql: Seq<char>,
    pub started_at: u64,
}

impl View for PendingQuery {
    type V = PendingModel;

    open spec fn view(&self) -> PendingModel {
        PendingModel { sql: self.sql@, started_at: self.started_at }
    }
}

/// What the collector knows of one connection: its queries that await a
/// reply, oldest first, and whether it is inside a transaction.
pub struct ConnState {
    pub pending_queries: VecDeque<PendingQuery>,
    pub in_transaction: bool,
}

/// The mathematical value of a [`ConnState`].
#[verifier::ext_equal]
pub struct ConnModel {
    pub pending: Seq<PendingModel>,
    pub in_transaction: bool,
}

impl View for ConnState {
    type V = ConnModel;

    open spec fn view(&self) -> ConnModel {
        ConnModel {
            pending: Seq::new(self.pending_queries@.len(), |i: int| self.pending_queries@[i]@),
            in_transaction: self.in_transaction,
        }
    }
}

impl ConnModel {
    /// A connection on which nothing is pending.
    pub open spec fn fresh() -> ConnModel {
        ConnModel { pending: Seq::empty(), in_transaction: false }
    }
}

// ---------------------------------------------------------------------------
// The collector and its model
// ---------------------------------------------------------------------------
/// The mathematical value of a [`StatsCollector`].
#[verifier::ext_equal]
pub struct StatsModel {
    /// The connections that are known, by id.
    pub connections: Map<u64, ConnModel>,
    /// One aggregate per fingerprint, in the order of first sight.
    pub aggregates: Seq<AggregateModel>,
    /// The six latency buckets.
    pub latency_buckets: Seq<u64>,
    pub total_queries: u64,
    pub total_errors: u64,
    pub active_connections: u64,
    /// The completion times that [`StatsCollector::qps`] counts, oldest first.
    pub qps_window: Seq<u64>,
    pub first_query_at: Option<u64>,
    pub last_query_at: Option<u64>,
}

impl StatsModel {
    /// The collector before anything has happened.
    pub open spec fn initial() -> StatsModel {
        StatsModel {
            connections: Map::empty(),
            aggregates: Seq::empty(),
            latency_buckets: seq![0u64, 0u64, 0u64, 0u64, 0u64, 0u64],
            total_queries: 0,
            total_errors: 0,
            active_connections: 0,
            qps_window: Seq::empty(),
            first_query_at: None,
            last_query_at: None,
        }
    }

    /// What holds of every collector: the counts of its window are
    /// consistent.
    pub open spec fn consistent(self) -> bool {
        counts_consistent(self.aggregates, self.latency_buckets, self.total_queries)
    }

    /// The state of connection `conn_id`, or a fresh one if it is unknown.
    pub open spec fn connection(self, conn_id: u64) -> ConnModel {
        if self.connections.contains_key(conn_id) {
            self.connections[conn_id]
        } else {
            ConnModel::fresh()
        }
    }

    /// The oldest pending query of connection `conn_id`, if it has one.
    pub open spec fn head(self, conn_id: u64) -> Option<PendingModel> {
        if self.connections.contains_key(conn_id) && self.connections[conn_id].pending.len() > 0 {
            Some(self.connections[conn_id].pending[0])
        } else {
            None
        }
    }

    /// This state with the oldest pending query of `conn_id` removed, if it
    /// has one.
    pub open spec fn without_head(self, conn_id: u64) -> StatsModel {
        if self.head(conn_id) is Some {
            StatsModel {
                connections: self.connections.insert(
                    conn_id,
                    ConnModel {
                        pending: self.connections[conn_id].pending.drop_first(),
                        ..self.connections[conn_id]
                    },
                ),
                ..self
            }
        } else {
            self
        }
    }

    /// This state after a query with text `sql` that took `duration`
    /// completed at `now`. A window that has counted `u64::MAX` queries is
    /// full and takes no more.
    pub open spec fn recorded(self, sql: Seq<char>, duration: u64, now: u64) -> StatsModel {
        if self.total_queries < u64::MAX {
            StatsModel {
                aggregates: aggregates_with(self.aggregates, fingerprint_text(sql), duration),
                latency_buckets: buckets_with(self.latency_buckets, latency_bucket(duration)),
                total_queries: (self.total_queries + 1) as u64,
                qps_window: self.qps_window.push(now),
                first_query_at: if self.first_query_at is None {
                    Some(now)
                } else {
                    self.first_query_at
                },
                last_query_at: Some(now),
                ..self
            }
        } else {
            self
        }
    }
}

/// The time from `started_at` to `now`; zero where the clock went back.
pub open spec fn elapsed(now: u64, started_at: u64) -> u64 {
    if now >= started_at {
        (now - started_at) as u64
    } else {
        0
    }
}

/// `n + 1`, or `n` where that does not fit in 64 bits.
pub open spec fn saturating_succ(n: u64) -> u64 {
    if n < u64::MAX {
        (n + 1) as u64
    } else {
        n
    }
}

/// `n - 1`, or zero where `n` is zero.
pub open spec fn saturating_pred(n: u64) -> u64 {
    if n > 0 {
        (n - 1) as u64
    } else {
        0
    }
}

/// True of the severities that are reported as errors: `ERROR` and `FATAL`.
pub open spec fn is_error_severity(severity: Seq<char>) -> bool {
    severity == "ERROR"@ || severity == "FATAL"@
}

/// The text of the warning that a `Parse` of `sql` gives.
pub open spec fn parse_warning(sql: Seq<char>) -> Seq<char> {
    "Extended query protocol: "@ + truncated(sql, WARNING_SQL_LEN as int)
}

/// The collector's state after the protocol event `event` on connection
/// `conn_id` at time `now`.
pub open spec fn state_after_event(
    m: StatsModel,
    conn_id: u64,
    event: ProtoEventView,
    now: u64,
) -> StatsModel {
    match event {
        ProtoEventView::QueryStart { sql } => StatsModel {
            connections: m.connections.insert(
                conn_id,
                ConnModel {
                    pending: m.connection(conn_id).pending.push(
                        PendingModel { sql, started_at: now },
                    ),
                    ..m.connection(conn_id)
                },
            ),
            ..m
        },
        ProtoEventView::QueryComplete { tag, rows } => match m.head(conn_id) {
            Some(query) => m.without_head(conn_id).recorded(
                query.sql,
                elapsed(now, query.started_at),
                now,
            ),
            None => m,
        },
        ProtoEventView::QueryError { severity, code, message } => StatsModel {
            total_errors: saturating_succ(m.total_errors),
            ..m.without_head(conn_id)
        },
        ProtoEventView::ConnectionReady { status } => if m.connections.contains_key(conn_id) {
            StatsModel {
                connections: m.connections.insert(
                    conn_id,
                    ConnModel {
                        pending: Seq::empty(),
                        in_transaction: status == TxStatus::InTransaction,
                    },
                ),
                ..m
            }
        } else {
            m
        },
        ProtoEventView::ConnectionClosed => StatsModel {
            connections: m.connections.remove(conn_id),
            active_connections: saturating_pred(m.active_connections),
            ..m
        },
        ProtoEventView::ParseDetected { sql } => m,
        ProtoEventView::Unknown { tag } => m,
    }
}

/// What the collector reports for the protocol event `event` on connection
/// `conn_id` at time `now`, if anything.
pub open spec fn display_for_event(
    m: StatsModel,
    conn_id: u64,
    event: ProtoEventView,
    now: u64,
) -> Option<DisplayEventKindView> {
    match event {
        ProtoEventView::QueryStart { sql } => None,
        ProtoEventView::QueryComplete { tag, rows } => match m.head(conn_id) {
            Some(query) => Some(
                DisplayEventKindView::Query {
                    sql: query.sql,
                    duration: elapsed(now, query.started_at),
                    rows,
                },
            ),
            None => None,
        },
        ProtoEventView::QueryError { severity, code, message } => if is_error_severity(severity) {
            Some(
                DisplayEventKindView::Error {
                    sql: match m.head(conn_id) {
                        Some(query) => Some(query.sql),
                        None => None,
                    },
                    duration: match m.head(conn_id) {
                        Some(query) => Some(elapsed(now, query.started_at)),
                        None => None,
                    },
                    code,
                    message,
                },
            )
        } else {
            None
        },
        ProtoEventView::ConnectionReady { status } => None,
        ProtoEventView::ConnectionClosed => Some(DisplayEventKindView::ConnectionClosed),
        ProtoEventView::ParseDetected { sql } => Some(
            DisplayEventKindView::Warning(parse_warning(sql)),
        ),
        ProtoEventView::Unknown { tag } => None,
    }
}

/// The collector's state after connection `conn_id` was opened.
pub open spec fn state_after_open(m: StatsModel, conn_id: u64) -> StatsModel {
    StatsModel {
        connections: m.connections.insert(conn_id, ConnModel::fresh()),
        active_connections: saturating_succ(m.active_connections),
        ..m
    }
}

/// The collector's state after connection `conn_id` went away. A connection
/// that is not known, because it was never opened or has said goodbye
/// already, changes nothing.
pub open spec fn state_after_drop(m: StatsModel, conn_id: u64) -> StatsModel {
    if m.connections.contains_key(conn_id) {
        StatsModel {
            connections: m.connections.remove(conn_id),
            active_connections: saturating_pred(m.active_connections),
            ..m
        }
    } else {
        m
    }
}

/// The number of entries at the head of `window` that are a second or more
/// older than `now`.
pub open spec fn expired_prefix_len(window: Seq<u64>, now: u64) -> int
    decreases window.len(),
{
    if window.len() > 0 && window[0] + NANOS_PER_SECOND <= now {
        1 + expired_prefix_len(window.drop_first(), now)
    } else {
        0
    }
}

/// The collector's state after the rate was asked for at `now`: the
/// entries at the head of the window that have expired are gone.
pub open spec fn state_after_qps(m: StatsModel, now: u64) -> StatsModel {
    StatsModel { qps_window: m.qps_window.skip(expired_prefix_len(m.qps_window, now)), ..m }
}

/// The collector's state after a reset: a fresh window, with the
/// connections and their count as they were.
pub open spec fn state_after_reset(m: StatsModel) -> StatsModel {
    StatsModel {
        connections: m.connections,
        active_connections: m.active_connections,
        ..StatsModel::initial()
    }
}

/// The models of the connections in a table.
pub open spec fn connection_models(connections: Map<u64, ConnState>) -> Map<u64, ConnModel> {
    Map::new(|id: u64| connections.contains_key(id), |id: u64| connections[id]@)
}

/// True if `res` is the display event of kind `kind` for connection
/// `conn_id`, stamped `wall_time`; or nothing, where `kind` is nothing.
pub open spec fn reports(
    res: Option<DisplayEvent>,
    conn_id: u64,
    wall_time: chrono::NaiveDateTime,
    kind: Option<DisplayEventKindView>,
) -> bool {
    match kind {
        Some(k) => res is Some && res->0.conn_id == conn_id && res->0.wall_time == wall_time
            && res->0.kind@ == k,
        None => res is None,
    }
}

/// The single owner of all statistics. It is fed protocol events, each
/// tagged with the id of its connection, and the opening and closing of
/// connections; it hands back what is to be displayed.
pub struct StatsCollector {
    connections: HashMap<u64, ConnState>,
    tally: Tally,
    total_errors: u64,
    active_connections: u64,
    qps_window: VecDeque<u64>,
    first_query_at: Option<u64>,
    last_query_at: Option<u64>,
    origin: Instant,
}

impl View for StatsCollector {
    type V = StatsModel;

    closed spec fn view(&self) -> StatsModel {
        StatsModel {
            connections: connection_models(self.connections@),
            aggregates: self.tally.aggregates(),
            latency_buckets: self.tally.buckets(),
            total_queries: self.tally.total_queries,
            total_errors: self.total_errors,
            active_connections: self.active_connections,
            qps_window: self.qps_window@,
            first_query_at: self.first_query_at,
            last_query_at: self.last_query_at,
        }
    }
}

impl StatsCollector {
    /// A collector that has seen nothing. Its monotonic time starts now.
    pub fn new() -> (stats: StatsCollector)
        ensures
            stats@ == StatsModel::initial(),
    {
        let stats = StatsCollector {
            connections: HashMap::new(),
            tally: Tally::new(),
            total_errors: 0,
            active_connections: 0,
            qps_window: VecDeque::new(),
            first_query_at: None,
            last_query_at: None,
            origin: Instant::now(),
        };
        assert(stats@.connections =~= Map::<u64, ConnModel>::empty());
        assert(stats@ =~= StatsModel::initial());
        stats
    }

    /// Starts a fresh measurement window: aggregates, histogram, counters
    /// and rate window are cleared. The connections, with their pending
    /// queries, and the number of active connections stay.
    pub fn reset(&mut self)
        ensures
            final(self)@ == state_after_reset(old(self)@),
    {
        self.tally.clear();
        self.total_errors = 0;
        self.qps_window.clear();
        self.first_query_at = None;
        self.last_query_at = None;
        assert(self@ =~= state_after_reset(old(self)@));
    }

    /// Takes the state of connection `conn_id` out of the table, or makes a
    /// fresh one where the connection is unknown.
    fn ensure_conn(&mut self, conn_id: u64) -> (conn: ConnState)
        ensures
            conn@ == old(self)@.connection(conn_id),
            final(self).connections@ == old(self).connections@.remove(conn_id),
            final(self).tally == old(self).tally,
            final(self).total_errors == old(self).total_errors,
            final(self).active_connections == old(self).active_connections,
            final(self).qps_window == old(self).qps_window,
            final(self).first_query_at == old(self).first_query_at,
            final(self).last_query_at == old(self).last_query_at,
    {
        match self.connections.remove(&conn_id) {
            Some(conn) => conn,
            None => {
                let conn = ConnState { pending_queries: VecDeque::new(), in_transaction: false };
                assert(conn@ =~= ConnModel::fresh());
                conn
            },
        }
    }
}

impl StatsCollector {
    /// Puts the state of connection `conn_id` into the table.
    fn store_conn(&mut self, conn_id: u64, conn: ConnState)
        ensures
            final(self).connections@ == old(self).connections@.insert(conn_id, conn),
            final(self)@.connections == old(self)@.connections.insert(conn_id, conn@),
            final(self).tally == old(self).tally,
            final(self).total_errors == old(self).total_errors,
            final(self).active_connections == old(self).active_connections,
            final(self).qps_window == old(self).qps_window,
            final(self).first_query_at == old(self).first_query_at,
            final(self).last_query_at == old(self).last_query_at,
    {
        self.connections.insert(conn_id, conn);
        assert(self@.connections =~= old(self)@.connections.insert(conn_id, conn@));
    }

    /// Takes the oldest pending query of connection `conn_id`, if any.
    fn pop_pending(&mut self, conn_id: u64) -> (res: Option<PendingQuery>)
        ensures
            match res {
                Some(query) => old(self)@.head(conn_id) == Some(query@),
                None => old(self)@.head(conn_id) is None,
            },
            final(self)@ == old(self)@.without_head(conn_id),
            final(self).tally == old(self).tally,
    {
        let found = self.connections.remove(&conn_id);
        match found {
            Some(conn) => {
                let mut conn = conn;
                let ghost before = conn@;
                let head = conn.pending_queries.pop_front();
                proof {
                    if head is Some {
                        assert(conn@.pending =~= before.pending.drop_first());
                    } else {
                        assert(conn@ =~= before);
                    }
                }
                self.store_conn(conn_id, conn);
                proof {
                    if head is None {
                        assert(self@.connections =~= old(self)@.connections);
                    }
                    assert(self@ =~= old(self)@.without_head(conn_id));
                }
                head
            },
            None => {
                assert(self@.connections =~= old(self)@.connections);
                assert(self@ =~= old(self)@);
                None
            },
        }
    }

    /// Handles a protocol event on connection `conn_id` that happened at
    /// monotonic time `now`. What is handed back, if anything, is stamped
    /// with `wall_time`.
    ///
    /// A query start joins the connection's queue. A completion takes the
    /// oldest pending query off the queue, measures it and counts it. An
    /// error response takes the oldest pending query off the queue too, and
    /// is reported if its severity is `ERROR` or `FATAL`. `ReadyForQuery`
    /// clears the queue. A `Parse` gives a warning and joins no queue.
    pub fn process_event_at(
        &mut self,
        conn_id: u64,
        event: ProtoEvent,
        now: u64,
        wall_time: chrono::NaiveDateTime,
    ) -> (res: Option<DisplayEvent>)
        ensures
            final(self)@ == state_after_event(old(self)@, conn_id, event@, now),
            reports(res, conn_id, wall_time, display_for_event(old(self)@, conn_id, event@, now)),
    {
        match event {
            ProtoEvent::QueryStart { sql } => {
                let mut conn = self.ensure_conn(conn_id);
                let ghost before = conn@;
                conn.pending_queries.push_back(PendingQuery { sql, started_at: now });
                proof {
                    assert(conn@.pending =~= before.pending.push(
                        PendingModel { sql: sql@, started_at: now },
                    ));
                }
                self.store_conn(conn_id, conn);
                proof {
                    assert(self@.connections =~= old(self)@.connections.insert(conn_id, conn@));
                    assert(self@ =~= state_after_event(old(self)@, conn_id, event@, now));
                }
                None
            },
            ProtoEvent::ParseDetected { sql } => {
                let mut text = String::from_str("Extended query protocol: ");
                let quoted = truncate(sql.as_str(), WARNING_SQL_LEN);
                text.append(quoted.as_str());
                Some(DisplayEvent { wall_time, conn_id, kind: DisplayEventKind::Warning(text) })
            },
            ProtoEvent::QueryComplete { tag, rows } => {
                match self.pop_pending(conn_id) {
                    Some(query) => {
                        let duration = if now >= query.started_at {
                            now - query.started_at
                        } else {
                            0
                        };
                        if self.tally.total_queries < u64::MAX {
                            self.tally.record(query.sql.as_str(), duration);
                            self.qps_window.push_back(now);
                            if self.first_query_at.is_none() {
                                self.first_query_at = Some(now);
                            }
                            self.last_query_at = Some(now);
                        }
                        proof {
                            assert(self@ =~= state_after_event(old(self)@, conn_id, event@, now));
                        }
                        Some(
                            DisplayEvent {
                                wall_time,
                                conn_id,
                                kind: DisplayEventKind::Query { sql: query.sql, duration, rows },
                            },
                        )
                    },
                    None => None,
                }
            },
            ProtoEvent::QueryError { severity, code, message } => {
                if self.total_errors < u64::MAX {
                    self.total_errors = self.total_errors + 1;
                }
                let failed = self.pop_pending(conn_id);
                proof {
                    assert(self@ =~= state_after_event(old(self)@, conn_id, event@, now));
                }
                let is_error = severity == String::from_str("ERROR") || severity
                    == String::from_str("FATAL");
                if is_error {
                    let (sql, duration) = match failed {
                        Some(query) => {
                            let duration = if now >= query.started_at {
                                now - query.started_at
                            } else {
                                0
                            };
                            (Some(query.sql), Some(duration))
                        },
                        None => (None, None),
                    };
                    Some(
                        DisplayEvent {
                            wall_time,
                            conn_id,
                            kind: DisplayEventKind::Error { sql, duration, code, message },
                        },
                    )
                } else {
                    None
                }
            },
            ProtoEvent::ConnectionReady { status } => {
                match self.connections.remove(&conn_id) {
                    Some(conn) => {
                        let mut conn = conn;
                        conn.in_transaction = status == TxStatus::InTransaction;
                        conn.pending_queries.clear();
                        proof {
                            assert(conn@ =~= ConnModel {
                                pending: Seq::empty(),
                                in_transaction: status == TxStatus::InTransaction,
                            });
                        }
                        self.store_conn(conn_id, conn);
                        proof {
                            assert(self@.connections =~= old(self)@.connections.insert(
                                conn_id,
                                conn@,
                            ));
                            assert(self@ =~= state_after_event(old(self)@, conn_id, event@, now));
                        }
                    },
                    None => {
                        proof {
                            assert(self@.connections =~= old(self)@.connections);
                            assert(self@ =~= old(self)@);
                        }
                    },
                }
                None
            },
            ProtoEvent::ConnectionClosed => {
                self.connections.remove(&conn_id);
                if self.active_connections > 0 {
                    self.active_connections = self.active_connections - 1;
                }
                proof {
                    assert(self@.connections =~= old(self)@.connections.remove(conn_id));
                    assert(self@ =~= state_after_event(old(self)@, conn_id, event@, now));
                }
                Some(
                    DisplayEvent { wall_time, conn_id, kind: DisplayEventKind::ConnectionClosed },
                )
            },
            ProtoEvent::Unknown { tag } => None,
        }
    }
}

impl StatsCollector {
    /// Handles a protocol event on connection `conn_id` now: reads the
    /// monotonic clock and the wall clock, and does what
    /// [`StatsCollector::process_event_at`] does with the two readings.
    pub fn process_event(&mut self, conn_id: u64, event: ProtoEvent) -> (res: Option<DisplayEvent>)
        ensures
            exists|now: u64, wall_time: chrono::NaiveDateTime|
                #![trigger reports(res, conn_id, wall_time, display_for_event(old(self)@, conn_id, event@, now))]
                final(self)@ == state_after_event(old(self)@, conn_id, event@, now) && reports(
                    res,
                    conn_id,
                    wall_time,
                    display_for_event(old(self)@, conn_id, event@, now),
                ),
    {
        let now = nanos_since(&self.origin);
        let wall_time = wall_clock_now();
        let ghost shown = display_for_event(self@, conn_id, event@, now);
        let res = self.process_event_at(conn_id, event, now, wall_time);
        assert(reports(res, conn_id, wall_time, shown));
        res
    }

    /// Notes that connection `conn_id` was opened, and reports it with the
    /// stamp `wall_time`. The connection starts with an empty queue, even
    /// where the id was known before.
    pub fn connection_opened_at(&mut self, conn_id: u64, wall_time: chrono::NaiveDateTime) -> (res:
        DisplayEvent)
        ensures
            final(self)@ == state_after_open(old(self)@, conn_id),
            res.conn_id == conn_id,
            res.wall_time == wall_time,
            res.kind@ == DisplayEventKindView::ConnectionOpened,
    {
        if self.active_connections < u64::MAX {
            self.active_connections = self.active_connections + 1;
        }
        let conn = ConnState { pending_queries: VecDeque::new(), in_transaction: false };
        assert(conn@ =~= ConnModel::fresh());
        self.store_conn(conn_id, conn);
        assert(self@ =~= state_after_open(old(self)@, conn_id));
        DisplayEvent { wall_time, conn_id, kind: DisplayEventKind::ConnectionOpened }
    }

    /// Notes that connection `conn_id` was opened, and reports it with the
    /// wall clock's time.
    pub fn connection_opened(&mut self, conn_id: u64) -> (res: DisplayEvent)
        ensures
            final(self)@ == state_after_open(old(self)@, conn_id),
            res.conn_id == conn_id,
            res.kind@ == DisplayEventKindView::ConnectionOpened,
    {
        self.connection_opened_at(conn_id, wall_clock_now())
    }

    /// Notes that connection `conn_id` went away. A connection that is still
    /// known is forgotten and reported closed, with the stamp `wall_time`; of
    /// one that is not, nothing is reported.
    pub fn connection_dropped_at(&mut self, conn_id: u64, wall_time: chrono::NaiveDateTime) -> (res:
        Option<DisplayEvent>)
        ensures
            final(self)@ == state_after_drop(old(self)@, conn_id),
            reports(
                res,
                conn_id,
                wall_time,
                if old(self)@.connections.contains_key(conn_id) {
                    Some(DisplayEventKindView::ConnectionClosed)
                } else {
                    None
                },
            ),
    {
        match self.connections.remove(&conn_id) {
            Some(_) => {
                if self.active_connections > 0 {
                    self.active_connections = self.active_connections - 1;
                }
                proof {
                    assert(self@.connections =~= old(self)@.connections.remove(conn_id));
                    assert(self@ =~= state_after_drop(old(self)@, conn_id));
                }
                Some(
                    DisplayEvent { wall_time, conn_id, kind: DisplayEventKind::ConnectionClosed },
                )
            },
            None => {
                proof {
                    assert(self@.connections =~= old(self)@.connections);
                    assert(self@ =~= old(self)@);
                }
                None
            },
        }
    }

    /// Notes that connection `conn_id` went away, and reports it, where it
    /// was still known, with the wall clock's time.
    pub fn connection_dropped(&mut self, conn_id: u64) -> (res: Option<DisplayEvent>)
        ensures
            final(self)@ == state_after_drop(old(self)@, conn_id),
            res is Some <==> old(self)@.connections.contains_key(conn_id),
            res matches Some(event) ==> event.conn_id == conn_id && event.kind@
                == DisplayEventKindView::ConnectionClosed,
    {
        self.connection_dropped_at(conn_id, wall_clock_now())
    }

    /// The number of queries that completed in the second before `now`:
    /// drops the entries at the head of the window that are a second old or
    /// older, and counts what is left.
    pub fn qps_at(&mut self, now: u64) -> (rate: u64)
        ensures
            final(self)@ == state_after_qps(old(self)@, now),
            rate == final(self)@.qps_window.len(),
    {
        let ghost window = self.qps_window@;
        let ghost mut dropped: int = 0;
        while self.qps_window.len() > 0 && now >= NANOS_PER_SECOND && self.qps_window[0] <= now
            - NANOS_PER_SECOND
            invariant
                0 <= dropped <= window.len(),
                self.qps_window@ == window.skip(dropped),
                expired_prefix_len(window, now) == dropped + expired_prefix_len(
                    self.qps_window@,
                    now,
                ),
                self.connections == old(self).connections,
                self.tally == old(self).tally,
                self.total_errors == old(self).total_errors,
                self.active_connections == old(self).active_connections,
                self.first_query_at == old(self).first_query_at,
                self.last_query_at == old(self).last_query_at,
            decreases self.qps_window@.len(),
        {
            let ghost before = self.qps_window@;
            self.qps_window.pop_front();
            proof {
                assert(self.qps_window@ =~= before.drop_first());
                assert(before.drop_first() =~= window.skip(dropped + 1));
                dropped = dropped + 1;
            }
        }
        proof {
            assert(self@ =~= state_after_qps(old(self)@, now));
        }
        self.qps_window.len() as u64
    }

    /// The number of queries that completed in the last second, by the
    /// monotonic clock.
    pub fn qps(&mut self) -> (rate: u64)
        ensures
            exists|now: u64| final(self)@ == #[trigger] state_after_qps(old(self)@, now),
            rate == final(self)@.qps_window.len(),
    {
        let now = nanos_since(&self.origin);
        self.qps_at(now)
    }
}

// ---------------------------------------------------------------------------
// Ranking
// ---------------------------------------------------------------------------
/// True if the aggregate at `i` comes before the one at `j` in the ranking:
/// it has the larger total duration, or the same and was seen first.
pub open spec fn ranks_before(aggregates: Seq<AggregateModel>, i: int, j: int) -> bool {
    aggregates[i].total_duration > aggregates[j].total_duration || (aggregates[i].total_duration
        == aggregates[j].total_duration && i < j)
}

/// The ranked positions `order` with position `i` put in its place: behind
/// the last position that ranks before it.
pub open spec fn insert_ranked(
    aggregates: Seq<AggregateModel>,
    order: Seq<usize>,
    i: usize,
) -> Seq<usize>
    decreases order.len(),
{
    if order.len() == 0 {
        seq![i]
    } else if ranks_before(aggregates, order.last() as int, i as int) {
        order.push(i)
    } else {
        insert_ranked(aggregates, order.drop_last(), i).push(order.last())
    }
}

/// The first `k` positions of `aggregates`, ranked: by total duration,
/// largest first, and among equals in the order of first sight.
pub open spec fn ranking(aggregates: Seq<AggregateModel>, k: int) -> Seq<usize>
    decreases k,
{
    if k <= 0 {
        Seq::empty()
    } else {
        insert_ranked(aggregates, ranking(aggregates, k - 1), (k - 1) as usize)
    }
}

/// The `n` aggregates that rank first, in ranking order; all of them where
/// there are fewer than `n`.
pub open spec fn top_ranked(aggregates: Seq<AggregateModel>, n: int) -> Seq<AggregateModel> {
    let order = ranking(aggregates, aggregates.len() as int);
    Seq::new(
        (if n < aggregates.len() {
            n
        } else {
            aggregates.len() as int
        }) as nat,
        |k: int| aggregates[order[k] as int],
    )
}

/// Putting a position in its place is putting it at `p`, where everything
/// from `p` on does not rank before it, and what stands just before `p` does.
pub proof fn lemma_insert_ranked_at(
    aggregates: Seq<AggregateModel>,
    order: Seq<usize>,
    i: usize,
    p: int,
)
    requires
        0 <= p <= order.len(),
        forall|k: int| p <= k < order.len() ==> !ranks_before(aggregates, order[k] as int, i as int),
        p > 0 ==> ranks_before(aggregates, order[p - 1] as int, i as int),
    ensures
        insert_ranked(aggregates, order, i) == order.insert(p, i),
    decreases order.len(),
{
    if order.len() == 0 {
        assert(order.insert(p, i) =~= seq![i]);
    } else if p == order.len() {
        assert(order.insert(p, i) =~= order.push(i));
    } else {
        lemma_insert_ranked_at(aggregates, order.drop_last(), i, p);
        assert(order.drop_last().insert(p, i).push(order.last()) =~= order.insert(p, i));
    }
}

/// A ranking of `k` positions has `k` entries, each a position below `k`.
pub proof fn lemma_ranking_len(aggregates: Seq<AggregateModel>, k: int)
    requires
        0 <= k <= aggregates.len(),
        aggregates.len() <= usize::MAX,
    ensures
        ranking(aggregates, k).len() == k,
        forall|j: int| 0 <= j < k ==> (#[trigger] ranking(aggregates, k)[j]) < k,
    decreases k,
{
    if k > 0 {
        lemma_ranking_len(aggregates, k - 1);
        lemma_insert_ranked_len(aggregates, ranking(aggregates, k - 1), (k - 1) as usize);
    }
}

/// Putting a position in its place adds one entry, and every entry of the
/// result is the new position or was there before.
pub proof fn lemma_insert_ranked_len(aggregates: Seq<AggregateModel>, order: Seq<usize>, i: usize)
    ensures
        insert_ranked(aggregates, order, i).len() == order.len() + 1,
        forall|j: int|
            0 <= j <= order.len() ==> (#[trigger] insert_ranked(aggregates, order, i)[j]) == i
                || order.contains(insert_ranked(aggregates, order, i)[j]),
    decreases order.len(),
{
    let res = insert_ranked(aggregates, order, i);
    if order.len() == 0 {
    } else if ranks_before(aggregates, order.last() as int, i as int) {
        assert forall|j: int| 0 <= j <= order.len() implies (#[trigger] res[j]) == i
            || order.contains(res[j]) by {
            if j < order.len() {
                assert(order[j] == res[j]);
            }
        }
    } else {
        let front = order.drop_last();
        lemma_insert_ranked_len(aggregates, front, i);
        let inner = insert_ranked(aggregates, front, i);
        assert forall|j: int| 0 <= j <= order.len() implies (#[trigger] res[j]) == i
            || order.contains(res[j]) by {
            if j < order.len() {
                assert(res[j] == inner[j]);
                if inner[j] != i {
                    assert(front.contains(inner[j]));
                    let w = choose|w: int| 0 <= w < front.len() && front[w] == inner[j];
                    assert(order[w] == inner[j]);
                }
            } else {
                assert(res[j] == order.last());
                assert(order[order.len() - 1] == order.last());
            }
        }
    }
}

impl StatsCollector {
    /// The `n` fingerprints on which the most time was spent, the most
    /// expensive first. Fingerprints with the same total come in the order
    /// in which they were first seen.
    pub fn top_queries(&self, n: usize) -> (top: Vec<QueryAggregates>)
        ensures
            aggregate_models(top@) == top_ranked(self@.aggregates, n as int),
    {
        let aggregates = &self.tally.aggregates;
        let ghost models = aggregate_models(aggregates@);
        let mut order: Vec<usize> = Vec::new();
        let mut k: usize = 0;
        while k < aggregates.len()
            invariant
                k <= aggregates@.len(),
                models == aggregate_models(aggregates@),
                order@ == ranking(models, k as int),
                order@.len() == k,
                forall|j: int| 0 <= j < k ==> (#[trigger] order@[j]) < k,
            decreases aggregates@.len() - k,
        {
            let total = aggregates[k].total_duration;
            let mut p: usize = order.len();
            while p > 0 && aggregates[order[p - 1]].total_duration < total
                invariant
                    p <= order@.len(),
                    order@.len() == k,
                    k < aggregates@.len(),
                    models == aggregate_models(aggregates@),
                    total == models[k as int].total_duration,
                    forall|j: int| 0 <= j < k ==> (#[trigger] order@[j]) < k,
                    forall|j: int|
                        p <= j < order@.len() ==> !ranks_before(models, order@[j] as int, k as int),
                decreases p,
            {
                proof {
                    assert(order@[p - 1] < k);
                }
                p = p - 1;
            }
            proof {
                if p > 0 {
                    assert(order@[p - 1] < k);
                }
                lemma_insert_ranked_at(models, order@, k, p as int);
            }
            let ghost before = order@;
            order.insert(p, k);
            proof {
                assert forall|j: int| 0 <= j < k + 1 implies (#[trigger] order@[j]) < k + 1 by {
                    if j < p {
                        assert(order@[j] == before[j]);
                    } else if j > p {
                        assert(order@[j] == before[j - 1]);
                    }
                }
            }
            k = k + 1;
        }
        let limit: usize = if n < aggregates.len() {
            n
        } else {
            aggregates.len()
        };
        let mut top: Vec<QueryAggregates> = Vec::new();
        let mut j: usize = 0;
        while j < limit
            invariant
                j <= limit <= aggregates@.len(),
                order@.len() == aggregates@.len(),
                forall|w: int| 0 <= w < order@.len() ==> (#[trigger] order@[w]) < aggregates@.len(),
                top@.len() == j,
                forall|w: int| 0 <= w < j ==> (#[trigger] top@[w])@ == aggregates@[order@[w] as int]@,
            decreases limit - j,
        {
            top.push(aggregates[order[j]].clone());
            j = j + 1;
        }
        proof {
            assert(aggregate_models(top@) =~= top_ranked(self@.aggregates, n as int));
        }
        top
    }

    /// The number of completed queries in this window.
    pub fn total_queries(&self) -> (n: u64)
        ensures
            n == self@.total_queries,
            self@.consistent(),
    {
        proof {
            use_type_invariant(&self.tally);
        }
        self.tally.total_queries
    }

    /// The number of error responses in this window, of any severity.
    pub fn total_errors(&self) -> (n: u64)
        ensures
            n == self@.total_errors,
    {
        self.total_errors
    }

    /// The number of connections that were opened and have not been closed.
    pub fn active_connections(&self) -> (n: u64)
        ensures
            n == self@.active_connections,
    {
        self.active_connections
    }

    /// The latency histogram of this window. Its six counts add up to the
    /// number of completed queries.
    pub fn latency_buckets(&self) -> (buckets: [u64; 6])
        ensures
            buckets@ == self@.latency_buckets,
            buckets_sum(buckets@) == self@.total_queries,
    {
        proof {
            use_type_invariant(&self.tally);
        }
        self.tally.latency_buckets
    }

    /// The aggregates of this window, one per fingerprint, in the order in
    /// which the fingerprints were first seen. Each counts at least one
    /// query, and its mean lies between its shortest and longest duration.
    pub fn fingerprints(&self) -> (aggregates: &Vec<QueryAggregates>)
        ensures
            aggregate_models(aggregates@) == self@.aggregates,
            self@.consistent(),
    {
        proof {
            use_type_invariant(&self.tally);
        }
        &self.tally.aggregates
    }

    /// When the first query of this window completed, in nanoseconds of
    /// monotonic time.
    pub fn first_query_at(&self) -> (at: Option<u64>)
        ensures
            at == self@.first_query_at,
    {
        self.first_query_at
    }

    /// When the latest query of this window completed, in nanoseconds of
    /// monotonic time.
    pub fn last_query_at(&self) -> (at: Option<u64>)
        ensures
            at == self@.last_query_at,
    {
        self.last_query_at
    }

    /// The number of queries of connection `conn_id` that await a reply.
    pub fn pending_count(&self, conn_id: u64) -> (n: usize)
        ensures
            n == self@.connection(conn_id).pending.len(),
    {
        match self.connections.get(&conn_id) {
            Some(conn) => conn.pending_queries.len(),
            None => 0,
        }
    }
}

// ---------------------------------------------------------------------------
// What holds of every history
// ---------------------------------------------------------------------------
/// One thing that can happen to a collector.
pub enum Input {
    /// A protocol event on connection `conn_id` at monotonic time `now`.
    Event { conn_id: u64, event: ProtoEventView, now: u64 },
    /// Connection `conn_id` was opened.
    Opened { conn_id: u64 },
    /// Connection `conn_id` went away.
    Dropped { conn_id: u64 },
    /// The rate was asked for at monotonic time `now`.
    Rate { now: u64 },
    /// The window was reset.
    Reset,
}

/// The collector's state after `input`.
pub open spec fn state_after(m: StatsModel, input: Input) -> StatsModel {
    match input {
        Input::Event { conn_id, event, now } => state_after_event(m, conn_id, event, now),
        Input::Opened { conn_id } => state_after_open(m, conn_id),
        Input::Dropped { conn_id } => state_after_drop(m, conn_id),
        Input::Rate { now } => state_after_qps(m, now),
        Input::Reset => state_after_reset(m),
    }
}

/// The state of a collector that has lived through `history`, from the
/// first input to the last.
pub open spec fn replay(history: Seq<Input>) -> StatsModel
    decreases history.len(),
{
    if history.len() == 0 {
        StatsModel::initial()
    } else {
        state_after(replay(history.drop_last()), history.last())
    }
}

/// True if `input` reports a connection as opened.
pub open spec fn reports_opened(input: Input) -> bool {
    input is Opened
}

/// True if `input`, arriving in state `m`, reports a connection as closed:
/// the client's `Terminate`, or the loss of a connection that is still
/// known.
pub open spec fn reports_closed(m: StatsModel, input: Input) -> bool {
    match input {
        Input::Event { conn_id, event, now } => event is ConnectionClosed,
        Input::Dropped { conn_id } => m.connections.contains_key(conn_id),
        _ => false,
    }
}

/// The number of connections that were reported opened in `history`.
pub open spec fn opened_count(history: Seq<Input>) -> int
    decreases history.len(),
{
    if history.len() == 0 {
        0
    } else {
        opened_count(history.drop_last()) + if reports_opened(history.last()) {
            1int
        } else {
            0int
        }
    }
}

/// The number of connections that were reported closed in `history`.
pub open spec fn closed_count(history: Seq<Input>) -> int
    decreases history.len(),
{
    if history.len() == 0 {
        0
    } else {
        closed_count(history.drop_last()) + if reports_closed(
            replay(history.drop_last()),
            history.last(),
        ) {
            1int
        } else {
            0int
        }
    }
}

/// True if the count of active connections never ran into a limit in
/// `history`: no connection was reported closed while none was counted, and
/// none was opened while `u64::MAX` were counted.
pub open spec fn count_never_clamped(history: Seq<Input>) -> bool
    decreases history.len(),
{
    history.len() == 0 || {
        let before = replay(history.drop_last());
        &&& count_never_clamped(history.drop_last())
        &&& reports_closed(before, history.last()) ==> before.active_connections > 0
        &&& reports_opened(history.last()) ==> before.active_connections < u64::MAX
    }
}

/// Whatever happens to a collector whose counts are consistent, its counts
/// are consistent afterwards.
pub proof fn lemma_consistency_preserved(m: StatsModel, input: Input)
    requires
        m.consistent(),
    ensures
        state_after(m, input).consistent(),
{
    match input {
        Input::Event { conn_id, event, now } => {
            match event {
                ProtoEventView::QueryComplete { tag, rows } => {
                    match m.head(conn_id) {
                        Some(query) => {
                            let popped = m.without_head(conn_id);
                            if popped.total_queries < u64::MAX {
                                lemma_counting_keeps_consistent(
                                    popped.aggregates,
                                    popped.latency_buckets,
                                    popped.total_queries,
                                    fingerprint_text(query.sql),
                                    elapsed(now, query.started_at),
                                );
                            }
                        },
                        None => {},
                    }
                },
                _ => {},
            }
        },
        _ => {},
    }
}

/// The counts of a collector are consistent after every history.
pub proof fn lemma_always_consistent(history: Seq<Input>)
    ensures
        replay(history).consistent(),
    decreases history.len(),
{
    if history.len() > 0 {
        lemma_always_consistent(history.drop_last());
        lemma_consistency_preserved(replay(history.drop_last()), history.last());
    }
}

/// After every history, the six latency buckets add up to the number of
/// completed queries.
pub proof fn lemma_buckets_sum_to_total(history: Seq<Input>)
    ensures
        buckets_sum(replay(history).latency_buckets) == replay(history).total_queries,
{
    lemma_always_consistent(history);
}

/// After every history, every aggregate counts at least one query, and its
/// mean duration lies between its shortest and its longest duration.
pub proof fn lemma_mean_between_extremes(history: Seq<Input>, i: int)
    requires
        0 <= i < replay(history).aggregates.len(),
    ensures
        ({
            let a = replay(history).aggregates[i];
            &&& a.count > 0
            &&& a.min_duration <= a.total_duration / (a.count as u128) <= a.max_duration
        }),
{
    lemma_always_consistent(history);
    let a = replay(history).aggregates[i];
    assert(a.consistent());
    lemma_mean_within_extremes(a);
}

/// After every history in which the count never ran into a limit, the
/// number of active connections is the number of connections reported
/// opened less the number reported closed.
pub proof fn lemma_active_is_opened_less_closed(history: Seq<Input>)
    requires
        count_never_clamped(history),
    ensures
        replay(history).active_connections == opened_count(history) - closed_count(history),
    decreases history.len(),
{
    if history.len() > 0 {
        lemma_active_is_opened_less_closed(history.drop_last());
    }
}

/// True if every entry of `order` ranks before the entries behind it.
pub open spec fn ranked(aggregates: Seq<AggregateModel>, order: Seq<usize>) -> bool {
    forall|a: int, b: int|
        0 <= a < b < order.len() ==> #[trigger] ranks_before(
            aggregates,
            order[a] as int,
            order[b] as int,
        )
}

/// Putting a position in its place keeps a ranking ranked, and loses no
/// entry.
pub proof fn lemma_insert_ranked_ranked(
    aggregates: Seq<AggregateModel>,
    order: Seq<usize>,
    i: usize,
)
    requires
        ranked(aggregates, order),
        forall|j: int| 0 <= j < order.len() ==> (#[trigger] order[j]) < i,
    ensures
        ranked(aggregates, insert_ranked(aggregates, order, i)),
        insert_ranked(aggregates, order, i).contains(i),
        forall|j: int|
            0 <= j < order.len() ==> insert_ranked(aggregates, order, i).contains(
                #[trigger] order[j],
            ),
    decreases order.len(),
{
    let res = insert_ranked(aggregates, order, i);
    lemma_insert_ranked_len(aggregates, order, i);
    if order.len() == 0 {
        assert(res[0] == i);
    } else if ranks_before(aggregates, order.last() as int, i as int) {
        assert(res[order.len() as int] == i);
        assert forall|j: int| 0 <= j < order.len() implies res.contains(#[trigger] order[j]) by {
            assert(res[j] == order[j]);
        }
        assert forall|a: int, b: int| 0 <= a < b < res.len() implies #[trigger] ranks_before(
            aggregates,
            res[a] as int,
            res[b] as int,
        ) by {
            assert(res[a] == order[a]);
            if b < order.len() {
                assert(res[b] == order[b]);
            } else if a < order.len() - 1 {
                assert(ranks_before(aggregates, order[a] as int, order[order.len() - 1] as int));
            }
        }
    } else {
        let front = order.drop_last();
        let inner = insert_ranked(aggregates, front, i);
        assert forall|a: int, b: int| 0 <= a < b < front.len() implies #[trigger] ranks_before(
            aggregates,
            front[a] as int,
            front[b] as int,
        ) by {
            assert(ranks_before(aggregates, order[a] as int, order[b] as int));
        }
        assert forall|j: int| 0 <= j < front.len() implies (#[trigger] front[j]) < i by {
            assert(front[j] == order[j]);
        }
        lemma_insert_ranked_ranked(aggregates, front, i);
        lemma_insert_ranked_len(aggregates, front, i);
        assert(order[order.len() - 1] < i);
        let w = choose|w: int| 0 <= w < inner.len() && inner[w] == i;
        assert(res[w] == i);
        assert forall|j: int| 0 <= j < order.len() implies res.contains(#[trigger] order[j]) by {
            if j < front.len() {
                assert(inner.contains(front[j]));
                let v = choose|v: int| 0 <= v < inner.len() && inner[v] == front[j];
                assert(res[v] == order[j]);
            } else {
                assert(res[inner.len() as int] == order[j]);
            }
        }
        assert forall|a: int, b: int| 0 <= a < b < res.len() implies #[trigger] ranks_before(
            aggregates,
            res[a] as int,
            res[b] as int,
        ) by {
            assert(res[a] == inner[a]);
            if b < inner.len() {
                assert(res[b] == inner[b]);
                assert(ranks_before(aggregates, inner[a] as int, inner[b] as int));
            } else {
                assert(res[b] == order.last());
                if inner[a] != i {
                    assert(front.contains(inner[a]));
                    let v = choose|v: int| 0 <= v < front.len() && front[v] == inner[a];
                    assert(ranks_before(
                        aggregates,
                        order[v] as int,
                        order[order.len() - 1] as int,
                    ));
                }
            }
        }
    }
}

/// The ranking of the first `k` positions holds each of them, and each of
/// its entries ranks before the entries behind it: totals never grow along
/// the ranking, and equal totals come in the order of first sight.
pub proof fn lemma_ranking_ranked(aggregates: Seq<AggregateModel>, k: int)
    requires
        0 <= k <= aggregates.len(),
        aggregates.len() <= usize::MAX,
    ensures
        ranking(aggregates, k).len() == k,
        ranked(aggregates, ranking(aggregates, k)),
        forall|i: usize| i < k ==> #[trigger] ranking(aggregates, k).contains(i),
    decreases k,
{
    lemma_ranking_len(aggregates, k);
    if k > 0 {
        let before = ranking(aggregates, k - 1);
        lemma_ranking_ranked(aggregates, k - 1);
        lemma_ranking_len(aggregates, k - 1);
        lemma_insert_ranked_ranked(aggregates, before, (k - 1) as usize);
        let now = ranking(aggregates, k);
        assert forall|i: usize| i < k implies #[trigger] now.contains(i) by {
            if i < k - 1 {
                assert(before.contains(i));
                let v = choose|v: int| 0 <= v < before.len() && before[v] == i;
                assert(now.contains(before[v]));
            }
        }
    }
}

} // verus!
