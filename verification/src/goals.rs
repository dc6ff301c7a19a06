//! The goal store: a small table mapping a metric name to a target value
//! and an optional label.
//!
//! A configuration entry is either a bare numeric target or a
//! `{value, label}` pair; both normalize to one stored shape. Loading is a
//! per-metric upsert (merge): metrics absent from the latest configuration
//! keep their stored goals, unlike the mapping table, which every load
//! replaces wholesale. The target is carried as the bit pattern of its
//! 64-bit float, so the store itself never computes on floats; callers
//! convert at the boundary.

use vstd::prelude::*;

verus! {

use vstd::string::StringSliceAdditionalSpecFns;
use crate::store::bytes_of;
use crate::strbytes::{lex_lt, lemma_lex_lt_iff, lemma_lex_lt_trans};

/// One goal entry as configuration declares it: a bare target, or a
/// target with a label.
pub enum GoalEntry {
    Simple(u64),
    WithLabel { value: u64, label: Option<String> },
}

/// The value of a configuration entry.
pub ghost enum GoalEntryV {
    Simple(u64),
    WithLabel { value: u64, label: Option<Seq<u8>> },
}

impl View for GoalEntry {
    type V = GoalEntryV;

    open spec fn view(&self) -> GoalEntryV {
        match self {
            GoalEntry::Simple(v) => GoalEntryV::Simple(*v),
            GoalEntry::WithLabel { value, label } => GoalEntryV::WithLabel {
                value: *value,
                label: match label {
                    Some(l) => Some(bytes_of(l@)),
                    None => None,
                },
            },
        }
    }
}

/// What an entry stores: the target's bits and the optional label.
pub open spec fn spec_normalize(e: GoalEntryV) -> (u64, Option<Seq<u8>>) {
    match e {
        GoalEntryV::Simple(v) => (v, None),
        GoalEntryV::WithLabel { value, label } => (value, label),
    }
}

/// Both configuration shapes of a goal store the same row: a bare target
/// and a labelless `{value, label}` pair normalize identically.
pub proof fn lemma_goal_shape_normalization(v: u64)
    ensures
        spec_normalize(GoalEntryV::Simple(v)) == spec_normalize(
            GoalEntryV::WithLabel { value: v, label: None },
        ),
{
}

/// The optional label as a value.
pub open spec fn opt_bytes(l: Option<String>) -> Option<Seq<u8>> {
    match l {
        Some(s) => Some(bytes_of(s@)),
        None => None,
    }
}

/// One stored goal row.
pub struct GoalRow {
    pub metric: String,
    pub value_bits: u64,
    pub label: Option<String>,
    pub updated_at: String,
}

/// The value of a stored goal row.
pub ghost struct GoalV {
    pub metric: Seq<u8>,
    pub value_bits: u64,
    pub label: Option<Seq<u8>>,
    pub updated_at: Seq<u8>,
}

impl View for GoalRow {
    type V = GoalV;

    open spec fn view(&self) -> GoalV {
        GoalV {
            metric: bytes_of(self.metric@),
            value_bits: self.value_bits,
            label: match &self.label {
                Some(l) => Some(bytes_of(l@)),
                None => None,
            },
            updated_at: bytes_of(self.updated_at@),
        }
    }
}

/// No two rows name the same metric.
pub open spec fn unique_metrics(rows: Seq<GoalV>) -> bool {
    forall|i: int, j: int| 0 <= i < j < rows.len() ==> rows[i].metric != rows[j].metric
}

/// Whether some row names this metric.
pub open spec fn has_metric(rows: Seq<GoalV>, m: Seq<u8>) -> bool {
    exists|i: int| 0 <= i < rows.len() && (#[trigger] rows[i]).metric == m
}

/// The index of the row naming `m` (meaningful when `has_metric` holds and
/// metrics are unique).
pub open spec fn metric_index(rows: Seq<GoalV>, m: Seq<u8>) -> int {
    choose|i: int| 0 <= i < rows.len() && (#[trigger] rows[i]).metric == m
}

/// The stored row for metric `m`.
pub open spec fn goal_of(rows: Seq<GoalV>, m: Seq<u8>) -> GoalV {
    rows[metric_index(rows, m)]
}

/// Insert-or-replace-by-metric.
pub open spec fn spec_goal_upsert(rows: Seq<GoalV>, g: GoalV) -> Seq<GoalV> {
    if has_metric(rows, g.metric) {
        rows.update(metric_index(rows, g.metric), g)
    } else {
        rows.push(g)
    }
}

/// Upserting a goal preserves metric uniqueness, keeps every other row in
/// place, and leaves exactly one row for the written metric.
pub proof fn lemma_goal_upsert_wf(rows: Seq<GoalV>, g: GoalV)
    requires
        unique_metrics(rows),
    ensures
        unique_metrics(spec_goal_upsert(rows, g)),
        has_metric(spec_goal_upsert(rows, g), g.metric),
        goal_of(spec_goal_upsert(rows, g), g.metric) == g,
        forall|m: Seq<u8>|
            has_metric(spec_goal_upsert(rows, g), m) <==> has_metric(rows, m) || m == g.metric,
        forall|m: Seq<u8>|
            has_metric(rows, m) && m != g.metric ==> #[trigger] goal_of(
                spec_goal_upsert(rows, g),
                m,
            ) == goal_of(rows, m),
{
    let out = spec_goal_upsert(rows, g);
    if has_metric(rows, g.metric) {
        let i = metric_index(rows, g.metric);
        assert(0 <= i < rows.len() && rows[i].metric == g.metric);
        assert forall|m: Seq<u8>| has_metric(out, m) implies has_metric(rows, m) || m == g.metric by {
            let j = choose|j: int| 0 <= j < out.len() && (#[trigger] out[j]).metric == m;
            if j != i {
                assert(rows[j].metric == m);
            }
        }
        assert forall|m: Seq<u8>| has_metric(rows, m) implies has_metric(out, m) by {
            let j = choose|j: int| 0 <= j < rows.len() && (#[trigger] rows[j]).metric == m;
            if j == i {
                assert(out[i].metric == g.metric);
            } else {
                assert(out[j].metric == m);
            }
        }
        let w = metric_index(out, g.metric);
        assert(0 <= w < out.len() && out[w].metric == g.metric);
        if w != i {
            assert(rows[w].metric == g.metric);
            assert(false);
        }
        assert forall|m: Seq<u8>| has_metric(rows, m) && m != g.metric implies #[trigger] goal_of(
            out,
            m,
        ) == goal_of(rows, m) by {
            let j = metric_index(rows, m);
            assert(0 <= j < rows.len() && rows[j].metric == m);
            assert(j != i);
            assert(out[j].metric == m);
            let w2 = metric_index(out, m);
            assert(0 <= w2 < out.len() && out[w2].metric == m);
            if w2 != j {
                if w2 == i {
                    assert(false);
                } else {
                    assert(rows[w2].metric == m);
                    assert(false);
                }
            }
        }
    } else {
        assert(out == rows.push(g));
        let n = rows.len() as int;
        assert(out[n] == g);
        assert forall|a: int, b: int| 0 <= a < b < out.len() implies out[a].metric != out[b].metric by {
            if b < n {
                assert(out[a] == rows[a] && out[b] == rows[b]);
            } else {
                assert(out[a] == rows[a]);
                assert(!(rows[a].metric == g.metric));
            }
        }
        assert(out[n].metric == g.metric);
        let w = metric_index(out, g.metric);
        assert(0 <= w < out.len() && out[w].metric == g.metric);
        if w < n {
            assert(rows[w].metric == g.metric);
            assert(false);
        }
        assert forall|m: Seq<u8>| has_metric(out, m) implies has_metric(rows, m) || m == g.metric by {
            let j = choose|j: int| 0 <= j < out.len() && (#[trigger] out[j]).metric == m;
            if j < n {
                assert(rows[j].metric == m);
            }
        }
        assert forall|m: Seq<u8>| has_metric(rows, m) implies has_metric(out, m) by {
            let j = choose|j: int| 0 <= j < rows.len() && (#[trigger] rows[j]).metric == m;
            assert(out[j].metric == m);
        }
        assert forall|m: Seq<u8>| has_metric(rows, m) && m != g.metric implies #[trigger] goal_of(
            out,
            m,
        ) == goal_of(rows, m) by {
            let j = metric_index(rows, m);
            assert(0 <= j < rows.len() && rows[j].metric == m);
            assert(out[j].metric == m);
            let w2 = metric_index(out, m);
            assert(0 <= w2 < out.len() && out[w2].metric == m);
            if w2 == n {
                assert(false);
            }
            if w2 != j {
                assert(rows[w2].metric == m);
                assert(false);
            }
        }
    }
}

/// The goal row a configuration entry writes for `metric` at time `now`.
pub open spec fn goal_row_of(metric: Seq<u8>, e: GoalEntryV, now: Seq<u8>) -> GoalV {
    GoalV {
        metric,
        value_bits: spec_normalize(e).0,
        label: spec_normalize(e).1,
        updated_at: now,
    }
}

/// The store contents after the entries are upserted in order.
pub open spec fn spec_load_goals(
    rows: Seq<GoalV>,
    entries: Seq<(Seq<u8>, GoalEntryV)>,
    now: Seq<u8>,
) -> Seq<GoalV>
    decreases entries.len(),
{
    if entries.len() == 0 {
        rows
    } else {
        spec_goal_upsert(
            spec_load_goals(rows, entries.drop_last(), now),
            goal_row_of(entries.last().0, entries.last().1, now),
        )
    }
}

/// The values of a configuration's entry list.
pub open spec fn entries_view(es: Seq<(String, GoalEntry)>) -> Seq<(Seq<u8>, GoalEntryV)> {
    es.map_values(|e: (String, GoalEntry)| (bytes_of(e.0@), e.1@))
}

/// The label shown for a goal: the stored one, or the generic `"Goal"`.
pub open spec fn effective_label(l: Option<Seq<u8>>) -> Seq<u8> {
    match l {
        Some(s) => s,
        None => bytes_of("Goal"@),
    }
}

/// Whether some entry names this metric.
pub open spec fn entries_name(es: Seq<(Seq<u8>, GoalEntryV)>, m: Seq<u8>) -> bool {
    exists|i: int| 0 <= i < es.len() && (#[trigger] es[i]).0 == m
}

/// The index of the last entry naming `m`.
pub open spec fn last_entry_index(es: Seq<(Seq<u8>, GoalEntryV)>, m: Seq<u8>) -> int
    decreases es.len(),
{
    if es.len() == 0 {
        0
    } else if es.last().0 == m {
        es.len() - 1
    } else {
        last_entry_index(es.drop_last(), m)
    }
}

/// When some entry names `m`, the last such entry exists and names it.
pub proof fn lemma_last_entry_index(es: Seq<(Seq<u8>, GoalEntryV)>, m: Seq<u8>)
    requires
        entries_name(es, m),
    ensures
        0 <= last_entry_index(es, m) < es.len(),
        es[last_entry_index(es, m)].0 == m,
    decreases es.len(),
{
    if es.last().0 == m {
    } else {
        let i = choose|i: int| 0 <= i < es.len() && (#[trigger] es[i]).0 == m;
        assert(i < es.len() - 1);
        assert(es.drop_last()[i].0 == m);
        lemma_last_entry_index(es.drop_last(), m);
        assert(es[last_entry_index(es.drop_last(), m)].0 == m);
    }
}

/// Loading merges: a metric the entries never name keeps its stored goal
/// exactly as it was (or stays absent), and a metric the entries name ends
/// at the goal its last entry declares. Metric uniqueness is preserved.
pub proof fn lemma_load_goals_merge(
    rows: Seq<GoalV>,
    es: Seq<(Seq<u8>, GoalEntryV)>,
    now: Seq<u8>,
    m: Seq<u8>,
)
    requires
        unique_metrics(rows),
    ensures
        unique_metrics(spec_load_goals(rows, es, now)),
        !entries_name(es, m) ==> (has_metric(spec_load_goals(rows, es, now), m) == has_metric(
            rows,
            m,
        )),
        !entries_name(es, m) && has_metric(rows, m) ==> goal_of(spec_load_goals(rows, es, now), m)
            == goal_of(rows, m),
        entries_name(es, m) ==> has_metric(spec_load_goals(rows, es, now), m) && goal_of(
            spec_load_goals(rows, es, now),
            m,
        ) == goal_row_of(m, es[last_entry_index(es, m)].1, now),
    decreases es.len(),
{
    if es.len() == 0 {
    } else {
        let pre = es.drop_last();
        let last = es.last();
        let prev = spec_load_goals(rows, pre, now);
        let g = goal_row_of(last.0, last.1, now);
        let out = spec_load_goals(rows, es, now);
        lemma_load_goals_merge(rows, pre, now, m);
        lemma_load_goals_merge(rows, pre, now, last.0);
        lemma_goal_upsert_wf(prev, g);
        assert(out == spec_goal_upsert(prev, g));
        if last.0 == m {
            assert(entries_name(es, m)) by {
                assert(es[es.len() - 1].0 == m);
            }
            assert(goal_of(out, m) == g);
            assert(last_entry_index(es, m) == es.len() - 1);
        } else {
            if entries_name(es, m) {
                let i = choose|i: int| 0 <= i < es.len() && (#[trigger] es[i]).0 == m;
                assert(i < es.len() - 1);
                assert(pre[i].0 == m);
                assert(entries_name(pre, m));
                lemma_last_entry_index(pre, m);
                assert(goal_of(prev, m) == goal_row_of(m, pre[last_entry_index(pre, m)].1, now));
                assert(goal_of(out, m) == goal_of(prev, m));
                assert(last_entry_index(es, m) == last_entry_index(pre, m));
                assert(es[last_entry_index(es, m)] == pre[last_entry_index(pre, m)]);
            } else {
                assert(!entries_name(pre, m)) by {
                    if entries_name(pre, m) {
                        let i = choose|i: int| 0 <= i < pre.len() && (#[trigger] pre[i]).0 == m;
                        assert(es[i].0 == m);
                    }
                }
                assert(has_metric(out, m) == (has_metric(prev, m) || m == g.metric));
                if has_metric(rows, m) {
                    assert(goal_of(out, m) == goal_of(prev, m));
                }
            }
        }
    }
}

/// How a result triple of `list_goals` reads as a value.
pub open spec fn view_triple(t: (String, u64, Option<String>)) -> (Seq<u8>, u64, Option<Seq<u8>>) {
    (bytes_of(t.0@), t.1, opt_bytes(t.2))
}

/// The (metric, target bits, label) value a stored goal contributes.
pub open spec fn triple_of(g: GoalV) -> (Seq<u8>, u64, Option<Seq<u8>>) {
    (g.metric, g.value_bits, g.label)
}

/// Result triples are in strictly increasing metric order.
pub open spec fn strictly_sorted_metrics(ts: Seq<(String, u64, Option<String>)>) -> bool {
    forall|k1: int, k2: int|
        0 <= k1 < k2 < ts.len() ==> lex_lt(
            bytes_of(#[trigger] ts[k1].0@),
            bytes_of(#[trigger] ts[k2].0@),
        )
}

/// Whether the result list holds a triple with this value.
pub open spec fn contains_triple(
    ts: Seq<(String, u64, Option<String>)>,
    q: (Seq<u8>, u64, Option<Seq<u8>>),
) -> bool {
    exists|k: int| 0 <= k < ts.len() && view_triple(#[trigger] ts[k]) == q
}

/// The triple reads some stored goal.
pub open spec fn triple_sourced(t: (String, u64, Option<String>), rows: Seq<GoalV>) -> bool {
    exists|j: int| 0 <= j < rows.len() && view_triple(t) == triple_of(#[trigger] rows[j])
}

/// Every triple of the result reads some stored goal.
pub open spec fn sourced_triples(ts: Seq<(String, u64, Option<String>)>, rows: Seq<GoalV>) -> bool {
    forall|k: int| 0 <= k < ts.len() ==> triple_sourced(#[trigger] ts[k], rows)
}

/// Every stored goal is read by some triple of the result.
pub open spec fn covers_goals(ts: Seq<(String, u64, Option<String>)>, rows: Seq<GoalV>) -> bool {
    forall|j: int| 0 <= j < rows.len() ==> contains_triple(ts, triple_of(#[trigger] rows[j]))
}

/// A triple sourced from `rows` is still sourced after a goal is appended.
proof fn lemma_triple_sourced_push(t: (String, u64, Option<String>), rows: Seq<GoalV>, g: GoalV)
    requires
        triple_sourced(t, rows),
    ensures
        triple_sourced(t, rows.push(g)),
{
    let j = choose|j: int| 0 <= j < rows.len() && view_triple(t) == triple_of(#[trigger] rows[j]);
    assert(rows.push(g)[j] == rows[j]);
    assert(view_triple(t) == triple_of(rows.push(g)[j]));
}

/// Being sourced depends on the triple only through its value.
proof fn lemma_triple_sourced_same_view(
    t1: (String, u64, Option<String>),
    t2: (String, u64, Option<String>),
    rows: Seq<GoalV>,
)
    requires
        triple_sourced(t1, rows),
        view_triple(t1) == view_triple(t2),
    ensures
        triple_sourced(t2, rows),
{
    let j = choose|j: int| 0 <= j < rows.len() && view_triple(t1) == triple_of(#[trigger] rows[j]);
    assert(view_triple(t2) == triple_of(rows[j]));
}

/// A sourced triple's metric differs from the metric of a goal no row of
/// `rows` names.
proof fn lemma_triple_metric_ne(t: (String, u64, Option<String>), rows: Seq<GoalV>, other: GoalV)
    requires
        triple_sourced(t, rows),
        forall|j: int| 0 <= j < rows.len() ==> (#[trigger] rows[j]).metric != other.metric,
    ensures
        view_triple(t).0 != other.metric,
{
    let j = choose|j: int| 0 <= j < rows.len() && view_triple(t) == triple_of(#[trigger] rows[j]);
    assert(rows[j].metric != other.metric);
}

/// The first position whose metric is not strictly before `metric`.
fn lower_bound_metric(out: &Vec<(String, u64, Option<String>)>, metric: &str) -> (pos: usize)
    ensures
        pos <= out@.len(),
        forall|k: int| 0 <= k < pos ==> lex_lt(bytes_of(#[trigger] out@[k].0@), metric.spec_bytes()),
        pos < out@.len() ==> !lex_lt(bytes_of(out@[pos as int].0@), metric.spec_bytes()),
{
    let mut pos: usize = 0;
    let n = out.len();
    while pos < n
        invariant
            n == out@.len(),
            pos <= n,
            forall|k: int| 0 <= k < pos ==> lex_lt(bytes_of(#[trigger] out@[k].0@), metric.spec_bytes()),
        decreases n - pos,
    {
        if !crate::strbytes::str_lt(out[pos].0.as_str(), metric) {
            return pos;
        }
        pos = pos + 1;
    }
    pos
}

/// Inserts a goal triple into a list kept in strictly increasing metric
/// order; the new metric must not already be present.
fn insert_goal_triple(
    out: &mut Vec<(String, u64, Option<String>)>,
    metric: String,
    value_bits: u64,
    label: Option<String>,
)
    requires
        strictly_sorted_metrics(old(out)@),
        forall|k: int| 0 <= k < old(out)@.len()
            ==> bytes_of(#[trigger] old(out)@[k].0@) != bytes_of(metric@),
    ensures
        strictly_sorted_metrics(final(out)@),
        final(out)@.len() == old(out)@.len() + 1,
        contains_triple(final(out)@, (bytes_of(metric@), value_bits, opt_bytes(label))),
        forall|q: (Seq<u8>, u64, Option<Seq<u8>>)|
            contains_triple(old(out)@, q) ==> contains_triple(final(out)@, q),
        forall|k: int| 0 <= k < final(out)@.len()
            ==> contains_triple(old(out)@, view_triple(#[trigger] final(out)@[k]))
                || view_triple(final(out)@[k]) == (bytes_of(metric@), value_bits, opt_bytes(label)),
{
    let ghost prior = out@;
    let ghost mb = bytes_of(metric@);
    let ghost q = (bytes_of(metric@), value_bits, opt_bytes(label));
    let pos = lower_bound_metric(out, metric.as_str());
    proof {
        assert forall|k: int| pos <= k < prior.len() implies lex_lt(
            mb,
            bytes_of(#[trigger] prior[k].0@),
        ) by {
            let pb = bytes_of(prior[pos as int].0@);
            lemma_lex_lt_iff(pb, mb);
            assert(lex_lt(mb, pb));
            if k > pos {
                lemma_lex_lt_trans(mb, pb, bytes_of(prior[k].0@));
            }
        }
    }
    out.insert(pos, (metric, value_bits, label));
    proof {
        let cur = out@;
        assert(forall|k: int| 0 <= k < pos ==> cur[k] == prior[k]);
        assert(view_triple(cur[pos as int]) == q);
        assert(forall|k: int| pos < k < cur.len() ==> cur[k] == prior[k - 1]);
        assert forall|k1: int, k2: int| 0 <= k1 < k2 < cur.len() implies lex_lt(
            bytes_of(#[trigger] cur[k1].0@),
            bytes_of(#[trigger] cur[k2].0@),
        ) by {
            if k2 < pos {
            } else if k1 < pos && k2 == pos {
                assert(lex_lt(bytes_of(prior[k1].0@), mb));
            } else if k1 < pos && k2 > pos {
                assert(lex_lt(bytes_of(prior[k1].0@), bytes_of(prior[k2 - 1].0@)));
            } else if k1 == pos {
                assert(lex_lt(mb, bytes_of(prior[k2 - 1].0@)));
            } else {
                assert(lex_lt(bytes_of(prior[k1 - 1].0@), bytes_of(prior[k2 - 1].0@)));
            }
        }
        assert(contains_triple(cur, q));
        assert forall|q2: (Seq<u8>, u64, Option<Seq<u8>>)|
            contains_triple(prior, q2) implies contains_triple(cur, q2) by {
            let k = choose|k: int| 0 <= k < prior.len() && view_triple(#[trigger] prior[k]) == q2;
            if k < pos {
                assert(view_triple(cur[k]) == q2);
            } else {
                assert(view_triple(cur[k + 1]) == q2);
            }
        }
        assert forall|k: int| 0 <= k < cur.len() implies contains_triple(
            prior,
            view_triple(#[trigger] cur[k]),
        ) || view_triple(cur[k]) == q by {
            if k < pos {
                assert(view_triple(prior[k]) == view_triple(cur[k]));
            } else if k > pos {
                assert(view_triple(prior[k - 1]) == view_triple(cur[k]));
            }
        }
    }
}

/// The goal store, an in-memory table keyed by metric name.
pub struct GoalStore {
    rows: Vec<GoalRow>,
}

impl View for GoalStore {
    type V = Seq<GoalV>;

    closed spec fn view(&self) -> Seq<GoalV> {
        self.rows@.map_values(|r: GoalRow| r@)
    }
}

impl GoalStore {
    /// Every operation preserves this: no two rows name a metric twice.
    pub open spec fn wf(&self) -> bool {
        unique_metrics(self@)
    }

    /// A fresh, empty store.
    pub fn new() -> (s: Self)
        ensures
            s@ == Seq::<GoalV>::empty(),
            s.wf(),
    {
        let s = GoalStore { rows: Vec::new() };
        proof {
            assert(s@ =~= Seq::<GoalV>::empty());
        }
        s
    }

    /// How many goals the store holds.
    pub fn len(&self) -> (n: usize)
        ensures
            n == self@.len(),
    {
        self.rows.len()
    }

    /// Writes one goal, replacing any goal already stored for the metric.
    fn upsert_goal(&mut self, metric: &str, value_bits: u64, label: Option<String>, now: &str)
        requires
            old(self).wf(),
        ensures
            final(self).wf(),
            final(self)@ == spec_goal_upsert(
                old(self)@,
                (GoalV {
                    metric: bytes_of(metric@),
                    value_bits,
                    label: opt_bytes(label),
                    updated_at: bytes_of(now@),
                }),
            ),
    {
        let ghost g = GoalV {
            metric: bytes_of(metric@),
            value_bits,
            label: opt_bytes(label),
            updated_at: bytes_of(now@),
        };
        let rec = GoalRow {
            metric: metric.to_owned(),
            value_bits,
            label,
            updated_at: now.to_owned(),
        };
        assert(rec@.label == g.label);
        assert(rec@ == g);
        let n = self.rows.len();
        let mut i: usize = 0;
        while i < n
            invariant
                n == self.rows.len(),
                i <= n,
                *self == *old(self),
                old(self).wf(),
                forall|j: int| 0 <= j < i ==> (#[trigger] old(self)@[j]).metric != g.metric,
                rec@ == g,
                g == (GoalV {
                    metric: bytes_of(metric@),
                    value_bits,
                    label: opt_bytes(label),
                    updated_at: bytes_of(now@),
                }),
            decreases n - i,
        {
            assert(self@[i as int] == self.rows@[i as int]@);
            let same = crate::strbytes::str_eq(self.rows[i].metric.as_str(), metric);
            if same {
                assert(self@[i as int].metric == g.metric);
                assert(has_metric(old(self)@, g.metric));
                proof {
                    let w = metric_index(old(self)@, g.metric);
                    assert(0 <= w < old(self)@.len() && old(self)@[w].metric == g.metric);
                    if w != i as int {
                        assert(false);
                    }
                }
                self.rows[i] = rec;
                proof {
                    assert(self@ =~= old(self)@.update(i as int, g));
                    lemma_goal_upsert_wf(old(self)@, g);
                }
                return;
            }
            assert(self@[i as int].metric != g.metric);
            i = i + 1;
        }
        assert(!has_metric(old(self)@, g.metric));
        self.rows.push(rec);
        proof {
            assert(self@ =~= old(self)@.push(g));
            lemma_goal_upsert_wf(old(self)@, g);
        }
    }

    /// The stored goals as (metric, target bits, label) triples in strictly
    /// increasing metric order: exactly one triple per stored goal.
    pub fn list_goals(&self) -> (r: Vec<(String, u64, Option<String>)>)
        requires
            self.wf(),
        ensures
            strictly_sorted_metrics(r@),
            sourced_triples(r@, self@),
            covers_goals(r@, self@),
    {
        let mut out: Vec<(String, u64, Option<String>)> = Vec::new();
        let mut i: usize = 0;
        let n = self.rows.len();
        while i < n
            invariant
                n == self.rows.len(),
                n == self@.len(),
                i <= n,
                self.wf(),
                strictly_sorted_metrics(out@),
                sourced_triples(out@, self@.take(i as int)),
                covers_goals(out@, self@.take(i as int)),
            decreases n - i,
        {
            assert(self@[i as int] == self.rows@[i as int]@);
            let ghost pre = self@.take(i as int);
            let ghost cur_rows = self@.take(i as int + 1);
            proof {
                assert(cur_rows =~= pre.push(self@[i as int]));
            }
            let ghost prior = out@;
            assert forall|k: int| 0 <= k < out@.len() implies bytes_of(#[trigger] out@[k].0@)
                != bytes_of(self.rows@[i as int].metric@) by {
                assert(triple_sourced(out@[k], pre));
                assert forall|j: int| 0 <= j < pre.len() implies (#[trigger] pre[j]).metric
                    != self@[i as int].metric by {
                    assert(pre[j] == self@[j]);
                }
                lemma_triple_metric_ne(out@[k], pre, self@[i as int]);
                assert(view_triple(out@[k]).0 == bytes_of(out@[k].0@));
            };
            let metric = self.rows[i].metric.clone();
            let value_bits = self.rows[i].value_bits;
            let label = match &self.rows[i].label {
                Some(l) => Some(l.clone()),
                None => None,
            };
            assert(opt_bytes(label) == self@[i as int].label);
            insert_goal_triple(&mut out, metric, value_bits, label);
            proof {
                assert forall|k: int| 0 <= k < out@.len() implies triple_sourced(
                    #[trigger] out@[k],
                    cur_rows,
                ) by {
                    if contains_triple(prior, view_triple(out@[k])) {
                        let k0 = choose|k0: int|
                            0 <= k0 < prior.len() && view_triple(#[trigger] prior[k0])
                                == view_triple(out@[k]);
                        assert(triple_sourced(prior[k0], pre));
                        lemma_triple_sourced_push(prior[k0], pre, self@[i as int]);
                        lemma_triple_sourced_same_view(prior[k0], out@[k], cur_rows);
                    } else {
                        assert(view_triple(out@[k]) == triple_of(self@[i as int]));
                        assert(cur_rows[i as int] == self@[i as int]);
                        assert(view_triple(out@[k]) == triple_of(cur_rows[i as int]));
                    }
                };
                assert forall|j: int| 0 <= j < cur_rows.len() implies contains_triple(
                    out@,
                    triple_of(#[trigger] cur_rows[j]),
                ) by {
                    if j < i {
                        assert(cur_rows[j] == self@[j] && pre[j] == self@[j]);
                        assert(contains_triple(prior, triple_of(pre[j])));
                        assert(contains_triple(out@, triple_of(cur_rows[j])));
                    } else {
                        assert(cur_rows[j] == self@[i as int]);
                        assert(triple_of(self@[i as int]) == view_triple(
                            (metric, value_bits, label),
                        ));
                    }
                };
            }
            i = i + 1;
        }
        proof {
            assert(self@.take(i as int) =~= self@);
        }
        out
    }

    /// The stored goals with labels defaulted: one (metric, target bits,
    /// label) triple per row, in store order, the label replaced by the
    /// generic `"Goal"` where none was stored.
    pub fn get_goals_map(&self) -> (r: Vec<(String, u64, String)>)
        ensures
            r@.len() == self@.len(),
            forall|k: int|
                0 <= k < r@.len() ==> bytes_of((#[trigger] r@[k]).0@) == self@[k].metric
                    && r@[k].1 == self@[k].value_bits
                    && bytes_of(r@[k].2@) == effective_label(self@[k].label),
    {
        let mut out: Vec<(String, u64, String)> = Vec::new();
        let mut i: usize = 0;
        let n = self.rows.len();
        while i < n
            invariant
                n == self.rows.len(),
                n == self@.len(),
                i <= n,
                out@.len() == i,
                forall|k: int|
                    0 <= k < i ==> bytes_of((#[trigger] out@[k]).0@) == self@[k].metric
                        && out@[k].1 == self@[k].value_bits
                        && bytes_of(out@[k].2@) == effective_label(self@[k].label),
            decreases n - i,
        {
            assert(self@[i as int] == self.rows@[i as int]@);
            let label = match &self.rows[i].label {
                Some(l) => l.clone(),
                None => "Goal".to_owned(),
            };
            assert(bytes_of(label@) == effective_label(self@[i as int].label));
            out.push((self.rows[i].metric.clone(), self.rows[i].value_bits, label));
            i = i + 1;
        }
        out
    }

    /// The stored target bits for `metric`, or `None` when no goal names it.
    pub fn get_goal(&self, metric: &str) -> (r: Option<u64>)
        requires
            self.wf(),
        ensures
            has_metric(self@, bytes_of(metric@)) ==> r == Some(
                goal_of(self@, bytes_of(metric@)).value_bits,
            ),
            !has_metric(self@, bytes_of(metric@)) ==> r is None,
    {
        let ghost m = bytes_of(metric@);
        let n = self.rows.len();
        let mut i: usize = 0;
        while i < n
            invariant
                n == self.rows.len(),
                n == self@.len(),
                i <= n,
                self.wf(),
                m == bytes_of(metric@),
                forall|j: int| 0 <= j < i ==> (#[trigger] self@[j]).metric != m,
            decreases n - i,
        {
            assert(self@[i as int] == self.rows@[i as int]@);
            if crate::strbytes::str_eq(self.rows[i].metric.as_str(), metric) {
                assert(self@[i as int].metric == m);
                proof {
                    let w = metric_index(self@, m);
                    assert(0 <= w < self@.len() && self@[w].metric == m);
                    if w != i as int {
                        assert(false);
                    }
                }
                return Some(self.rows[i].value_bits);
            }
            i = i + 1;
        }
        None
    }
}

/// Loads configuration entries into the goal store: each entry is
/// normalized and upserted under its metric with timestamp `now`, in
/// order. Metrics the entries never name keep their stored goals (merge,
/// not replace). Returns how many goals were written.
pub fn load_goals(store: &mut GoalStore, entries: &Vec<(String, GoalEntry)>, now: &str) -> (n:
    usize)
    requires
        old(store).wf(),
    ensures
        final(store).wf(),
        final(store)@ == spec_load_goals(old(store)@, entries_view(entries@), bytes_of(now@)),
        n == entries@.len(),
{
    let ghost ev = entries_view(entries@);
    let ghost nowb = bytes_of(now@);
    let m = entries.len();
    let mut i: usize = 0;
    proof {
        assert(ev.take(0) =~= Seq::<(Seq<u8>, GoalEntryV)>::empty());
    }
    while i < m
        invariant
            m == entries.len(),
            ev == entries_view(entries@),
            ev.len() == m,
            i <= m,
            nowb == bytes_of(now@),
            old(store).wf(),
            store.wf(),
            store@ == spec_load_goals(old(store)@, ev.take(i as int), nowb),
        decreases m - i,
    {
        proof {
            assert(ev.take(i as int + 1).drop_last() =~= ev.take(i as int));
            assert(ev.take(i as int + 1).last() == ev[i as int]);
            assert(ev[i as int] == (bytes_of(entries@[i as int].0@), entries@[i as int].1@));
        }
        let ghost target = goal_row_of(ev[i as int].0, ev[i as int].1, nowb);
        match &entries[i].1 {
            GoalEntry::Simple(v) => {
                store.upsert_goal(entries[i].0.as_str(), *v, None, now);
                proof {
                    assert(store@ == spec_goal_upsert(
                        spec_load_goals(old(store)@, ev.take(i as int), nowb),
                        target,
                    ));
                }
            },
            GoalEntry::WithLabel { value, label } => {
                let lab: Option<String> = match label {
                    Some(l) => Some(l.clone()),
                    None => None,
                };
                assert(opt_bytes(lab) == spec_normalize(ev[i as int].1).1);
                store.upsert_goal(entries[i].0.as_str(), *value, lab, now);
                proof {
                    assert(store@ == spec_goal_upsert(
                        spec_load_goals(old(store)@, ev.take(i as int), nowb),
                        target,
                    ));
                }
            },
        }
        i = i + 1;
    }
    proof {
        assert(ev.take(m as int) =~= ev);
    }
    m
}

} // verus!
