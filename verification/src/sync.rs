//! Registry synchronization: the date-window policy and the upsert loop.
//!
//! An adapter fetches a package's daily series and hands it over as plain
//! (date, count) points; the functions here keep only the days inside the
//! inclusive lookback window and upsert them into the store as the
//! aggregate (`"total"`) series. The window's upper bound is yesterday,
//! the freshest complete day: both registries finalize a day's count only
//! after the day has fully elapsed, so today's still-accumulating figure
//! is never written.

use vstd::prelude::*;

verus! {

use vstd::string::StringSliceAdditionalSpecFns;
use crate::store::{
    bytes_of, has_key, key_index, lemma_upsert_wf, rec_v, spec_upsert, unique_keys,
    DownloadStore, KeyV, RecV, Registry,
};
use crate::strbytes::lex_le;

/// One daily data point as a registry adapter reports it.
pub struct DailyPoint {
    pub date: String,
    pub downloads: u64,
}

/// The value of a point: its date as UTF-8 bytes, and the count.
pub ghost struct PointV {
    pub date: Seq<u8>,
    pub downloads: u64,
}

impl View for DailyPoint {
    type V = PointV;

    open spec fn view(&self) -> PointV {
        PointV { date: bytes_of(self.date@), downloads: self.downloads }
    }
}

/// The values of a fetched series, in its reported order.
pub open spec fn points_view(ps: Seq<DailyPoint>) -> Seq<PointV> {
    ps.map_values(|p: DailyPoint| p@)
}

/// Whether a reported date lies in the inclusive window `[lo, hi]`.
pub open spec fn in_window(d: Seq<u8>, lo: Seq<u8>, hi: Seq<u8>) -> bool {
    lex_le(lo, d) && lex_le(d, hi)
}

/// The row a point writes for `package` on `registry`.
pub open spec fn row_of_point(p: PointV, package: Seq<u8>, registry: Registry) -> RecV {
    rec_v(p.date, package, registry, bytes_of("total"@), p.downloads)
}

/// The store contents after every in-window point has been upserted, in
/// reported order (so for a repeated date the last report wins).
pub open spec fn spec_sync(
    rows: Seq<RecV>,
    package: Seq<u8>,
    registry: Registry,
    points: Seq<PointV>,
    lo: Seq<u8>,
    hi: Seq<u8>,
) -> Seq<RecV>
    decreases points.len(),
{
    if points.len() == 0 {
        rows
    } else {
        let prev = spec_sync(rows, package, registry, points.drop_last(), lo, hi);
        if in_window(points.last().date, lo, hi) {
            spec_upsert(prev, row_of_point(points.last(), package, registry))
        } else {
            prev
        }
    }
}

/// How many of the points lie in the window (a repeated date counts each
/// time, as each report is written).
pub open spec fn spec_window_count(points: Seq<PointV>, lo: Seq<u8>, hi: Seq<u8>) -> int
    decreases points.len(),
{
    if points.len() == 0 {
        0
    } else {
        spec_window_count(points.drop_last(), lo, hi) + (if in_window(
            points.last().date,
            lo,
            hi,
        ) {
            1int
        } else {
            0int
        })
    }
}

/// Upserts every point whose date lies in `[lo, hi]` into the aggregate
/// series of `package` on `registry`, in reported order, and returns how
/// many rows were written. Points outside the window leave the store
/// untouched.
pub fn upsert_points_in_window(
    store: &mut DownloadStore,
    package: &str,
    registry: Registry,
    points: &Vec<DailyPoint>,
    lo: &str,
    hi: &str,
) -> (n: usize)
    requires
        old(store).wf(),
    ensures
        final(store).wf(),
        final(store)@ == spec_sync(
            old(store)@,
            bytes_of(package@),
            registry,
            points_view(points@),
            bytes_of(lo@),
            bytes_of(hi@),
        ),
        n == spec_window_count(points_view(points@), bytes_of(lo@), bytes_of(hi@)),
        forall|i: int|
            0 <= i < final(store)@.len() ==> old(store)@.contains(#[trigger] final(store)@[i]) || (
            (final(store)@[i]).key() == sync_key(final(store)@[i].date, bytes_of(package@), registry)
                && in_window(final(store)@[i].date, bytes_of(lo@), bytes_of(hi@))),
{
    let ghost pkg = bytes_of(package@);
    let ghost lob = bytes_of(lo@);
    let ghost hib = bytes_of(hi@);
    let ghost pv = points_view(points@);
    let mut count: usize = 0;
    let mut i: usize = 0;
    let m = points.len();
    proof {
        assert(pv.take(0) =~= Seq::<PointV>::empty());
    }
    while i < m
        invariant
            m == points.len(),
            pv == points_view(points@),
            pv.len() == m,
            i <= m,
            count <= i,
            pkg == bytes_of(package@),
            lob == bytes_of(lo@),
            hib == bytes_of(hi@),
            old(store).wf(),
            store.wf(),
            store@ == spec_sync(old(store)@, pkg, registry, pv.take(i as int), lob, hib),
            count == spec_window_count(pv.take(i as int), lob, hib),
        decreases m - i,
    {
        proof {
            assert(pv.take(i as int + 1).drop_last() =~= pv.take(i as int));
            assert(pv.take(i as int + 1).last() == pv[i as int]);
            assert(pv[i as int] == points@[i as int]@);
        }
        let inw = crate::strbytes::str_le(lo, points[i].date.as_str())
            && crate::strbytes::str_le(points[i].date.as_str(), hi);
        if inw {
            assert(in_window(pv[i as int].date, lob, hib));
            store.upsert(points[i].date.as_str(), package, registry, "total", points[i].downloads);
            proof {
                assert(rec_v(
                    bytes_of(points@[i as int].date@),
                    bytes_of(package@),
                    registry,
                    bytes_of("total"@),
                    points@[i as int].downloads,
                ) == row_of_point(pv[i as int], pkg, registry));
            }
            count = count + 1;
        } else {
            assert(!in_window(pv[i as int].date, lob, hib));
        }
        i = i + 1;
    }
    proof {
        assert(pv.take(m as int) =~= pv);
        lemma_sync_window(old(store)@, pkg, registry, pv, lob, hib);
    }
    count
}

/// Relies on chrono (`Utc::now`, `TimeDelta::days`, `%Y-%m-%d` formatting)
/// for the current UTC date shifted back by `days` whole days. The result
/// depends on the clock, so nothing is promised of it; the bound on `days`
/// keeps the shift inside chrono's supported range.
#[verifier::external_body]
fn today_minus_days(days: u64) -> String
    requires
        days <= 3650000,
{
    let now = chrono::Utc::now();
    (now - chrono::TimeDelta::days(days as i64)).format("%Y-%m-%d").to_string()
}

/// The `[start, end]` dates an npm sync requests from the ranged endpoint:
/// `end` is yesterday (the freshest complete day) and `start` lies `days`
/// days before today. Both read the clock, so nothing is promised of them.
pub fn npm_window(days: u64) -> (w: (String, String))
    requires
        days <= 3650000,
{
    let start = today_minus_days(days);
    let end = today_minus_days(1);
    (start, end)
}

/// Syncs a fetched daily series of `package` from the Python registry:
/// only days within the clock-derived window `[today - days, yesterday]`
/// are written, each as an aggregate-series upsert, and the number of rows
/// written is returned. For some such window bounds the store becomes
/// exactly the windowed upsert of the fetched points.
pub fn sync_pypi_downloads(
    store: &mut DownloadStore,
    package: &str,
    days: u64,
    points: &Vec<DailyPoint>,
) -> (n: usize)
    requires
        old(store).wf(),
        days <= 3650000,
    ensures
        final(store).wf(),
        exists|lo: Seq<u8>, hi: Seq<u8>|
            final(store)@ == spec_sync(
                old(store)@,
                bytes_of(package@),
                Registry::Pypi,
                points_view(points@),
                lo,
                hi,
            ) && n == spec_window_count(points_view(points@), lo, hi),
        forall|i: int|
            0 <= i < final(store)@.len() ==> old(store)@.contains(#[trigger] final(store)@[i])
                || (final(store)@[i]).key() == sync_key(
                final(store)@[i].date,
                bytes_of(package@),
                Registry::Pypi,
            ),
{
    let cutoff = today_minus_days(days);
    let max_date = today_minus_days(1);
    upsert_points_in_window(store, package, Registry::Pypi, points, cutoff.as_str(), max_date.as_str())
}

/// Syncs a fetched daily series of `package` from the npm registry. The
/// ranged endpoint is asked for `[today - days, yesterday]` and the same
/// window is enforced here, so a point outside it is never written even if
/// the registry reports one.
pub fn sync_npm_downloads(
    store: &mut DownloadStore,
    package: &str,
    days: u64,
    points: &Vec<DailyPoint>,
) -> (n: usize)
    requires
        old(store).wf(),
        days <= 3650000,
    ensures
        final(store).wf(),
        exists|lo: Seq<u8>, hi: Seq<u8>|
            final(store)@ == spec_sync(
                old(store)@,
                bytes_of(package@),
                Registry::Npm,
                points_view(points@),
                lo,
                hi,
            ) && n == spec_window_count(points_view(points@), lo, hi),
        forall|i: int|
            0 <= i < final(store)@.len() ==> old(store)@.contains(#[trigger] final(store)@[i])
                || (final(store)@[i]).key() == sync_key(
                final(store)@[i].date,
                bytes_of(package@),
                Registry::Npm,
            ),
{
    let start_date = today_minus_days(days);
    let end_date = today_minus_days(1);
    upsert_points_in_window(store, package, Registry::Npm, points, start_date.as_str(), end_date.as_str())
}

/// Primes history for a Python-registry package: one sync with the 180-day
/// lookback that the statistics aggregator retains.
pub fn backfill_pypi_downloads(
    store: &mut DownloadStore,
    package: &str,
    points: &Vec<DailyPoint>,
) -> (n: usize)
    requires
        old(store).wf(),
    ensures
        final(store).wf(),
        exists|lo: Seq<u8>, hi: Seq<u8>|
            final(store)@ == spec_sync(
                old(store)@,
                bytes_of(package@),
                Registry::Pypi,
                points_view(points@),
                lo,
                hi,
            ) && n == spec_window_count(points_view(points@), lo, hi),
{
    sync_pypi_downloads(store, package, 180, points)
}

/// Primes history for an npm-registry package: one sync with a 365-day
/// lookback, chosen conservatively within the registry's retention.
pub fn backfill_npm_downloads(
    store: &mut DownloadStore,
    package: &str,
    points: &Vec<DailyPoint>,
) -> (n: usize)
    requires
        old(store).wf(),
    ensures
        final(store).wf(),
        exists|lo: Seq<u8>, hi: Seq<u8>|
            final(store)@ == spec_sync(
                old(store)@,
                bytes_of(package@),
                Registry::Npm,
                points_view(points@),
                lo,
                hi,
            ) && n == spec_window_count(points_view(points@), lo, hi),
{
    sync_npm_downloads(store, package, 365, points)
}


/// The key a point with date `d` writes for `package` on `registry`.
pub open spec fn sync_key(d: Seq<u8>, package: Seq<u8>, registry: Registry) -> KeyV {
    KeyV { date: d, package, registry, version: bytes_of("total"@) }
}

/// Whether the points write date `d`: some point reports `d`, and `d`
/// lies in the window.
pub open spec fn written_date(points: Seq<PointV>, lo: Seq<u8>, hi: Seq<u8>, d: Seq<u8>) -> bool {
    exists|i: int|
        0 <= i < points.len() && (#[trigger] points[i]).date == d && in_window(d, lo, hi)
}

/// The count carried by the last report of date `d`.
pub open spec fn last_value(points: Seq<PointV>, d: Seq<u8>) -> u64
    decreases points.len(),
{
    if points.len() == 0 {
        0
    } else if points.last().date == d {
        points.last().downloads
    } else {
        last_value(points.drop_last(), d)
    }
}

/// Whether the sync rewrites this row: its key is the sync key of its own
/// date, and the points write that date.
pub open spec fn touched(
    r: RecV,
    package: Seq<u8>,
    registry: Registry,
    points: Seq<PointV>,
    lo: Seq<u8>,
    hi: Seq<u8>,
) -> bool {
    r.key() == sync_key(r.date, package, registry) && written_date(points, lo, hi, r.date)
}

/// A sync preserves key uniqueness, never drops a key, never drops a row,
/// and leaves the original rows' keys at their positions.
pub proof fn lemma_sync_wf(
    rows: Seq<RecV>,
    package: Seq<u8>,
    registry: Registry,
    points: Seq<PointV>,
    lo: Seq<u8>,
    hi: Seq<u8>,
)
    requires
        unique_keys(rows),
    ensures
        unique_keys(spec_sync(rows, package, registry, points, lo, hi)),
        spec_sync(rows, package, registry, points, lo, hi).len() >= rows.len(),
        forall|i: int|
            0 <= i < rows.len() ==> (#[trigger] spec_sync(rows, package, registry, points, lo, hi)[i]).key()
                == rows[i].key(),
        forall|k: KeyV|
            has_key(rows, k) ==> has_key(spec_sync(rows, package, registry, points, lo, hi), k),
    decreases points.len(),
{
    if points.len() == 0 {
    } else {
        let prev = spec_sync(rows, package, registry, points.drop_last(), lo, hi);
        let out = spec_sync(rows, package, registry, points, lo, hi);
        lemma_sync_wf(rows, package, registry, points.drop_last(), lo, hi);
        let p = points.last();
        if in_window(p.date, lo, hi) {
            let rec = row_of_point(p, package, registry);
            lemma_upsert_wf(prev, rec);
            assert(out == spec_upsert(prev, rec));
            assert forall|i: int| 0 <= i < rows.len() implies (#[trigger] out[i]).key()
                == rows[i].key() by {
                if has_key(prev, rec.key()) {
                    let w = key_index(prev, rec.key());
                    assert(0 <= w < prev.len() && prev[w].key() == rec.key());
                    if i == w {
                        assert(out[i] == rec);
                    } else {
                        assert(out[i] == prev[i]);
                    }
                } else {
                    assert(out[i] == prev[i]);
                }
            }
        }
    }
}

/// Window correctness: every row a sync leaves behind either stood in the
/// store before, unchanged, or carries this package and registry's
/// aggregate-series key with a date inside `[lo, hi]`. No date outside
/// the window is ever written.
pub proof fn lemma_sync_window(
    rows: Seq<RecV>,
    package: Seq<u8>,
    registry: Registry,
    points: Seq<PointV>,
    lo: Seq<u8>,
    hi: Seq<u8>,
)
    ensures
        forall|i: int|
            0 <= i < spec_sync(rows, package, registry, points, lo, hi).len() ==> rows.contains(
                #[trigger] spec_sync(rows, package, registry, points, lo, hi)[i],
            ) || ((spec_sync(rows, package, registry, points, lo, hi)[i]).key() == sync_key(
                spec_sync(rows, package, registry, points, lo, hi)[i].date,
                package,
                registry,
            ) && in_window(spec_sync(rows, package, registry, points, lo, hi)[i].date, lo, hi)),
    decreases points.len(),
{
    if points.len() == 0 {
    } else {
        let prev = spec_sync(rows, package, registry, points.drop_last(), lo, hi);
        let out = spec_sync(rows, package, registry, points, lo, hi);
        lemma_sync_window(rows, package, registry, points.drop_last(), lo, hi);
        let p = points.last();
        if in_window(p.date, lo, hi) {
            let rec = row_of_point(p, package, registry);
            assert(rec.key() == sync_key(rec.date, package, registry));
            assert forall|i: int| 0 <= i < out.len() implies rows.contains(#[trigger] out[i]) || (
                (out[i]).key() == sync_key(out[i].date, package, registry) && in_window(
                    out[i].date,
                    lo,
                    hi,
                )) by {
                if has_key(prev, rec.key()) {
                    let w = key_index(prev, rec.key());
                    assert(0 <= w < prev.len() && prev[w].key() == rec.key());
                    if i == w {
                        assert(out[i] == rec);
                    } else {
                        assert(out[i] == prev[i]);
                    }
                } else {
                    if i < prev.len() {
                        assert(out[i] == prev[i]);
                    } else {
                        assert(out[i] == rec);
                    }
                }
            }
        }
    }
}

/// Every written date ends carrying exactly the count of its last report.
pub proof fn lemma_sync_writes(
    rows: Seq<RecV>,
    package: Seq<u8>,
    registry: Registry,
    points: Seq<PointV>,
    lo: Seq<u8>,
    hi: Seq<u8>,
    d: Seq<u8>,
)
    requires
        unique_keys(rows),
        written_date(points, lo, hi, d),
    ensures
        has_key(spec_sync(rows, package, registry, points, lo, hi), sync_key(d, package, registry)),
        spec_sync(rows, package, registry, points, lo, hi)[key_index(
            spec_sync(rows, package, registry, points, lo, hi),
            sync_key(d, package, registry),
        )] == rec_v(d, package, registry, bytes_of("total"@), last_value(points, d)),
    decreases points.len(),
{
    let prev = spec_sync(rows, package, registry, points.drop_last(), lo, hi);
    let out = spec_sync(rows, package, registry, points, lo, hi);
    let p = points.last();
    let kd = sync_key(d, package, registry);
    lemma_sync_wf(rows, package, registry, points.drop_last(), lo, hi);
    lemma_sync_wf(rows, package, registry, points, lo, hi);
    if p.date == d {
        assert(in_window(d, lo, hi));
        let rec = row_of_point(p, package, registry);
        lemma_upsert_wf(prev, rec);
        assert(out == spec_upsert(prev, rec));
        assert(rec.key() == kd);
        assert(out[key_index(out, kd)] == rec);
        assert(last_value(points, d) == p.downloads);
    } else {
        assert(written_date(points.drop_last(), lo, hi, d)) by {
            let i = choose|i: int|
                0 <= i < points.len() && (#[trigger] points[i]).date == d && in_window(d, lo, hi);
            assert(i < points.len() - 1);
            assert(points.drop_last()[i].date == d);
        }
        lemma_sync_writes(rows, package, registry, points.drop_last(), lo, hi, d);
        let w = key_index(prev, kd);
        assert(0 <= w < prev.len() && prev[w].key() == kd);
        assert(last_value(points, d) == last_value(points.drop_last(), d));
        if in_window(p.date, lo, hi) {
            let rec = row_of_point(p, package, registry);
            lemma_upsert_wf(prev, rec);
            assert(out == spec_upsert(prev, rec));
            assert(kd != rec.key());
            assert(out[w].key() != rec.key() ==> out[w] == prev[w]);
            if has_key(prev, rec.key()) {
                let w2 = key_index(prev, rec.key());
                assert(0 <= w2 < prev.len() && prev[w2].key() == rec.key());
                assert(w2 != w);
                assert(out[w] == prev[w]);
            } else {
                assert(out[w] == prev[w]);
            }
            assert(has_key(out, kd));
            let w3 = key_index(out, kd);
            assert(0 <= w3 < out.len() && out[w3].key() == kd);
            if w3 != w {
                assert(false);
            }
        } else {
            assert(out == prev);
        }
    }
}

/// Over a store that already holds every written date's key, a sync only
/// rewrites those rows in place: no row moves and none is added.
pub proof fn lemma_sync_absorbed(
    rows: Seq<RecV>,
    package: Seq<u8>,
    registry: Registry,
    points: Seq<PointV>,
    lo: Seq<u8>,
    hi: Seq<u8>,
)
    requires
        unique_keys(rows),
        forall|d: Seq<u8>| #[trigger]
            written_date(points, lo, hi, d) ==> has_key(rows, sync_key(d, package, registry)),
    ensures
        spec_sync(rows, package, registry, points, lo, hi).len() == rows.len(),
        forall|i: int|
            0 <= i < rows.len() ==> (#[trigger] spec_sync(rows, package, registry, points, lo, hi)[i])
                == (if touched(rows[i], package, registry, points, lo, hi) {
                    rec_v(
                        rows[i].date,
                        package,
                        registry,
                        bytes_of("total"@),
                        last_value(points, rows[i].date),
                    )
                } else {
                    rows[i]
                }),
    decreases points.len(),
{
    if points.len() == 0 {
        assert forall|i: int| 0 <= i < rows.len() implies !touched(
            rows[i],
            package,
            registry,
            points,
            lo,
            hi,
        ) by {
            if written_date(points, lo, hi, rows[i].date) {
                let w = choose|w: int|
                    0 <= w < points.len() && (#[trigger] points[w]).date == rows[i].date
                        && in_window(rows[i].date, lo, hi);
                assert(false);
            }
        }
    } else {
        let pre = points.drop_last();
        let prev = spec_sync(rows, package, registry, pre, lo, hi);
        let out = spec_sync(rows, package, registry, points, lo, hi);
        let p = points.last();
        assert forall|d: Seq<u8>| #[trigger] written_date(pre, lo, hi, d) implies has_key(
            rows,
            sync_key(d, package, registry),
        ) by {
            let i = choose|i: int|
                0 <= i < pre.len() && (#[trigger] pre[i]).date == d && in_window(d, lo, hi);
            assert(points[i].date == d);
            assert(written_date(points, lo, hi, d));
        }
        lemma_sync_absorbed(rows, package, registry, pre, lo, hi);
        assert forall|i: int| 0 <= i < rows.len() implies (#[trigger] prev[i]).key()
            == rows[i].key() by {
            if touched(rows[i], package, registry, pre, lo, hi) {
                assert(prev[i] == rec_v(
                    rows[i].date,
                    package,
                    registry,
                    bytes_of("total"@),
                    last_value(pre, rows[i].date),
                ));
            }
        }
        assert(unique_keys(prev)) by {
            assert forall|a: int, b: int| 0 <= a < b < prev.len() implies prev[a].key()
                != prev[b].key() by {
                assert(prev[a].key() == rows[a].key() && prev[b].key() == rows[b].key());
            }
        }
        if in_window(p.date, lo, hi) {
            let rec = row_of_point(p, package, registry);
            let kp = sync_key(p.date, package, registry);
            assert(rec.key() == kp);
            assert(written_date(points, lo, hi, p.date)) by {
                assert(points[points.len() - 1].date == p.date);
            }
            assert(has_key(rows, kp));
            let w0 = choose|w0: int| 0 <= w0 < rows.len() && (#[trigger] rows[w0]).key() == kp;
            assert(prev[w0].key() == kp);
            assert(has_key(prev, kp)) by {
                assert(0 <= w0 < prev.len() && prev[w0].key() == kp);
            }
            lemma_upsert_wf(prev, rec);
            assert(out == spec_upsert(prev, rec));
            let w = key_index(prev, kp);
            assert(0 <= w < prev.len() && prev[w].key() == kp);
            if w != w0 {
                assert(rows[w].key() == kp);
                assert(false);
            }
            assert(out == prev.update(w, rec));
            assert(rows[w].date == p.date);
            assert forall|i: int| 0 <= i < rows.len() implies (#[trigger] out[i]) == (if touched(
                rows[i],
                package,
                registry,
                points,
                lo,
                hi,
            ) {
                rec_v(
                    rows[i].date,
                    package,
                    registry,
                    bytes_of("total"@),
                    last_value(points, rows[i].date),
                )
            } else {
                rows[i]
            }) by {
                if i == w {
                    assert(out[i] == rec);
                    assert(touched(rows[i], package, registry, points, lo, hi));
                    assert(last_value(points, p.date) == p.downloads);
                } else {
                    assert(out[i] == prev[i]);
                    if rows[i].date == p.date {
                        if touched(rows[i], package, registry, points, lo, hi)
                            || touched(rows[i], package, registry, pre, lo, hi) {
                            assert(rows[i].key() == kp);
                            assert(false);
                        }
                    } else {
                        assert(last_value(points, rows[i].date) == last_value(pre, rows[i].date));
                        assert(written_date(points, lo, hi, rows[i].date) == written_date(
                            pre,
                            lo,
                            hi,
                            rows[i].date,
                        )) by {
                            if written_date(points, lo, hi, rows[i].date) {
                                let x = choose|x: int|
                                    0 <= x < points.len() && (#[trigger] points[x]).date
                                        == rows[i].date && in_window(rows[i].date, lo, hi);
                                assert(x < points.len() - 1);
                                assert(pre[x].date == rows[i].date);
                            }
                            if written_date(pre, lo, hi, rows[i].date) {
                                let x = choose|x: int|
                                    0 <= x < pre.len() && (#[trigger] pre[x]).date == rows[i].date
                                        && in_window(rows[i].date, lo, hi);
                                assert(points[x].date == rows[i].date);
                            }
                        }
                    }
                }
            }
        } else {
            assert(out == prev);
            assert forall|i: int| 0 <= i < rows.len() implies (#[trigger] out[i]) == (if touched(
                rows[i],
                package,
                registry,
                points,
                lo,
                hi,
            ) {
                rec_v(
                    rows[i].date,
                    package,
                    registry,
                    bytes_of("total"@),
                    last_value(points, rows[i].date),
                )
            } else {
                rows[i]
            }) by {
                assert(written_date(points, lo, hi, rows[i].date) == written_date(
                    pre,
                    lo,
                    hi,
                    rows[i].date,
                )) by {
                    if written_date(points, lo, hi, rows[i].date) {
                        let x = choose|x: int|
                            0 <= x < points.len() && (#[trigger] points[x]).date == rows[i].date
                                && in_window(rows[i].date, lo, hi);
                        if x == points.len() - 1 {
                            assert(false);
                        }
                        assert(pre[x].date == rows[i].date);
                    }
                    if written_date(pre, lo, hi, rows[i].date) {
                        let x = choose|x: int|
                            0 <= x < pre.len() && (#[trigger] pre[x]).date == rows[i].date
                                && in_window(rows[i].date, lo, hi);
                        assert(points[x].date == rows[i].date);
                    }
                }
                if touched(rows[i], package, registry, points, lo, hi) {
                    assert(rows[i].date != p.date);
                    assert(last_value(points, rows[i].date) == last_value(pre, rows[i].date));
                }
            }
        }
    }
}

/// Idempotence: running the same sync again, with the same points and the
/// same window, leaves the store exactly as the first run left it.
pub proof fn lemma_sync_idempotent(
    rows: Seq<RecV>,
    package: Seq<u8>,
    registry: Registry,
    points: Seq<PointV>,
    lo: Seq<u8>,
    hi: Seq<u8>,
)
    requires
        unique_keys(rows),
    ensures
        spec_sync(
            spec_sync(rows, package, registry, points, lo, hi),
            package,
            registry,
            points,
            lo,
            hi,
        ) == spec_sync(rows, package, registry, points, lo, hi),
{
    let s1 = spec_sync(rows, package, registry, points, lo, hi);
    let s2 = spec_sync(s1, package, registry, points, lo, hi);
    lemma_sync_wf(rows, package, registry, points, lo, hi);
    assert forall|d: Seq<u8>| #[trigger] written_date(points, lo, hi, d) implies has_key(
        s1,
        sync_key(d, package, registry),
    ) by {
        lemma_sync_writes(rows, package, registry, points, lo, hi, d);
    }
    lemma_sync_absorbed(s1, package, registry, points, lo, hi);
    assert forall|i: int| 0 <= i < s1.len() implies s2[i] == s1[i] by {
        if touched(s1[i], package, registry, points, lo, hi) {
            let d = s1[i].date;
            let kd = sync_key(d, package, registry);
            lemma_sync_writes(rows, package, registry, points, lo, hi, d);
            let w = key_index(s1, kd);
            assert(0 <= w < s1.len() && s1[w].key() == kd);
            assert(s1[i].key() == kd);
            if w != i {
                assert(false);
            }
            assert(s1[i] == rec_v(d, package, registry, bytes_of("total"@), last_value(points, d)));
        }
    }
    assert(s2 =~= s1);
}

} // verus!
