//! The canonical time-series store for daily download counts.
//!
//! A record is keyed by (date, package, registry, version); the store keeps
//! at most one record per key, and writing an existing key replaces the
//! stored count ("last write wins"). Re-running a sync over an overlapping
//! date range therefore never duplicates rows.

use vstd::prelude::*;

verus! {

use vstd::string::StringSliceAdditionalSpecFns;
use crate::strbytes::{lex_le, lex_lt};

/// The UTF-8 bytes of a character sequence: the identity under which
/// stored strings are compared.
pub open spec fn bytes_of(s: Seq<char>) -> Seq<u8> {
    vstd::utf8::encode_utf8(s)
}

/// A package distribution service whose download statistics are tracked.
#[derive(Clone, Copy, PartialEq, Eq, Structural, Debug, Hash)]
pub enum Registry {
    Pypi,
    Npm,
}

/// One stored row: the downloads counted for a package on one calendar day.
/// `version` is currently always the sentinel `"total"`; it is part of the
/// key so that per-version counts can be added later without a migration.
pub struct DownloadRecord {
    pub date: String,
    pub package: String,
    pub registry: Registry,
    pub version: String,
    pub downloads: u64,
}

/// The mathematical value of a stored row: its strings taken as UTF-8 bytes.
pub ghost struct RecV {
    pub date: Seq<u8>,
    pub package: Seq<u8>,
    pub registry: Registry,
    pub version: Seq<u8>,
    pub downloads: u64,
}

/// The composite key of a row.
pub ghost struct KeyV {
    pub date: Seq<u8>,
    pub package: Seq<u8>,
    pub registry: Registry,
    pub version: Seq<u8>,
}

impl RecV {
    pub open spec fn key(self) -> KeyV {
        KeyV { date: self.date, package: self.package, registry: self.registry, version: self.version }
    }
}

/// Builds the value a call to `upsert` writes.
pub open spec fn rec_v(
    date: Seq<u8>,
    package: Seq<u8>,
    registry: Registry,
    version: Seq<u8>,
    downloads: u64,
) -> RecV {
    RecV { date, package, registry, version, downloads }
}

impl View for DownloadRecord {
    type V = RecV;

    open spec fn view(&self) -> RecV {
        RecV {
            date: bytes_of(self.date@),
            package: bytes_of(self.package@),
            registry: self.registry,
            version: bytes_of(self.version@),
            downloads: self.downloads,
        }
    }
}

/// No two rows share a key.
pub open spec fn unique_keys(rows: Seq<RecV>) -> bool {
    forall|i: int, j: int| 0 <= i < j < rows.len() ==> rows[i].key() != rows[j].key()
}

/// Whether some row carries key `k`.
pub open spec fn has_key(rows: Seq<RecV>, k: KeyV) -> bool {
    exists|i: int| 0 <= i < rows.len() && rows[i].key() == k
}

/// The index of the row carrying key `k` (meaningful when `has_key` and
/// keys are unique).
pub open spec fn key_index(rows: Seq<RecV>, k: KeyV) -> int {
    choose|i: int| 0 <= i < rows.len() && rows[i].key() == k
}

/// Insert-or-replace-by-key: an existing row with `r`'s key is replaced in
/// place; otherwise `r` is appended.
pub open spec fn spec_upsert(rows: Seq<RecV>, r: RecV) -> Seq<RecV> {
    if has_key(rows, r.key()) {
        rows.update(key_index(rows, r.key()), r)
    } else {
        rows.push(r)
    }
}

/// Upserting preserves key uniqueness, keeps every other row in place, and
/// leaves exactly one row with the written key.
pub proof fn lemma_upsert_wf(rows: Seq<RecV>, r: RecV)
    requires
        unique_keys(rows),
    ensures
        unique_keys(spec_upsert(rows, r)),
        has_key(spec_upsert(rows, r), r.key()),
        spec_upsert(rows, r)[key_index(spec_upsert(rows, r), r.key())] == r,
        forall|k: KeyV| has_key(spec_upsert(rows, r), k) <==> has_key(rows, k) || k == r.key(),
        forall|i: int|
            0 <= i < spec_upsert(rows, r).len() && spec_upsert(rows, r)[i].key() != r.key()
                ==> 0 <= i < rows.len() && spec_upsert(rows, r)[i] == rows[i],
{
    let out = spec_upsert(rows, r);
    if has_key(rows, r.key()) {
        let i = key_index(rows, r.key());
        assert(0 <= i < rows.len() && rows[i].key() == r.key());
        assert forall|k: KeyV| has_key(out, k) implies has_key(rows, k) || k == r.key() by {
            let j = choose|j: int| 0 <= j < out.len() && out[j].key() == k;
            if j != i {
                assert(rows[j].key() == k);
            }
        }
        assert forall|k: KeyV| has_key(rows, k) implies has_key(out, k) by {
            let j = choose|j: int| 0 <= j < rows.len() && rows[j].key() == k;
            if j == i {
                assert(out[i].key() == r.key());
            } else {
                assert(out[j].key() == k);
            }
        }
        assert(has_key(out, r.key()));
        let w = key_index(out, r.key());
        assert(0 <= w < out.len() && out[w].key() == r.key());
        if w != i {
            assert(rows[w].key() == r.key());
            assert(false);
        }
    } else {
        assert(out == rows.push(r));
        assert forall|a: int, b: int| 0 <= a < b < out.len() implies out[a].key() != out[b].key() by {
            if b < rows.len() {
                assert(out[a] == rows[a] && out[b] == rows[b]);
            } else {
                assert(out[b] == r);
                assert(out[a] == rows[a]);
                assert(!(rows[a].key() == r.key()));
            }
        }
        assert(out[rows.len() as int].key() == r.key());
        let w = key_index(out, r.key());
        assert(0 <= w < out.len() && out[w].key() == r.key());
        if w < rows.len() {
            assert(rows[w].key() == r.key());
            assert(false);
        }
        assert forall|k: KeyV| has_key(out, k) implies has_key(rows, k) || k == r.key() by {
            let j = choose|j: int| 0 <= j < out.len() && out[j].key() == k;
            if j < rows.len() {
                assert(rows[j].key() == k);
            }
        }
        assert forall|k: KeyV| has_key(rows, k) implies has_key(out, k) by {
            let j = choose|j: int| 0 <= j < rows.len() && rows[j].key() == k;
            assert(out[j].key() == k);
        }
    }
}

/// Writing a key and then writing the same key again leaves the store as if
/// only the second write had happened: the later value wins and no second
/// row appears.
pub proof fn lemma_upsert_last_wins(rows: Seq<RecV>, r1: RecV, r2: RecV)
    requires
        unique_keys(rows),
        r1.key() == r2.key(),
    ensures
        spec_upsert(spec_upsert(rows, r1), r2) == spec_upsert(rows, r2),
{
    let mid = spec_upsert(rows, r1);
    lemma_upsert_wf(rows, r1);
    if has_key(rows, r1.key()) {
        let i = key_index(rows, r1.key());
        assert(0 <= i < rows.len() && rows[i].key() == r1.key());
        let j = key_index(mid, r2.key());
        assert(mid[j].key() == r2.key());
        if j != i {
            assert(mid[j] == rows[j]);
            assert(false);
        }
        assert(spec_upsert(mid, r2) == mid.update(i, r2));
        assert(spec_upsert(rows, r2) == rows.update(i, r2)) by {
            let w = key_index(rows, r2.key());
            if w != i {
                assert(rows[w].key() == r2.key());
                assert(false);
            }
        }
        assert(mid.update(i, r2) =~= rows.update(i, r2));
    } else {
        assert(mid == rows.push(r1));
        let n = rows.len() as int;
        assert(mid[n] == r1);
        let j = key_index(mid, r2.key());
        assert(mid[j].key() == r2.key());
        if j != n {
            assert(mid[j] == rows[j]);
            assert(has_key(rows, r1.key()));
            assert(false);
        }
        assert(!has_key(rows, r2.key()));
        assert(spec_upsert(mid, r2) == mid.update(n, r2));
        assert(mid.update(n, r2) =~= rows.push(r2));
    }
}

/// Whether a row belongs to the aggregate (`"total"`) series of `package`
/// on `registry`.
pub open spec fn selected(r: RecV, package: Seq<u8>, registry: Registry) -> bool {
    r.package == package && r.registry == registry && r.version == bytes_of("total"@)
}

/// The sum of the stored daily counts of `package` on `registry`.
pub open spec fn spec_total(rows: Seq<RecV>, package: Seq<u8>, registry: Registry) -> int
    decreases rows.len(),
{
    if rows.len() == 0 {
        0
    } else {
        spec_total(rows.drop_last(), package, registry) + (if selected(
            rows.last(),
            package,
            registry,
        ) {
            rows.last().downloads as int
        } else {
            0
        })
    }
}

pub proof fn lemma_total_nonneg(rows: Seq<RecV>, package: Seq<u8>, registry: Registry)
    ensures
        spec_total(rows, package, registry) >= 0,
    decreases rows.len(),
{
    if rows.len() > 0 {
        lemma_total_nonneg(rows.drop_last(), package, registry);
    }
}

/// A prefix never sums to more than the whole sequence.
proof fn lemma_total_take_le(rows: Seq<RecV>, package: Seq<u8>, registry: Registry, j: int)
    requires
        0 <= j <= rows.len(),
    ensures
        spec_total(rows.take(j), package, registry) <= spec_total(rows, package, registry),
    decreases rows.len(),
{
    if j == rows.len() {
        assert(rows.take(j) =~= rows);
    } else {
        lemma_total_take_le(rows.drop_last(), package, registry, j);
        assert(rows.drop_last().take(j) =~= rows.take(j));
    }
}

/// How a result pair of `get_downloads_by_date` reads as a value.
pub open spec fn view_pair(p: (String, u64)) -> (Seq<u8>, u64) {
    (bytes_of(p.0@), p.1)
}

/// The (date, count) value a row contributes to a date-ranged query.
pub open spec fn pair_of(r: RecV) -> (Seq<u8>, u64) {
    (r.date, r.downloads)
}

/// Result pairs are in strictly increasing date order.
pub open spec fn strictly_sorted_dates(ps: Seq<(String, u64)>) -> bool {
    forall|k1: int, k2: int|
        0 <= k1 < k2 < ps.len() ==> lex_lt(
            bytes_of(#[trigger] ps[k1].0@),
            bytes_of(#[trigger] ps[k2].0@),
        )
}

/// Whether the result list holds a pair with this value.
pub open spec fn contains_pair(ps: Seq<(String, u64)>, q: (Seq<u8>, u64)) -> bool {
    exists|k: int| 0 <= k < ps.len() && view_pair(#[trigger] ps[k]) == q
}

/// Whether a row lies in the queried series and the inclusive date range.
pub open spec fn in_date_range(
    r: RecV,
    package: Seq<u8>,
    registry: Registry,
    lo: Seq<u8>,
    hi: Seq<u8>,
) -> bool {
    selected(r, package, registry) && lex_le(lo, r.date) && lex_le(r.date, hi)
}

/// The pair reads some row of `rows` that lies in the queried range.
pub open spec fn pair_sourced(
    p: (String, u64),
    rows: Seq<RecV>,
    package: Seq<u8>,
    registry: Registry,
    lo: Seq<u8>,
    hi: Seq<u8>,
) -> bool {
    exists|j: int|
        0 <= j < rows.len() && in_date_range(#[trigger] rows[j], package, registry, lo, hi)
            && view_pair(p) == pair_of(rows[j])
}

/// Every pair of the result reads some in-range row.
pub open spec fn sourced_pairs(
    ps: Seq<(String, u64)>,
    rows: Seq<RecV>,
    package: Seq<u8>,
    registry: Registry,
    lo: Seq<u8>,
    hi: Seq<u8>,
) -> bool {
    forall|k: int|
        0 <= k < ps.len() ==> pair_sourced(#[trigger] ps[k], rows, package, registry, lo, hi)
}

/// Every in-range row is read by some pair of the result.
pub open spec fn covers_range(
    ps: Seq<(String, u64)>,
    rows: Seq<RecV>,
    package: Seq<u8>,
    registry: Registry,
    lo: Seq<u8>,
    hi: Seq<u8>,
) -> bool {
    forall|j: int|
        0 <= j < rows.len() && in_date_range(#[trigger] rows[j], package, registry, lo, hi)
            ==> contains_pair(ps, pair_of(rows[j]))
}

/// A pair sourced from `rows` is still sourced after a row is appended.
proof fn lemma_pair_sourced_push(
    p: (String, u64),
    rows: Seq<RecV>,
    r: RecV,
    package: Seq<u8>,
    registry: Registry,
    lo: Seq<u8>,
    hi: Seq<u8>,
)
    requires
        pair_sourced(p, rows, package, registry, lo, hi),
    ensures
        pair_sourced(p, rows.push(r), package, registry, lo, hi),
{
    let j = choose|j: int|
        0 <= j < rows.len() && in_date_range(#[trigger] rows[j], package, registry, lo, hi)
            && view_pair(p) == pair_of(rows[j]);
    assert(rows.push(r)[j] == rows[j]);
    assert(in_date_range(rows.push(r)[j], package, registry, lo, hi));
}

/// Being sourced depends on the pair only through its value.
proof fn lemma_pair_sourced_same_view(
    p1: (String, u64),
    p2: (String, u64),
    rows: Seq<RecV>,
    package: Seq<u8>,
    registry: Registry,
    lo: Seq<u8>,
    hi: Seq<u8>,
)
    requires
        pair_sourced(p1, rows, package, registry, lo, hi),
        view_pair(p1) == view_pair(p2),
    ensures
        pair_sourced(p2, rows, package, registry, lo, hi),
{
    let j = choose|j: int|
        0 <= j < rows.len() && in_date_range(#[trigger] rows[j], package, registry, lo, hi)
            && view_pair(p1) == pair_of(rows[j]);
    assert(in_date_range(rows[j], package, registry, lo, hi));
    assert(view_pair(p2) == pair_of(rows[j]));
}

/// A sourced pair's date differs from the date of a same-series row whose
/// key no row of `rows` carries.
proof fn lemma_sourced_date_ne(
    p: (String, u64),
    rows: Seq<RecV>,
    package: Seq<u8>,
    registry: Registry,
    lo: Seq<u8>,
    hi: Seq<u8>,
    other: RecV,
)
    requires
        pair_sourced(p, rows, package, registry, lo, hi),
        selected(other, package, registry),
        forall|j: int| 0 <= j < rows.len() ==> (#[trigger] rows[j]).key() != other.key(),
    ensures
        view_pair(p).0 != other.date,
{
    let j = choose|j: int|
        0 <= j < rows.len() && in_date_range(#[trigger] rows[j], package, registry, lo, hi)
            && view_pair(p) == pair_of(rows[j]);
    assert(rows[j].key() != other.key());
    if rows[j].date == other.date {
        assert(rows[j].key() == other.key());
        assert(false);
    }
}

/// The first position whose date is not strictly before `date`.
fn lower_bound_date(out: &Vec<(String, u64)>, date: &str) -> (pos: usize)
    ensures
        pos <= out@.len(),
        forall|k: int| 0 <= k < pos ==> lex_lt(bytes_of(#[trigger] out@[k].0@), date.spec_bytes()),
        pos < out@.len() ==> !lex_lt(bytes_of(out@[pos as int].0@), date.spec_bytes()),
{
    let mut pos: usize = 0;
    let n = out.len();
    while pos < n
        invariant
            n == out@.len(),
            pos <= n,
            forall|k: int| 0 <= k < pos ==> lex_lt(bytes_of(#[trigger] out@[k].0@), date.spec_bytes()),
        decreases n - pos,
    {
        if !crate::strbytes::str_lt(out[pos].0.as_str(), date) {
            return pos;
        }
        pos = pos + 1;
    }
    pos
}

/// Inserts a (date, count) pair into a list kept in strictly increasing
/// date order; the new date must not already be present.
fn insert_pair_by_date(out: &mut Vec<(String, u64)>, date: String, downloads: u64)
    requires
        strictly_sorted_dates(old(out)@),
        forall|k: int| 0 <= k < old(out)@.len()
            ==> bytes_of(#[trigger] old(out)@[k].0@) != bytes_of(date@),
    ensures
        strictly_sorted_dates(final(out)@),
        final(out)@.len() == old(out)@.len() + 1,
        contains_pair(final(out)@, (bytes_of(date@), downloads)),
        forall|q: (Seq<u8>, u64)| contains_pair(old(out)@, q) ==> contains_pair(final(out)@, q),
        forall|k: int| 0 <= k < final(out)@.len()
            ==> contains_pair(old(out)@, view_pair(#[trigger] final(out)@[k]))
                || view_pair(final(out)@[k]) == (bytes_of(date@), downloads),
{
    let ghost prior = out@;
    let ghost d = bytes_of(date@);
    let pos = lower_bound_date(out, date.as_str());
    proof {
        assert forall|k: int| pos <= k < prior.len() implies lex_lt(
            d,
            bytes_of(#[trigger] prior[k].0@),
        ) by {
            let pb = bytes_of(prior[pos as int].0@);
            crate::strbytes::lemma_lex_lt_iff(pb, d);
            assert(lex_lt(d, pb));
            if k > pos {
                crate::strbytes::lemma_lex_lt_trans(d, pb, bytes_of(prior[k].0@));
            }
        }
    }
    out.insert(pos, (date, downloads));
    proof {
        let cur = out@;
        assert(forall|k: int| 0 <= k < pos ==> cur[k] == prior[k]);
        assert(cur[pos as int] == (date, downloads));
        assert(forall|k: int| pos < k < cur.len() ==> cur[k] == prior[k - 1]);
        assert forall|k1: int, k2: int| 0 <= k1 < k2 < cur.len() implies lex_lt(
            bytes_of(#[trigger] cur[k1].0@),
            bytes_of(#[trigger] cur[k2].0@),
        ) by {
            if k2 < pos {
            } else if k1 < pos && k2 == pos {
                assert(lex_lt(bytes_of(prior[k1].0@), d));
            } else if k1 < pos && k2 > pos {
                assert(lex_lt(bytes_of(prior[k1].0@), bytes_of(prior[k2 - 1].0@)));
            } else if k1 == pos {
                assert(lex_lt(d, bytes_of(prior[k2 - 1].0@)));
            } else {
                assert(lex_lt(bytes_of(prior[k1 - 1].0@), bytes_of(prior[k2 - 1].0@)));
            }
        }
        assert(contains_pair(cur, (d, downloads))) by {
            assert(view_pair(cur[pos as int]) == (d, downloads));
        }
        assert forall|q: (Seq<u8>, u64)| contains_pair(prior, q) implies contains_pair(cur, q) by {
            let k = choose|k: int| 0 <= k < prior.len() && view_pair(#[trigger] prior[k]) == q;
            if k < pos {
                assert(view_pair(cur[k]) == q);
            } else {
                assert(view_pair(cur[k + 1]) == q);
            }
        }
        assert forall|k: int| 0 <= k < cur.len() implies contains_pair(
            prior,
            view_pair(#[trigger] cur[k]),
        ) || view_pair(cur[k]) == (d, downloads) by {
            if k < pos {
                assert(view_pair(prior[k]) == view_pair(cur[k]));
            } else if k > pos {
                assert(view_pair(prior[k - 1]) == view_pair(cur[k]));
            }
        }
    }
}

/// The download time series, an in-memory table with the upsert contract.
pub struct DownloadStore {
    rows: Vec<DownloadRecord>,
}

impl View for DownloadStore {
    type V = Seq<RecV>;

    closed spec fn view(&self) -> Seq<RecV> {
        self.rows@.map_values(|r: DownloadRecord| r@)
    }
}

impl DownloadStore {
    /// Every operation preserves this: no two rows share a key.
    pub open spec fn wf(&self) -> bool {
        unique_keys(self@)
    }

    /// A fresh, empty store.
    pub fn new() -> (s: Self)
        ensures
            s@ == Seq::<RecV>::empty(),
            s.wf(),
    {
        let s = DownloadStore { rows: Vec::new() };
        proof {
            assert(s@ =~= Seq::<RecV>::empty());
        }
        s
    }

    /// How many rows the store holds.
    pub fn len(&self) -> (n: usize)
        ensures
            n == self@.len(),
    {
        self.rows.len()
    }

    /// Writes one row, replacing any row that already carries the same
    /// (date, package, registry, version) key.
    pub fn upsert(&mut self, date: &str, package: &str, registry: Registry, version: &str, downloads: u64)
        requires
            old(self).wf(),
        ensures
            final(self).wf(),
            final(self)@ == spec_upsert(
                old(self)@,
                rec_v(bytes_of(date@), bytes_of(package@), registry, bytes_of(version@), downloads),
            ),
    {
        let ghost r = rec_v(bytes_of(date@), bytes_of(package@), registry, bytes_of(version@), downloads);
        let rec = DownloadRecord {
            date: date.to_owned(),
            package: package.to_owned(),
            registry,
            version: version.to_owned(),
            downloads,
        };
        assert(rec@ == r);
        let n = self.rows.len();
        let mut i: usize = 0;
        while i < n
            invariant
                n == self.rows.len(),
                i <= n,
                *self == *old(self),
                old(self).wf(),
                forall|j: int| 0 <= j < i ==> old(self)@[j].key() != r.key(),
                rec@ == r,
                r == rec_v(bytes_of(date@), bytes_of(package@), registry, bytes_of(version@), downloads),
            decreases n - i,
        {
            assert(self@[i as int] == self.rows@[i as int]@);
            let same = crate::strbytes::str_eq(self.rows[i].date.as_str(), date)
                && crate::strbytes::str_eq(self.rows[i].package.as_str(), package)
                && self.rows[i].registry == registry
                && crate::strbytes::str_eq(self.rows[i].version.as_str(), version);
            if same {
                assert(self@[i as int].key() == r.key());
                assert(has_key(old(self)@, r.key()));
                proof {
                    let w = key_index(old(self)@, r.key());
                    assert(0 <= w < old(self)@.len() && old(self)@[w].key() == r.key());
                    if w != i as int {
                        assert(false);
                    }
                }
                self.rows[i] = rec;
                proof {
                    assert(self@ =~= old(self)@.update(i as int, r));
                    lemma_upsert_wf(old(self)@, r);
                }
                return;
            }
            assert(self@[i as int].key() != r.key());
            i = i + 1;
        }
        assert(!has_key(old(self)@, r.key()));
        self.rows.push(rec);
        proof {
            assert(self@ =~= old(self)@.push(r));
            lemma_upsert_wf(old(self)@, r);
        }
    }

    /// The sum of all stored daily counts of `package` on `registry`
    /// (the aggregate `"total"` series); `None` exactly when that sum does
    /// not fit in a `u64`.
    pub fn get_total_downloads(&self, package: &str, registry: Registry) -> (r: Option<u64>)
        ensures
            spec_total(self@, bytes_of(package@), registry) <= u64::MAX ==> r == Some(
                spec_total(self@, bytes_of(package@), registry) as u64,
            ),
            spec_total(self@, bytes_of(package@), registry) > u64::MAX ==> r is None,
    {
        let ghost pkg = bytes_of(package@);
        let mut acc: u64 = 0;
        let mut i: usize = 0;
        let n = self.rows.len();
        proof {
            assert(self@.take(0) =~= Seq::<RecV>::empty());
        }
        while i < n
            invariant
                n == self.rows.len(),
                n == self@.len(),
                i <= n,
                pkg == bytes_of(package@),
                acc == spec_total(self@.take(i as int), pkg, registry),
            decreases n - i,
        {
            assert(self@[i as int] == self.rows@[i as int]@);
            proof {
                assert(self@.take(i as int + 1).drop_last() =~= self@.take(i as int));
                assert(self@.take(i as int + 1).last() == self@[i as int]);
            }
            let sel = crate::strbytes::str_eq(self.rows[i].package.as_str(), package)
                && self.rows[i].registry == registry
                && crate::strbytes::str_eq(self.rows[i].version.as_str(), "total");
            if sel {
                assert(selected(self@[i as int], pkg, registry));
                let d = self.rows[i].downloads;
                match acc.checked_add(d) {
                    Some(a) => {
                        acc = a;
                    },
                    None => {
                        proof {
                            lemma_total_take_le(self@, pkg, registry, i as int + 1);
                        }
                        return None;
                    },
                }
            } else {
                assert(!selected(self@[i as int], pkg, registry));
            }
            i = i + 1;
        }
        proof {
            assert(self@.take(n as int) =~= self@);
        }
        Some(acc)
    }

    /// The (date, count) series of `package` on `registry` restricted to
    /// dates in `[start_date, end_date]` inclusive, in increasing date
    /// order: exactly the stored rows of that series in that range.
    pub fn get_downloads_by_date(
        &self,
        package: &str,
        registry: Registry,
        start_date: &str,
        end_date: &str,
    ) -> (r: Vec<(String, u64)>)
        requires
            self.wf(),
        ensures
            strictly_sorted_dates(r@),
            sourced_pairs(r@, self@, bytes_of(package@), registry, bytes_of(start_date@), bytes_of(end_date@)),
            covers_range(r@, self@, bytes_of(package@), registry, bytes_of(start_date@), bytes_of(end_date@)),
    {
        let ghost pkg = bytes_of(package@);
        let ghost lo = bytes_of(start_date@);
        let ghost hi = bytes_of(end_date@);
        let mut out: Vec<(String, u64)> = Vec::new();
        let mut i: usize = 0;
        let n = self.rows.len();
        while i < n
            invariant
                n == self.rows.len(),
                n == self@.len(),
                i <= n,
                self.wf(),
                pkg == bytes_of(package@),
                lo == bytes_of(start_date@),
                hi == bytes_of(end_date@),
                strictly_sorted_dates(out@),
                sourced_pairs(out@, self@.take(i as int), pkg, registry, lo, hi),
                covers_range(out@, self@.take(i as int), pkg, registry, lo, hi),
            decreases n - i,
        {
            assert(self@[i as int] == self.rows@[i as int]@);
            let ghost pre = self@.take(i as int);
            let ghost cur_rows = self@.take(i as int + 1);
            proof {
                assert(cur_rows =~= pre.push(self@[i as int]));
            }
            let sel = crate::strbytes::str_eq(self.rows[i].package.as_str(), package)
                && self.rows[i].registry == registry
                && crate::strbytes::str_eq(self.rows[i].version.as_str(), "total")
                && crate::strbytes::str_le(start_date, self.rows[i].date.as_str())
                && crate::strbytes::str_le(self.rows[i].date.as_str(), end_date);
            if sel {
                assert(in_date_range(self@[i as int], pkg, registry, lo, hi));
                let ghost prior = out@;
                assert forall|k: int| 0 <= k < out@.len() implies bytes_of(#[trigger] out@[k].0@)
                    != bytes_of(self.rows@[i as int].date@) by {
                    assert(pair_sourced(out@[k], pre, pkg, registry, lo, hi));
                    assert forall|j: int| 0 <= j < pre.len() implies (#[trigger] pre[j]).key()
                        != self@[i as int].key() by {
                        assert(pre[j] == self@[j]);
                    }
                    lemma_sourced_date_ne(out@[k], pre, pkg, registry, lo, hi, self@[i as int]);
                    assert(view_pair(out@[k]).0 == bytes_of(out@[k].0@));
                    assert(self@[i as int].date == bytes_of(self.rows@[i as int].date@));
                };
                let date = self.rows[i].date.clone();
                let downloads = self.rows[i].downloads;
                insert_pair_by_date(&mut out, date, downloads);
                proof {
                    assert forall|k: int| 0 <= k < out@.len() implies pair_sourced(
                        #[trigger] out@[k],
                        cur_rows,
                        pkg,
                        registry,
                        lo,
                        hi,
                    ) by {
                        if contains_pair(prior, view_pair(out@[k])) {
                            let k0 = choose|k0: int|
                                0 <= k0 < prior.len() && view_pair(#[trigger] prior[k0]) == view_pair(out@[k]);
                            assert(pair_sourced(prior[k0], pre, pkg, registry, lo, hi));
                            lemma_pair_sourced_push(prior[k0], pre, self@[i as int], pkg, registry, lo, hi);
                            lemma_pair_sourced_same_view(prior[k0], out@[k], cur_rows, pkg, registry, lo, hi);
                        } else {
                            assert(view_pair(out@[k]) == (bytes_of(date@), downloads));
                            assert(view_pair(out@[k]) == pair_of(self@[i as int]));
                            assert(cur_rows[i as int] == self@[i as int]);
                            assert(in_date_range(cur_rows[i as int], pkg, registry, lo, hi));
                        }
                    };
                    assert forall|j: int|
                        0 <= j < cur_rows.len() && in_date_range(#[trigger] cur_rows[j], pkg, registry, lo, hi)
                        implies contains_pair(out@, pair_of(cur_rows[j])) by {
                        if j < i {
                            assert(cur_rows[j] == self@[j] && pre[j] == self@[j]);
                            assert(in_date_range(pre[j], pkg, registry, lo, hi));
                            assert(contains_pair(prior, pair_of(pre[j])));
                            assert(contains_pair(out@, pair_of(cur_rows[j])));
                        } else {
                            assert(cur_rows[j] == self@[i as int]);
                            assert(contains_pair(out@, (bytes_of(date@), downloads)));
                            assert(pair_of(self@[i as int]) == (bytes_of(date@), downloads));
                        }
                    };
                }
            } else {
                assert(!in_date_range(self@[i as int], pkg, registry, lo, hi));
                proof {
                    assert forall|k: int| 0 <= k < out@.len() implies pair_sourced(
                        #[trigger] out@[k],
                        cur_rows,
                        pkg,
                        registry,
                        lo,
                        hi,
                    ) by {
                        assert(pair_sourced(out@[k], pre, pkg, registry, lo, hi));
                        lemma_pair_sourced_push(out@[k], pre, self@[i as int], pkg, registry, lo, hi);
                    };
                    assert forall|j: int|
                        0 <= j < cur_rows.len() && in_date_range(#[trigger] cur_rows[j], pkg, registry, lo, hi)
                        implies contains_pair(out@, pair_of(cur_rows[j])) by {
                        if j < i {
                            assert(cur_rows[j] == self@[j] && pre[j] == self@[j]);
                            assert(in_date_range(pre[j], pkg, registry, lo, hi));
                            assert(contains_pair(out@, pair_of(pre[j])));
                        } else {
                            assert(cur_rows[j] == self@[i as int]);
                            assert(false);
                        }
                    };
                }
            }
            i = i + 1;
        }
        proof {
            assert(self@.take(i as int) =~= self@);
        }
        out
    }
}

} // verus!
