//! The repo/package mapping configuration and its fully config-derived
//! table.
//!
//! The configuration maps each repository name to a list of (package,
//! registry) pairs. Loading it replaces the whole mapping table with the
//! freshly parsed set: the table is a pure function of the current
//! configuration, never an accumulating history.

use vstd::prelude::*;

verus! {

use vstd::string::StringSliceAdditionalSpecFns;
use crate::store::bytes_of;
use crate::strbytes::{lex_lt, lemma_lex_lt_iff, lemma_lex_lt_trans};

/// One (package, registry) pair a repository maps to.
pub struct PackageMapping {
    pub package: String,
    pub registry: String,
}

/// The value of a mapping pair.
pub ghost struct PkgMapV {
    pub package: Seq<u8>,
    pub registry: Seq<u8>,
}

impl View for PackageMapping {
    type V = PkgMapV;

    open spec fn view(&self) -> PkgMapV {
        PkgMapV { package: bytes_of(self.package@), registry: bytes_of(self.registry@) }
    }
}

/// One repository's entry in the configuration.
pub ghost struct RepoV {
    pub repo: Seq<u8>,
    pub mappings: Seq<PkgMapV>,
}

/// The declarative mapping configuration: each repository's list of
/// (package, registry) pairs.
pub struct PackagesConfig {
    pub repo_mappings: Vec<(String, Vec<PackageMapping>)>,
}

impl View for PackagesConfig {
    type V = Seq<RepoV>;

    open spec fn view(&self) -> Seq<RepoV> {
        self.repo_mappings@.map_values(
            |e: (String, Vec<PackageMapping>)| RepoV {
                repo: bytes_of(e.0@),
                mappings: e.1@.map_values(|m: PackageMapping| m@),
            },
        )
    }
}

/// Whether some repository maps `package` under `registry`.
pub open spec fn config_has_package(cfg: Seq<RepoV>, registry: Seq<u8>, package: Seq<u8>) -> bool {
    exists|i: int, j: int|
        0 <= i < cfg.len() && 0 <= j < cfg[i].mappings.len()
            && (#[trigger] cfg[i].mappings[j]).registry == registry
            && cfg[i].mappings[j].package == package
}

/// Whether repository entry `entry` maps `package` under `registry` among
/// its first `upto` pairs.
pub open spec fn entry_has_package(entry: RepoV, registry: Seq<u8>, package: Seq<u8>, upto: int) -> bool {
    exists|j: int|
        0 <= j < upto && j < entry.mappings.len()
            && (#[trigger] entry.mappings[j]).registry == registry
            && entry.mappings[j].package == package
}

/// Whether the list holds a string with these bytes.
pub open spec fn str_list_has(ps: Seq<String>, p: Seq<u8>) -> bool {
    exists|k: int| 0 <= k < ps.len() && bytes_of((#[trigger] ps[k])@) == p
}

/// The list is strictly sorted: increasing with no duplicates.
pub open spec fn strictly_sorted_strs(ps: Seq<String>) -> bool {
    forall|k1: int, k2: int|
        0 <= k1 < k2 < ps.len() ==> lex_lt(bytes_of(#[trigger] ps[k1]@), bytes_of(#[trigger] ps[k2]@))
}

/// Every listed package is mapped under `registry` by the configuration.
pub open spec fn all_from_config(ps: Seq<String>, cfg: Seq<RepoV>, registry: Seq<u8>) -> bool {
    forall|k: int|
        0 <= k < ps.len() ==> config_has_package(cfg, registry, bytes_of((#[trigger] ps[k])@))
}

/// Every package the configuration maps under `registry` is listed.
pub open spec fn covers_config(ps: Seq<String>, cfg: Seq<RepoV>, registry: Seq<u8>) -> bool {
    forall|i: int, j: int|
        0 <= i < cfg.len() && 0 <= j < cfg[i].mappings.len()
            && (#[trigger] cfg[i].mappings[j]).registry == registry
            ==> str_list_has(ps, cfg[i].mappings[j].package)
}

/// A package mapped among a prefix of the configuration is mapped by the
/// longer prefix too.
proof fn lemma_config_has_extend(cfg: Seq<RepoV>, entry: RepoV, registry: Seq<u8>, package: Seq<u8>)
    requires
        config_has_package(cfg, registry, package),
    ensures
        config_has_package(cfg.push(entry), registry, package),
{
    let (i, j) = choose|i: int, j: int|
        0 <= i < cfg.len() && 0 <= j < cfg[i].mappings.len()
            && (#[trigger] cfg[i].mappings[j]).registry == registry
            && cfg[i].mappings[j].package == package;
    assert(cfg.push(entry)[i] == cfg[i]);
    assert((cfg.push(entry)[i].mappings[j]).registry == registry);
}

/// A package one entry maps is mapped by a configuration ending in that
/// entry.
proof fn lemma_entry_to_config(cfg: Seq<RepoV>, entry: RepoV, registry: Seq<u8>, package: Seq<u8>)
    requires
        entry_has_package(entry, registry, package, entry.mappings.len() as int),
    ensures
        config_has_package(cfg.push(entry), registry, package),
{
    let j = choose|j: int|
        0 <= j < entry.mappings.len() && j < entry.mappings.len()
            && (#[trigger] entry.mappings[j]).registry == registry
            && entry.mappings[j].package == package;
    let i = cfg.len() as int;
    assert(cfg.push(entry)[i] == entry);
    assert((cfg.push(entry)[i].mappings[j]).registry == registry);
}

/// One materialized mapping row.
pub struct MappingRow {
    pub repo: String,
    pub package: String,
    pub registry: String,
}

/// The value of a mapping row.
pub ghost struct MapRowV {
    pub repo: Seq<u8>,
    pub package: Seq<u8>,
    pub registry: Seq<u8>,
}

impl View for MappingRow {
    type V = MapRowV;

    open spec fn view(&self) -> MapRowV {
        MapRowV {
            repo: bytes_of(self.repo@),
            package: bytes_of(self.package@),
            registry: bytes_of(self.registry@),
        }
    }
}

/// The rows one repository entry materializes.
pub open spec fn rows_of_entry(entry: RepoV) -> Seq<MapRowV> {
    entry.mappings.map_values(
        |m: PkgMapV| MapRowV { repo: entry.repo, package: m.package, registry: m.registry },
    )
}

/// The rows a whole configuration materializes, in configuration order.
pub open spec fn spec_config_rows(cfg: Seq<RepoV>) -> Seq<MapRowV>
    decreases cfg.len(),
{
    if cfg.len() == 0 {
        Seq::empty()
    } else {
        spec_config_rows(cfg.drop_last()) + rows_of_entry(cfg.last())
    }
}

/// Whether the configuration declares this row.
pub open spec fn config_has_row(cfg: Seq<RepoV>, r: MapRowV) -> bool {
    exists|i: int, j: int|
        0 <= i < cfg.len() && 0 <= j < cfg[i].mappings.len() && r == (MapRowV {
            repo: cfg[i].repo,
            package: (#[trigger] cfg[i].mappings[j]).package,
            registry: cfg[i].mappings[j].registry,
        })
}

/// The materialized table holds exactly the configuration's entries: a row
/// stands in it if and only if some repository declares that (package,
/// registry) pair under that repository's name. So after loading a
/// configuration over any prior contents — those of an earlier
/// configuration included — only the newly loaded entries are queryable.
pub proof fn lemma_config_rows_membership(cfg: Seq<RepoV>, r: MapRowV)
    ensures
        spec_config_rows(cfg).contains(r) == config_has_row(cfg, r),
    decreases cfg.len(),
{
    if cfg.len() == 0 {
    } else {
        let pre = cfg.drop_last();
        let entry = cfg.last();
        let rows = spec_config_rows(cfg);
        lemma_config_rows_membership(pre, r);
        if rows.contains(r) {
            let k = choose|k: int| 0 <= k < rows.len() && rows[k] == r;
            let plen = spec_config_rows(pre).len() as int;
            if k < plen {
                assert(spec_config_rows(pre)[k] == r);
                assert(spec_config_rows(pre).contains(r));
                let (i, j) = choose|i: int, j: int|
                    0 <= i < pre.len() && 0 <= j < pre[i].mappings.len() && r == (MapRowV {
                        repo: pre[i].repo,
                        package: (#[trigger] pre[i].mappings[j]).package,
                        registry: pre[i].mappings[j].registry,
                    });
                assert(cfg[i] == pre[i]);
                assert(r == (MapRowV {
                    repo: cfg[i].repo,
                    package: (cfg[i].mappings[j]).package,
                    registry: cfg[i].mappings[j].registry,
                }));
            } else {
                let j = k - plen;
                assert(rows_of_entry(entry)[j] == r);
                let i = cfg.len() - 1;
                assert(cfg[i] == entry);
                assert(r == (MapRowV {
                    repo: cfg[i].repo,
                    package: (cfg[i].mappings[j]).package,
                    registry: cfg[i].mappings[j].registry,
                }));
            }
        }
        if config_has_row(cfg, r) {
            let (i, j) = choose|i: int, j: int|
                0 <= i < cfg.len() && 0 <= j < cfg[i].mappings.len() && r == (MapRowV {
                    repo: cfg[i].repo,
                    package: (#[trigger] cfg[i].mappings[j]).package,
                    registry: cfg[i].mappings[j].registry,
                });
            let plen = spec_config_rows(pre).len() as int;
            if i < cfg.len() - 1 {
                assert(pre[i] == cfg[i]);
                assert(r == (MapRowV {
                    repo: pre[i].repo,
                    package: (pre[i].mappings[j]).package,
                    registry: pre[i].mappings[j].registry,
                }));
                assert(config_has_row(pre, r));
                assert(spec_config_rows(pre).contains(r));
                let k = choose|k: int|
                    0 <= k < spec_config_rows(pre).len() && spec_config_rows(pre)[k] == r;
                assert(rows[k] == r);
            } else {
                assert(cfg[i] == entry);
                assert(rows_of_entry(entry)[j] == r);
                assert(rows[plen + j] == r);
            }
        }
    }
}

/// The mapping table, fully derived from the last loaded configuration.
pub struct MappingStore {
    rows: Vec<MappingRow>,
}

impl View for MappingStore {
    type V = Seq<MapRowV>;

    closed spec fn view(&self) -> Seq<MapRowV> {
        self.rows@.map_values(|r: MappingRow| r@)
    }
}

impl MappingStore {
    /// A fresh, empty table.
    pub fn new() -> (s: Self)
        ensures
            s@ == Seq::<MapRowV>::empty(),
    {
        let s = MappingStore { rows: Vec::new() };
        proof {
            assert(s@ =~= Seq::<MapRowV>::empty());
        }
        s
    }

    /// How many mapping rows the table holds.
    pub fn len(&self) -> (n: usize)
        ensures
            n == self@.len(),
    {
        self.rows.len()
    }

    /// Whether the table holds exactly this row.
    pub fn contains_row(&self, repo: &str, package: &str, registry: &str) -> (r: bool)
        ensures
            r == self@.contains(
                (MapRowV {
                    repo: bytes_of(repo@),
                    package: bytes_of(package@),
                    registry: bytes_of(registry@),
                }),
            ),
    {
        let ghost target = MapRowV {
            repo: bytes_of(repo@),
            package: bytes_of(package@),
            registry: bytes_of(registry@),
        };
        let n = self.rows.len();
        let mut i: usize = 0;
        while i < n
            invariant
                n == self.rows.len(),
                n == self@.len(),
                i <= n,
                target == (MapRowV {
                    repo: bytes_of(repo@),
                    package: bytes_of(package@),
                    registry: bytes_of(registry@),
                }),
                forall|j: int| 0 <= j < i ==> #[trigger] self@[j] != target,
            decreases n - i,
        {
            assert(self@[i as int] == self.rows@[i as int]@);
            if crate::strbytes::str_eq(self.rows[i].repo.as_str(), repo)
                && crate::strbytes::str_eq(self.rows[i].package.as_str(), package)
                && crate::strbytes::str_eq(self.rows[i].registry.as_str(), registry) {
                assert(self@[i as int] == target);
                assert(self@.contains(target));
                return true;
            }
            assert(self@[i as int] != target);
            i = i + 1;
        }
        assert(!self@.contains(target)) by {
            if self@.contains(target) {
                let j = choose|j: int| 0 <= j < self@.len() && self@[j] == target;
                assert(false);
            }
        }
        false
    }
}

/// Loads the configuration into the mapping table: all prior rows are
/// cleared first, so afterwards the table holds exactly the
/// configuration's entries, whatever stood there before. Returns how many
/// rows were written.
pub fn load_repo_mappings(store: &mut MappingStore, config: &PackagesConfig) -> (n: usize)
    ensures
        final(store)@ == spec_config_rows(config@),
        n == spec_config_rows(config@).len(),
{
    store.rows.clear();
    let mut i: usize = 0;
    let n = config.repo_mappings.len();
    proof {
        assert(store@ =~= Seq::<MapRowV>::empty());
        assert(config@.take(0) =~= Seq::<RepoV>::empty());
    }
    while i < n
        invariant
            n == config.repo_mappings.len(),
            n == config@.len(),
            i <= n,
            store@ == spec_config_rows(config@.take(i as int)),
        decreases n - i,
    {
        let ghost pre = config@.take(i as int);
        let ghost cur_cfg = config@.take(i as int + 1);
        let ghost entry = config@[i as int];
        proof {
            assert(cur_cfg.drop_last() =~= pre);
            assert(cur_cfg.last() == entry);
            assert(config@[i as int] == (RepoV {
                repo: bytes_of(config.repo_mappings@[i as int].0@),
                mappings: config.repo_mappings@[i as int].1@.map_values(
                    |m: PackageMapping| m@,
                ),
            }));
        }
        let mlen = config.repo_mappings[i].1.len();
        let mut j: usize = 0;
        proof {
            assert(rows_of_entry(entry).take(0) =~= Seq::<MapRowV>::empty());
            assert(store@ + rows_of_entry(entry).take(0) =~= store@);
        }
        while j < mlen
            invariant
                n == config.repo_mappings.len(),
                n == config@.len(),
                i < n,
                mlen == config.repo_mappings@[i as int].1@.len(),
                j <= mlen,
                entry == config@[i as int],
                pre == config@.take(i as int),
                entry.mappings.len() == mlen,
                rows_of_entry(entry).len() == mlen,
                store@ == spec_config_rows(pre) + rows_of_entry(entry).take(j as int),
            decreases mlen - j,
        {
            proof {
                assert(entry.mappings[j as int]
                    == config.repo_mappings@[i as int].1@[j as int]@);
                assert(rows_of_entry(entry)[j as int] == (MapRowV {
                    repo: entry.repo,
                    package: entry.mappings[j as int].package,
                    registry: entry.mappings[j as int].registry,
                }));
            }
            let row = MappingRow {
                repo: config.repo_mappings[i].0.clone(),
                package: config.repo_mappings[i].1[j].package.clone(),
                registry: config.repo_mappings[i].1[j].registry.clone(),
            };
            assert(row@ == rows_of_entry(entry)[j as int]);
            let ghost prows = store@;
            store.rows.push(row);
            proof {
                assert(store@ =~= prows.push(rows_of_entry(entry)[j as int]));
                assert(rows_of_entry(entry).take(j as int + 1) =~= rows_of_entry(entry).take(
                    j as int,
                ).push(rows_of_entry(entry)[j as int]));
                assert(store@ =~= spec_config_rows(pre) + rows_of_entry(entry).take(j as int + 1));
            }
            j = j + 1;
        }
        proof {
            assert(rows_of_entry(entry).take(mlen as int) =~= rows_of_entry(entry));
            assert(spec_config_rows(cur_cfg) == spec_config_rows(pre) + rows_of_entry(entry));
        }
        i = i + 1;
    }
    proof {
        assert(config@.take(i as int) =~= config@);
    }
    store.rows.len()
}

/// The first position in a sorted list not strictly before `s`.
fn lower_bound_str(out: &Vec<String>, s: &str) -> (pos: usize)
    ensures
        pos <= out@.len(),
        forall|k: int| 0 <= k < pos ==> lex_lt(bytes_of(#[trigger] out@[k]@), s.spec_bytes()),
        pos < out@.len() ==> !lex_lt(bytes_of(out@[pos as int]@), s.spec_bytes()),
{
    let mut pos: usize = 0;
    let n = out.len();
    while pos < n
        invariant
            n == out@.len(),
            pos <= n,
            forall|k: int| 0 <= k < pos ==> lex_lt(bytes_of(#[trigger] out@[k]@), s.spec_bytes()),
        decreases n - pos,
    {
        if !crate::strbytes::str_lt(out[pos].as_str(), s) {
            return pos;
        }
        pos = pos + 1;
    }
    pos
}

/// Inserts a string into a strictly sorted list, keeping it sorted and
/// deduplicated: afterwards the list holds exactly the old strings plus
/// this one.
fn insert_str_sorted(out: &mut Vec<String>, s: String)
    requires
        strictly_sorted_strs(old(out)@),
    ensures
        strictly_sorted_strs(final(out)@),
        forall|p: Seq<u8>|
            #[trigger] str_list_has(final(out)@, p) <==> str_list_has(old(out)@, p) || p
                == bytes_of(s@),
{
    let ghost prior = out@;
    let ghost sb = bytes_of(s@);
    let pos = lower_bound_str(out, s.as_str());
    if pos < out.len() {
        if crate::strbytes::str_eq(out[pos].as_str(), s.as_str()) {
            proof {
                assert(bytes_of(prior[pos as int]@) == sb);
                assert(str_list_has(prior, sb));
                assert forall|p: Seq<u8>|
                    #[trigger] str_list_has(out@, p) <==> str_list_has(prior, p) || p == sb by {
                    if p == sb {
                        assert(str_list_has(out@, p));
                    }
                }
            }
            return;
        }
    }
    proof {
        assert forall|k: int| pos <= k < prior.len() implies lex_lt(
            sb,
            bytes_of(#[trigger] prior[k]@),
        ) by {
            let pb = bytes_of(prior[pos as int]@);
            lemma_lex_lt_iff(pb, sb);
            assert(lex_lt(sb, pb));
            if k > pos {
                lemma_lex_lt_trans(sb, pb, bytes_of(prior[k]@));
            }
        }
    }
    out.insert(pos, s);
    proof {
        let cur = out@;
        assert(forall|k: int| 0 <= k < pos ==> cur[k] == prior[k]);
        assert(cur[pos as int] == s);
        assert(forall|k: int| pos < k < cur.len() ==> cur[k] == prior[k - 1]);
        assert forall|k1: int, k2: int| 0 <= k1 < k2 < cur.len() implies lex_lt(
            bytes_of(#[trigger] cur[k1]@),
            bytes_of(#[trigger] cur[k2]@),
        ) by {
            if k2 < pos {
            } else if k1 < pos && k2 == pos {
                assert(lex_lt(bytes_of(prior[k1]@), sb));
            } else if k1 < pos && k2 > pos {
                assert(lex_lt(bytes_of(prior[k1]@), bytes_of(prior[k2 - 1]@)));
            } else if k1 == pos {
                assert(lex_lt(sb, bytes_of(prior[k2 - 1]@)));
            } else {
                assert(lex_lt(bytes_of(prior[k1 - 1]@), bytes_of(prior[k2 - 1]@)));
            }
        }
        assert forall|p: Seq<u8>|
            #[trigger] str_list_has(cur, p) <==> str_list_has(prior, p) || p == sb by {
            if str_list_has(cur, p) {
                let k = choose|k: int| 0 <= k < cur.len() && bytes_of((#[trigger] cur[k])@) == p;
                if k < pos {
                    assert(bytes_of(prior[k]@) == p);
                } else if k > pos {
                    assert(bytes_of(prior[k - 1]@) == p);
                }
            }
            if str_list_has(prior, p) {
                let k = choose|k: int| 0 <= k < prior.len() && bytes_of((#[trigger] prior[k])@) == p;
                if k < pos {
                    assert(bytes_of(cur[k]@) == p);
                } else {
                    assert(bytes_of(cur[k + 1]@) == p);
                }
            }
            if p == sb {
                assert(bytes_of(cur[pos as int]@) == p);
            }
        }
    }
}

impl PackagesConfig {
    /// All distinct packages the configuration maps under `registry`, in
    /// increasing order: sorted, deduplicated, and exactly the packages
    /// some repository maps there.
    pub fn packages_for_registry(&self, registry: &str) -> (r: Vec<String>)
        ensures
            strictly_sorted_strs(r@),
            all_from_config(r@, self@, bytes_of(registry@)),
            covers_config(r@, self@, bytes_of(registry@)),
    {
        let ghost regb = bytes_of(registry@);
        let mut out: Vec<String> = Vec::new();
        let mut i: usize = 0;
        let n = self.repo_mappings.len();
        while i < n
            invariant
                n == self.repo_mappings.len(),
                n == self@.len(),
                i <= n,
                regb == bytes_of(registry@),
                strictly_sorted_strs(out@),
                all_from_config(out@, self@.take(i as int), regb),
                covers_config(out@, self@.take(i as int), regb),
            decreases n - i,
        {
            let ghost pre = self@.take(i as int);
            let ghost cur_cfg = self@.take(i as int + 1);
            let ghost entry = self@[i as int];
            proof {
                assert(cur_cfg =~= pre.push(entry));
                assert(self@[i as int] == (RepoV {
                    repo: bytes_of(self.repo_mappings@[i as int].0@),
                    mappings: self.repo_mappings@[i as int].1@.map_values(
                        |m: PackageMapping| m@,
                    ),
                }));
            }
            let mlen = self.repo_mappings[i].1.len();
            let mut j: usize = 0;
            while j < mlen
                invariant
                    n == self.repo_mappings.len(),
                    n == self@.len(),
                    i < n,
                    mlen == self.repo_mappings@[i as int].1@.len(),
                    j <= mlen,
                    regb == bytes_of(registry@),
                    entry == self@[i as int],
                    pre == self@.take(i as int),
                    entry.mappings.len() == mlen,
                    strictly_sorted_strs(out@),
                    forall|k: int|
                        0 <= k < out@.len() ==> config_has_package(
                            pre,
                            regb,
                            bytes_of((#[trigger] out@[k])@),
                        ) || entry_has_package(entry, regb, bytes_of(out@[k]@), j as int),
                    covers_config(out@, pre, regb),
                    forall|j2: int|
                        0 <= j2 < j && (#[trigger] entry.mappings[j2]).registry == regb
                            ==> str_list_has(out@, entry.mappings[j2].package),
                decreases mlen - j,
            {
                proof {
                    assert(entry.mappings[j as int] == self.repo_mappings@[i as int].1@[j as int]@);
                }
                let matches_reg = crate::strbytes::str_eq(
                    self.repo_mappings[i].1[j].registry.as_str(),
                    registry,
                );
                if matches_reg {
                    assert(entry.mappings[j as int].registry == regb);
                    let ghost prior = out@;
                    let p = self.repo_mappings[i].1[j].package.clone();
                    assert(bytes_of(p@) == entry.mappings[j as int].package);
                    insert_str_sorted(&mut out, p);
                    proof {
                        assert forall|k: int| 0 <= k < out@.len() implies config_has_package(
                            pre,
                            regb,
                            bytes_of((#[trigger] out@[k])@),
                        ) || entry_has_package(entry, regb, bytes_of(out@[k]@), j as int + 1) by {
                            assert(str_list_has(out@, bytes_of(out@[k]@)));
                            if str_list_has(prior, bytes_of(out@[k]@)) {
                                let k0 = choose|k0: int|
                                    0 <= k0 < prior.len() && bytes_of((#[trigger] prior[k0])@)
                                        == bytes_of(out@[k]@);
                                assert(config_has_package(pre, regb, bytes_of(prior[k0]@))
                                    || entry_has_package(entry, regb, bytes_of(prior[k0]@), j as int));
                            } else {
                                assert(bytes_of(out@[k]@) == entry.mappings[j as int].package);
                                assert(entry_has_package(entry, regb, bytes_of(out@[k]@), j as int + 1));
                            }
                        }
                        assert forall|j2: int|
                            0 <= j2 < j + 1 && (#[trigger] entry.mappings[j2]).registry == regb
                            implies str_list_has(out@, entry.mappings[j2].package) by {
                            if j2 < j {
                                assert(str_list_has(prior, entry.mappings[j2].package));
                            } else {
                                assert(entry.mappings[j2].package == bytes_of(p@));
                            }
                        }
                        assert forall|i2: int, j2: int|
                            0 <= i2 < pre.len() && 0 <= j2 < pre[i2].mappings.len()
                                && (#[trigger] pre[i2].mappings[j2]).registry == regb
                            implies str_list_has(out@, pre[i2].mappings[j2].package) by {
                            assert(str_list_has(prior, pre[i2].mappings[j2].package));
                        }
                    }
                } else {
                    assert(entry.mappings[j as int].registry != regb);
                    assert forall|k: int| 0 <= k < out@.len() implies config_has_package(
                        pre,
                        regb,
                        bytes_of((#[trigger] out@[k])@),
                    ) || entry_has_package(entry, regb, bytes_of(out@[k]@), j as int + 1) by {
                        if entry_has_package(entry, regb, bytes_of(out@[k]@), j as int) {
                            let j0 = choose|j0: int|
                                0 <= j0 < j && j0 < entry.mappings.len()
                                    && (#[trigger] entry.mappings[j0]).registry == regb
                                    && entry.mappings[j0].package == bytes_of(out@[k]@);
                            assert(entry_has_package(entry, regb, bytes_of(out@[k]@), j as int + 1));
                        }
                    }
                }
                j = j + 1;
            }
            proof {
                assert forall|k: int| 0 <= k < out@.len() implies config_has_package(
                    cur_cfg,
                    regb,
                    bytes_of((#[trigger] out@[k])@),
                ) by {
                    if config_has_package(pre, regb, bytes_of(out@[k]@)) {
                        lemma_config_has_extend(pre, entry, regb, bytes_of(out@[k]@));
                    } else {
                        assert(entry_has_package(entry, regb, bytes_of(out@[k]@), mlen as int));
                        lemma_entry_to_config(pre, entry, regb, bytes_of(out@[k]@));
                    }
                }
                assert forall|i2: int, j2: int|
                    0 <= i2 < cur_cfg.len() && 0 <= j2 < cur_cfg[i2].mappings.len()
                        && (#[trigger] cur_cfg[i2].mappings[j2]).registry == regb
                    implies str_list_has(out@, cur_cfg[i2].mappings[j2].package) by {
                    if i2 < i {
                        assert(cur_cfg[i2] == pre[i2]);
                        assert((pre[i2].mappings[j2]).registry == regb);
                    } else {
                        assert(cur_cfg[i2] == entry);
                        assert((entry.mappings[j2]).registry == regb);
                    }
                }
            }
            i = i + 1;
        }
        proof {
            assert(self@.take(i as int) =~= self@);
        }
        out
    }
}

} // verus!
