use strands_metrics::mappings::{load_repo_mappings, MappingStore, PackageMapping, PackagesConfig};
use strands_metrics::store::{DownloadStore, Registry};
use strands_metrics::sync::{
    backfill_npm_downloads, backfill_pypi_downloads, npm_window, sync_npm_downloads,
    sync_pypi_downloads, upsert_points_in_window, DailyPoint,
};

fn point(date: &str, downloads: u64) -> DailyPoint {
    DailyPoint { date: date.to_string(), downloads }
}

#[test]
fn upsert_precedence_last_write_wins() {
    let mut store = DownloadStore::new();
    store.upsert("2024-01-01", "pkg", Registry::Pypi, "total", 100);
    store.upsert("2024-01-01", "pkg", Registry::Pypi, "total", 150);
    assert_eq!(store.len(), 1);
    assert_eq!(store.get_total_downloads("pkg", Registry::Pypi), Some(150));
    let series = store.get_downloads_by_date("pkg", Registry::Pypi, "2024-01-01", "2024-01-01");
    assert_eq!(series, vec![("2024-01-01".to_string(), 150)]);
}

#[test]
fn upsert_distinct_keys_coexist() {
    let mut store = DownloadStore::new();
    store.upsert("2024-01-01", "pkg", Registry::Pypi, "total", 10);
    store.upsert("2024-01-02", "pkg", Registry::Pypi, "total", 20);
    store.upsert("2024-01-01", "other", Registry::Pypi, "total", 30);
    store.upsert("2024-01-01", "pkg", Registry::Npm, "total", 40);
    assert_eq!(store.len(), 4);
    assert_eq!(store.get_total_downloads("pkg", Registry::Pypi), Some(30));
}

#[test]
fn npm_response_example_round_trip() {
    let mut store = DownloadStore::new();
    let points = vec![point("2024-01-01", 500)];
    let n = upsert_points_in_window(
        &mut store,
        "pkg",
        Registry::Npm,
        &points,
        "2023-12-01",
        "2024-02-01",
    );
    assert_eq!(n, 1);
    let series = store.get_downloads_by_date("pkg", Registry::Npm, "2024-01-01", "2024-01-01");
    assert_eq!(series, vec![("2024-01-01".to_string(), 500)]);
}

#[test]
fn sync_is_idempotent() {
    let mut once = DownloadStore::new();
    let mut twice = DownloadStore::new();
    let points = vec![
        point("2024-01-01", 5),
        point("2024-01-02", 7),
        point("2024-01-02", 9),
        point("2024-03-01", 11),
    ];
    let lo = "2024-01-01";
    let hi = "2024-01-31";
    let n1 = upsert_points_in_window(&mut once, "pkg", Registry::Pypi, &points, lo, hi);
    let n2 = upsert_points_in_window(&mut twice, "pkg", Registry::Pypi, &points, lo, hi);
    let n3 = upsert_points_in_window(&mut twice, "pkg", Registry::Pypi, &points, lo, hi);
    assert_eq!(n1, 3);
    assert_eq!(n2, n3);
    assert_eq!(once.len(), 2);
    assert_eq!(twice.len(), 2);
    let a = once.get_downloads_by_date("pkg", Registry::Pypi, "2024-01-01", "2024-12-31");
    let b = twice.get_downloads_by_date("pkg", Registry::Pypi, "2024-01-01", "2024-12-31");
    assert_eq!(a, b);
    assert_eq!(a, vec![("2024-01-01".to_string(), 5), ("2024-01-02".to_string(), 9)]);
}

#[test]
fn window_excludes_outside_dates() {
    let mut store = DownloadStore::new();
    let points = vec![
        point("2023-12-31", 1),
        point("2024-01-01", 2),
        point("2024-01-15", 3),
        point("2024-01-31", 4),
        point("2024-02-01", 5),
    ];
    let n = upsert_points_in_window(
        &mut store,
        "pkg",
        Registry::Pypi,
        &points,
        "2024-01-01",
        "2024-01-31",
    );
    assert_eq!(n, 3);
    assert_eq!(store.len(), 3);
    let series = store.get_downloads_by_date("pkg", Registry::Pypi, "2023-01-01", "2025-01-01");
    assert_eq!(
        series,
        vec![
            ("2024-01-01".to_string(), 2),
            ("2024-01-15".to_string(), 3),
            ("2024-01-31".to_string(), 4),
        ]
    );
}

#[test]
fn empty_window_writes_nothing() {
    let mut store = DownloadStore::new();
    let points = vec![point("2024-01-10", 3)];
    let n = upsert_points_in_window(
        &mut store,
        "pkg",
        Registry::Npm,
        &points,
        "2024-02-01",
        "2024-01-01",
    );
    assert_eq!(n, 0);
    assert_eq!(store.len(), 0);
}

#[test]
fn sync_pypi_skips_far_past_and_future_dates() {
    // Whatever "today" is, a 1970 date lies before a 30-day window and a
    // year-9999 date lies after yesterday: neither may be written.
    let mut store = DownloadStore::new();
    let points = vec![point("1970-01-01", 100), point("9999-01-01", 100)];
    let n = sync_pypi_downloads(&mut store, "pkg", 30, &points);
    assert_eq!(n, 0);
    assert_eq!(store.len(), 0);
}

#[test]
fn sync_npm_skips_far_past_and_future_dates() {
    let mut store = DownloadStore::new();
    let points = vec![point("1970-01-01", 100), point("9999-01-01", 100)];
    let n = sync_npm_downloads(&mut store, "pkg", 30, &points);
    assert_eq!(n, 0);
    assert_eq!(store.len(), 0);
}

#[test]
fn sync_writes_yesterday_inside_window() {
    let (_, yesterday) = npm_window(30);
    let mut store = DownloadStore::new();
    let points = vec![point(&yesterday, 42)];
    let n = sync_npm_downloads(&mut store, "pkg", 30, &points);
    let (_, yesterday_after) = npm_window(30);
    if yesterday == yesterday_after {
        // The clock did not cross midnight between the calls, so the
        // point's date was yesterday for the sync too and must be kept.
        assert_eq!(n, 1);
        assert_eq!(store.get_total_downloads("pkg", Registry::Npm), Some(42));
    }
}

#[test]
fn backfills_delegate_to_syncs() {
    let mut a = DownloadStore::new();
    let mut b = DownloadStore::new();
    let points = vec![point("1970-01-01", 1), point("9999-12-31", 2)];
    assert_eq!(backfill_pypi_downloads(&mut a, "pkg", &points), 0);
    assert_eq!(backfill_npm_downloads(&mut b, "pkg", &points), 0);
    assert_eq!(a.len(), 0);
    assert_eq!(b.len(), 0);
}

#[test]
fn total_downloads_sums_only_matching_series() {
    let mut store = DownloadStore::new();
    store.upsert("2024-01-01", "pkg", Registry::Pypi, "total", 10);
    store.upsert("2024-01-02", "pkg", Registry::Pypi, "total", 20);
    store.upsert("2024-01-03", "pkg", Registry::Npm, "total", 40);
    store.upsert("2024-01-04", "other", Registry::Pypi, "total", 80);
    store.upsert("2024-01-05", "pkg", Registry::Pypi, "1.0.0", 160);
    assert_eq!(store.get_total_downloads("pkg", Registry::Pypi), Some(30));
    assert_eq!(store.get_total_downloads("pkg", Registry::Npm), Some(40));
    assert_eq!(store.get_total_downloads("missing", Registry::Pypi), Some(0));
}

#[test]
fn total_downloads_overflow_is_reported() {
    let mut store = DownloadStore::new();
    store.upsert("2024-01-01", "pkg", Registry::Pypi, "total", u64::MAX);
    store.upsert("2024-01-02", "pkg", Registry::Pypi, "total", 1);
    assert_eq!(store.get_total_downloads("pkg", Registry::Pypi), None);
}

#[test]
fn downloads_by_date_sorted_and_bounded() {
    let mut store = DownloadStore::new();
    store.upsert("2024-01-03", "pkg", Registry::Pypi, "total", 3);
    store.upsert("2024-01-01", "pkg", Registry::Pypi, "total", 1);
    store.upsert("2024-01-02", "pkg", Registry::Pypi, "total", 2);
    store.upsert("2024-01-04", "pkg", Registry::Pypi, "total", 4);
    let series = store.get_downloads_by_date("pkg", Registry::Pypi, "2024-01-02", "2024-01-03");
    assert_eq!(
        series,
        vec![("2024-01-02".to_string(), 2), ("2024-01-03".to_string(), 3)]
    );
}

fn mapping(package: &str, registry: &str) -> PackageMapping {
    PackageMapping { package: package.to_string(), registry: registry.to_string() }
}

#[test]
fn packages_for_registry_dedups_and_sorts() {
    let config = PackagesConfig {
        repo_mappings: vec![
            ("repoA".to_string(), vec![mapping("p1", "pypi")]),
            ("repoB".to_string(), vec![mapping("p1", "pypi"), mapping("p2", "npm")]),
        ],
    };
    assert_eq!(config.packages_for_registry("pypi"), vec!["p1".to_string()]);
    assert_eq!(config.packages_for_registry("npm"), vec!["p2".to_string()]);
    assert_eq!(config.packages_for_registry("crates"), Vec::<String>::new());
}

#[test]
fn packages_for_registry_sorted_across_repos() {
    let config = PackagesConfig {
        repo_mappings: vec![
            ("r1".to_string(), vec![mapping("zeta", "npm"), mapping("alpha", "npm")]),
            ("r2".to_string(), vec![mapping("midway", "npm"), mapping("alpha", "npm")]),
        ],
    };
    assert_eq!(
        config.packages_for_registry("npm"),
        vec!["alpha".to_string(), "midway".to_string(), "zeta".to_string()]
    );
}

#[test]
fn mapping_load_counts_and_stores_rows() {
    let config = PackagesConfig {
        repo_mappings: vec![
            ("repoA".to_string(), vec![mapping("p1", "pypi")]),
            ("repoB".to_string(), vec![mapping("p1", "pypi"), mapping("p2", "npm")]),
        ],
    };
    let mut store = MappingStore::new();
    let n = load_repo_mappings(&mut store, &config);
    assert_eq!(n, 3);
    assert_eq!(store.len(), 3);
    assert!(store.contains_row("repoA", "p1", "pypi"));
    assert!(store.contains_row("repoB", "p2", "npm"));
    assert!(!store.contains_row("repoA", "p2", "npm"));
}

#[test]
fn mapping_load_replaces_previous_config() {
    let config_a = PackagesConfig {
        repo_mappings: vec![("repoA".to_string(), vec![mapping("old", "pypi")])],
    };
    let config_b = PackagesConfig {
        repo_mappings: vec![("repoB".to_string(), vec![mapping("new", "npm")])],
    };
    let mut store = MappingStore::new();
    load_repo_mappings(&mut store, &config_a);
    assert!(store.contains_row("repoA", "old", "pypi"));
    let n = load_repo_mappings(&mut store, &config_b);
    assert_eq!(n, 1);
    assert_eq!(store.len(), 1);
    assert!(!store.contains_row("repoA", "old", "pypi"));
    assert!(store.contains_row("repoB", "new", "npm"));
}
