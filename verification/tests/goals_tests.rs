use strands_metrics::goals::{load_goals, GoalEntry, GoalStore};

fn simple(metric: &str, value: f64) -> (String, GoalEntry) {
    (metric.to_string(), GoalEntry::Simple(value.to_bits()))
}

fn labeled(metric: &str, value: f64, label: Option<&str>) -> (String, GoalEntry) {
    (
        metric.to_string(),
        GoalEntry::WithLabel { value: value.to_bits(), label: label.map(|l| l.to_string()) },
    )
}

#[test]
fn goal_loads_merge_across_configs() {
    let mut store = GoalStore::new();
    let n1 = load_goals(&mut store, &vec![simple("a", 1.0)], "2024-01-01 00:00:00");
    let n2 = load_goals(&mut store, &vec![simple("b", 2.0)], "2024-01-02 00:00:00");
    assert_eq!(n1, 1);
    assert_eq!(n2, 1);
    assert_eq!(store.len(), 2);
    assert_eq!(store.get_goal("a"), Some(1.0f64.to_bits()));
    assert_eq!(store.get_goal("b"), Some(2.0f64.to_bits()));
}

#[test]
fn goal_reload_overwrites_same_metric() {
    let mut store = GoalStore::new();
    load_goals(&mut store, &vec![simple("a", 1.0)], "2024-01-01 00:00:00");
    load_goals(&mut store, &vec![simple("a", 3.5)], "2024-01-02 00:00:00");
    assert_eq!(store.len(), 1);
    assert_eq!(store.get_goal("a"), Some(3.5f64.to_bits()));
}

#[test]
fn goal_duplicate_metric_in_one_load_last_wins() {
    let mut store = GoalStore::new();
    let n = load_goals(
        &mut store,
        &vec![simple("a", 1.0), simple("a", 2.0)],
        "2024-01-01 00:00:00",
    );
    assert_eq!(n, 2);
    assert_eq!(store.len(), 1);
    assert_eq!(store.get_goal("a"), Some(2.0f64.to_bits()));
}

#[test]
fn goal_shapes_normalize_identically() {
    let mut bare = GoalStore::new();
    let mut shaped = GoalStore::new();
    let now = "2024-01-01 00:00:00";
    load_goals(&mut bare, &vec![simple("a", 7.25)], now);
    load_goals(&mut shaped, &vec![labeled("a", 7.25, None)], now);
    assert_eq!(bare.get_goal("a"), shaped.get_goal("a"));
    assert_eq!(bare.list_goals(), shaped.list_goals());
    assert_eq!(bare.get_goals_map(), shaped.get_goals_map());
}

#[test]
fn goal_missing_metric_is_none() {
    let store = GoalStore::new();
    assert_eq!(store.get_goal("absent"), None);
}

#[test]
fn goals_list_sorted_by_metric() {
    let mut store = GoalStore::new();
    let now = "2024-01-01 00:00:00";
    load_goals(
        &mut store,
        &vec![
            labeled("charlie", 3.0, Some("Third")),
            simple("alpha", 1.0),
            simple("bravo", 2.0),
        ],
        now,
    );
    let listed = store.list_goals();
    assert_eq!(
        listed,
        vec![
            ("alpha".to_string(), 1.0f64.to_bits(), None),
            ("bravo".to_string(), 2.0f64.to_bits(), None),
            ("charlie".to_string(), 3.0f64.to_bits(), Some("Third".to_string())),
        ]
    );
}

#[test]
fn goals_map_defaults_missing_labels() {
    let mut store = GoalStore::new();
    let now = "2024-01-01 00:00:00";
    load_goals(
        &mut store,
        &vec![simple("plain", 4.0), labeled("named", 5.0, Some("Adoption"))],
        now,
    );
    let mut map = store.get_goals_map();
    map.sort();
    assert_eq!(
        map,
        vec![
            ("named".to_string(), 5.0f64.to_bits(), "Adoption".to_string()),
            ("plain".to_string(), 4.0f64.to_bits(), "Goal".to_string()),
        ]
    );
}
