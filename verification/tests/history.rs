use civilis::history::History;

fn init_empty_history(num_shards: u64) -> History {
    History::new(num_shards)
}

fn init_non_empty_history(num_values: usize, num_shards: u64) -> History {
    let mut history = History::new(num_shards);

    for i in 0..num_values {
        history.insert(format!("{} val", i));
    }

    history
}

#[test]
fn length_history_empty() {
    let history = History::new(1);
    assert_eq!(0, history.len());
}

#[test]
fn length_history_non_empty() {
    let num_values = 10;
    let history = init_non_empty_history(num_values, 10);
    assert_eq!(num_values, history.len());
}

#[test]
fn contains_history() {
    let mut history = init_empty_history(10);
    history.insert("test value".to_string());

    assert!(!history.contains("not test value".to_string()));
}

#[test]
fn insert_history() {
    let mut history = init_empty_history(10);

    let test_value: String = "test value".to_string();

    history.insert(test_value.clone());
    assert!(history.contains(test_value.clone()));

    let not_present = history.insert(test_value);
    assert!(!not_present);

    assert_eq!(1, history.len());
}

#[test]
fn insert_history_domain() {
    let mut history = History::new(10);

    let v = vec![
        "qunitjs.com".to_string(),
        "sizzlejs.com".to_string(),
        "webhint.io".to_string(),
        "americanexpress.com".to_string(),
        "coinbase.com".to_string(),
    ];

    for item in v {
        history.insert(item);
    }

    assert!(!history.contains("netflix.com".to_string()));
}

#[test]
fn insert_history_reports_new_exactly_once() {
    let mut history = History::new(4);

    assert!(history.insert("github.com".to_string()));
    assert!(!history.insert("github.com".to_string()));
    assert!(history.contains("github.com".to_string()));
    assert_eq!(1, history.len());
}

#[test]
fn length_history_many_shard_counts() {
    for shards in [1, 3, 16] {
        let history = init_non_empty_history(10, shards);
        assert_eq!(10, history.len());
    }
}
