use polyvoice::short_filter::partition_by_min_duration;

/// Seconds to whole nanoseconds.
fn ns(secs: f64) -> i64 {
    (secs * 1_000_000_000.0).round() as i64
}

fn durs(secs: &[f64]) -> Vec<i64> {
    secs.iter().map(|&s| ns(s)).collect()
}

#[test]
fn partition_keeps_long_drops_short() {
    let (kept, short) = partition_by_min_duration(&durs(&[2.0, 0.5, 3.0, 1.0]), ns(1.6));
    assert_eq!(kept, vec![0, 2]);
    assert_eq!(short, vec![1, 3]);
}

#[test]
fn partition_zero_threshold_keeps_all() {
    let (kept, short) = partition_by_min_duration(&durs(&[0.1, 0.2]), ns(0.0));
    assert_eq!(kept, vec![0, 1]);
    assert!(short.is_empty());
}

#[test]
fn partition_all_short_promotes_longest() {
    let (kept, short) = partition_by_min_duration(&durs(&[0.3, 0.9, 0.5]), ns(1.6));
    assert_eq!(kept, vec![1]);
    assert_eq!(short, vec![0, 2]);
}

#[test]
fn partition_empty_durations_returns_empty() {
    let (kept, short) = partition_by_min_duration(&vec![], ns(1.6));
    assert!(kept.is_empty());
    assert!(short.is_empty());
}

#[test]
fn partition_negative_threshold_keeps_all() {
    let (kept, short) = partition_by_min_duration(&durs(&[0.0, 0.5]), ns(-1.0));
    assert_eq!(kept, vec![0, 1]);
    assert!(short.is_empty());
}

#[test]
fn partition_all_short_tie_promotes_lowest_index() {
    // Equal durations: the lowest index wins the promotion tie-break.
    let (kept, short) = partition_by_min_duration(&durs(&[0.5, 0.5, 0.5]), ns(1.6));
    assert_eq!(kept, vec![0]);
    assert_eq!(short, vec![1, 2]);
}

#[test]
fn partition_boundary_duration_is_kept() {
    // Exactly the minimum counts as long enough.
    let (kept, short) = partition_by_min_duration(&durs(&[1.6, 1.59]), ns(1.6));
    assert_eq!(kept, vec![0]);
    assert_eq!(short, vec![1]);
}

#[test]
fn partition_lists_every_index_once() {
    let d = durs(&[0.2, 3.0, 1.6, 0.0, 2.5, 1.599999999]);
    let (kept, short) = partition_by_min_duration(&d, ns(1.6));
    assert_eq!(kept, vec![1, 2, 4]);
    assert_eq!(short, vec![0, 3, 5]);
    for i in 0..d.len() {
        assert!(kept.contains(&i) != short.contains(&i));
    }
}
