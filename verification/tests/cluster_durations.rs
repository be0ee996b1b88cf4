use polyvoice::durations::{cluster_durations, union_length};
use polyvoice::time::TimeRange;

const S: f64 = 1_000_000_000.0;

fn tr(start: f64, end: f64) -> TimeRange {
    TimeRange { start: (start * S).round() as i64, end: (end * S).round() as i64 }
}

fn duration_of(d: &[(usize, u64)], label: usize) -> f64 {
    d.iter().find(|e| e.0 == label).expect("label present").1 as f64 / S
}

fn check_disjoint_spans_summed_separately() {
    // Disjoint spans in one cluster must not be merged into a single span:
    // total = (1.0) + (1.0) = 2.0, not the 4.0 outer envelope.
    let times = vec![tr(0.0, 1.0), tr(3.0, 4.0), tr(0.5, 2.0)];
    let labels = vec![0, 0, 1];
    let durs = cluster_durations(&times, &labels);
    assert!((duration_of(&durs, 0) - 2.0).abs() < 1e-12);
    assert!((duration_of(&durs, 1) - 1.5).abs() < 1e-12);
}

#[test]
fn mod_cluster_durations_sums_disjoint_spans_separately() {
    check_disjoint_spans_summed_separately();
}

#[test]
fn tests_cluster_durations_sums_disjoint_spans_separately() {
    check_disjoint_spans_summed_separately();
}

#[test]
fn overlapping_spans_count_once() {
    // [0, 2) and [1, 3) in any order cover 3 s; [5, 5) is empty; [2, 4)
    // touches and extends.
    let spans = vec![tr(1.0, 3.0), tr(5.0, 5.0), tr(0.0, 2.0), tr(2.0, 4.0)];
    assert_eq!(union_length(&spans), 4_000_000_000);
    assert_eq!(union_length(&vec![]), 0);
    // An inverted span holds no instant.
    assert_eq!(union_length(&vec![TimeRange { start: 10, end: 3 }]), 0);
    assert_eq!(union_length(&vec![TimeRange { start: i64::MIN, end: i64::MAX }]), u64::MAX);
}

#[test]
fn durations_list_each_label_once_in_order() {
    let times = vec![tr(0.0, 1.0), tr(0.0, 1.0), tr(2.0, 3.0), tr(0.5, 1.5)];
    // The label of the window without a time range is left out.
    let labels = vec![4, 2, 4, 2, 9];
    let d = cluster_durations(&times, &labels);
    assert_eq!(d, vec![(4, 2_000_000_000), (2, 1_500_000_000)]);
}
