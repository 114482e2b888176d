use pathtracer::metrics::PerformanceMetrics;
use pathtracer::sampling::{dimension_sets, entry_index, sequence_len, sequence_pairs};

#[test]
fn fresh_metrics_read_zero() {
    let m: PerformanceMetrics<420> = Default::default();
    assert_eq!(m.curr_frame_time(), 0);
    assert_eq!(m.avg_frame_time(), 0);
    assert_eq!(m.time_since_start(), 0);
}

#[test]
fn average_over_a_partial_window() {
    let mut m: PerformanceMetrics<420> = Default::default();
    m.record_frame(10);
    m.record_frame(20);
    m.record_frame(33);
    assert_eq!(m.curr_frame_time(), 33);
    assert_eq!(m.avg_frame_time(), (10 + 20 + 33) / 3);
    assert_eq!(m.time_since_start(), 63);
}

#[test]
fn full_ring_evicts_the_oldest() {
    let mut m: PerformanceMetrics<4> = Default::default();
    for dt in [1u64, 2, 3, 4] {
        m.record_frame(dt);
    }
    assert_eq!(m.avg_frame_time(), (1 + 2 + 3 + 4) / 4);
    m.record_frame(5);
    // the window is now 2, 3, 4, 5
    assert_eq!(m.avg_frame_time(), (2 + 3 + 4 + 5) / 4);
    m.record_frame(100);
    assert_eq!(m.avg_frame_time(), (3 + 4 + 5 + 100) / 4);
    assert_eq!(m.time_since_start(), 1 + 2 + 3 + 4 + 5 + 100);
}

#[test]
fn next_frame_anchors_then_records() {
    let mut m: PerformanceMetrics<16> = Default::default();
    // the first call after a pause only records a timestamp
    m.next_frame();
    assert_eq!(m.avg_frame_time(), 0);
    m.next_frame();
    m.next_frame();
    // two frames measured; with one frame the average equals the sample
    m.pause();
    m.next_frame();
    let before = m.time_since_start();
    m.next_frame();
    assert!(m.time_since_start() >= before);
}

#[test]
fn sequence_len_matches_the_budget_formula() {
    // 1024 samples at 8 bounces: 8 * 2 + 1 = 17 dimension sets each
    assert_eq!(dimension_sets(8), 17);
    assert_eq!(sequence_len(1024, 8), 1024 * 17);
    assert_eq!(sequence_len(1, 0), 1);
    assert_eq!(sequence_len(2, 32), 2 * 65);
}

#[test]
fn entry_index_is_sample_major() {
    assert_eq!(entry_index(0, 0, 8), 0);
    assert_eq!(entry_index(0, 16, 8), 16);
    assert_eq!(entry_index(1, 0, 8), 17);
    assert_eq!(entry_index(3, 5, 8), 3 * 17 + 5);
}

#[test]
fn sequence_pairs_enumerate_in_table_order() {
    let pairs = sequence_pairs(3, 1);
    // 3 samples, 3 dimension sets each
    assert_eq!(pairs.len(), 9);
    assert_eq!(pairs[0], (0, 0));
    assert_eq!(pairs[1], (0, 1));
    assert_eq!(pairs[2], (0, 2));
    assert_eq!(pairs[3], (1, 0));
    assert_eq!(pairs[8], (2, 2));
}
