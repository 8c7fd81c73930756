use hexsnake::stats::Stats;

/// Mean final length, as the statistics screen shows it.
fn avg_length(stats: &Stats) -> f64 {
    if stats.games == 0 {
        return 0.0;
    }
    stats.total_final_length as f64 / stats.games as f64
}

#[test]
fn records_and_averages() {
    let mut stats = Stats::default();
    assert_eq!(avg_length(&stats), 0.0);
    stats.record(5, 8);
    stats.record(11, 14);
    assert_eq!(stats.games, 2);
    assert_eq!(avg_length(&stats), 11.0);
    assert_eq!(stats.best_score, 11);
    assert_eq!(stats.best_length, 14);
}

#[test]
fn best_values_never_drop() {
    let mut stats = Stats::default();
    stats.record(9, 12);
    stats.record(3, 6);
    assert_eq!(stats.best_score, 9);
    assert_eq!(stats.best_length, 12);
    assert_eq!(stats.total_final_length, 18);
}
