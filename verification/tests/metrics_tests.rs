use sbpc::metrics::Metrics;
use std::time::Duration;

#[test]
fn test_metrics_creation() {
    let version = "0.1.3";
    let prefix = "test_sample";
    let command = "sbpc -b test.bam -o test_sample";
    let peaks = 1000;
    let elapsed = Duration::from_secs(60);

    let metrics = Metrics::new(version, prefix, command, peaks, elapsed);

    assert_eq!(metrics.version, version);
    assert_eq!(metrics.prefix, prefix);
    assert_eq!(metrics.command, command);
    assert_eq!(metrics.peaks, peaks);

    assert!(metrics.elapsed.contains("60s"));
}

#[test]
fn test_metrics_date_is_stamped() {
    let metrics = Metrics::new("0.1.3", "p", "cmd", 0, Duration::from_secs(1));
    assert!(!metrics.date.is_empty());
}
