use civilis::stats::RequestOutcome;
use civilis::stats::RequestStatistics;

#[test]
fn add_request_statistic() {
    let mut stats = RequestStatistics::new();
    stats.add(RequestOutcome::Fail);

    assert_eq!(stats.get_total_count(), 1);
}

#[test]
fn fmt_request_statistic() {
    let mut stats = RequestStatistics::new();
    stats.add(RequestOutcome::Success);
    stats.add(RequestOutcome::Fail);
    stats.add(RequestOutcome::Blocked);

    assert_eq!(stats.summary(), "3 requests");
}

#[test]
fn fresh_statistics_are_empty() {
    let stats = RequestStatistics::new();
    assert_eq!(stats.get_total_count(), 0);
    assert_eq!(stats.summary(), "0 requests");
}
