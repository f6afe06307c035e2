use node_extra_exporter::schedstat::{parse_cpu, parse_schedstat, to_prometheus_sample, Stat};

#[test]
fn test_parse_cpu_empty() {
    assert!(parse_cpu("").is_err());
}

#[test]
fn test_parse_cpu_with_non_numbers() {
    assert!(parse_cpu("cpu0 0 0 0 0 0 0 a b c").is_err());
}

#[test]
fn test_parse_cpu_correct() {
    let stat = parse_cpu("cpu0 0 0 0 0 0 0 123 456 789").unwrap();

    assert_eq!(stat.total_running, 123);
    assert_eq!(stat.total_waiting, 456);
    assert_eq!(stat.timeslices, 789);
}

#[test]
fn test_parse_schedstat_empty() {
    let stats = parse_schedstat("").unwrap();
    assert_eq!(stats.len(), 0);
}

#[test]
fn test_parse_schedstat_no_cpu_lines() {
    let stats = parse_schedstat(
        "version 15
timestamp 12323
foo
bar",
    )
    .unwrap();
    assert_eq!(stats.len(), 0);
}

#[test]
fn test_parse_schedstat_two_cpus() {
    let stats = parse_schedstat(
        "version 15
timestamp 12323
cpu0 0 0 0 0 0 0 410561491017 35532088897398 36598258
domain a 1 231312
cpu1 0 0 0 0 0 0 413817093364 40708332624843 36611731
bar",
    )
    .unwrap();

    assert_eq!(stats.len(), 2);
    assert_eq!(stats[0].total_running, 410561491017);
    assert_eq!(stats[1].total_running, 413817093364);
}

#[test]
fn test_stat_to_prometheus_samples() {
    let stat = Stat {
        total_running: 123,
        total_waiting: 456,
        timeslices: 789,
    };

    assert_eq!(
        stat.to_prometheus_samples(1, 100),
        "node_schedstat_running_seconds_total{cpu=\"1\"} 1
node_schedstat_waiting_seconds_total{cpu=\"1\"} 4
node_schedstat_seconds_total{cpu=\"1\"} 7
",
    );
}

#[test]
fn test_to_prometheus_sample() {
    assert_eq!(
        to_prometheus_sample("node_schedstat_running_seconds_total", 1, 123),
        "node_schedstat_running_seconds_total{cpu=\"1\"} 123\n",
    );
}
