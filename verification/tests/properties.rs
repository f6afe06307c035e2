use node_extra_exporter::schedstat::{
    jiffies_to_seconds, parse_cpu, parse_schedstat, processor_count, render_all,
    to_prometheus_sample, FormatViolation, Stat, SystemConfig,
};
use node_extra_exporter::text::{parse_usize_range, usize_to_string};

#[test]
fn parse_skips_interspersed_non_cpu_lines() {
    let stats = parse_schedstat(
        "header\ncpu7 0 0 0 0 0 0 1 2 3\ndomain0 7 0\ncpu2 0 0 0 0 0 0 4 5 6\ntrailer",
    )
    .unwrap();
    assert_eq!(stats.len(), 2);
    assert_eq!(stats[0].total_running, 1);
    assert_eq!(stats[0].total_waiting, 2);
    assert_eq!(stats[0].timeslices, 3);
    assert_eq!(stats[1].total_running, 4);
    assert_eq!(stats[1].total_waiting, 5);
    assert_eq!(stats[1].timeslices, 6);
}

#[test]
fn parse_cpu_rejects_too_few_fields() {
    assert_eq!(
        parse_cpu("cpu0 0 0 0 0 0 123 456 789"),
        Err(FormatViolation)
    );
}

#[test]
fn parse_cpu_rejects_too_many_fields() {
    assert_eq!(
        parse_cpu("cpu0 0 0 0 0 0 0 123 456 789 1"),
        Err(FormatViolation)
    );
}

#[test]
fn parse_cpu_counts_empty_fields_between_doubled_spaces() {
    // A doubled space yields an empty field that still counts toward the
    // ten, shifting the remaining fields one position to the right.
    let stat = parse_cpu("cpu0  0 0 0 0 0 123 456 789").unwrap();
    assert_eq!(stat.total_running, 123);
    assert_eq!(stat.total_waiting, 456);
    assert_eq!(stat.timeslices, 789);
    assert_eq!(
        parse_cpu("cpu0  0 0 0 0 0 0 123 456 789"),
        Err(FormatViolation)
    );
}

#[test]
fn parse_cpu_rejects_value_too_large_for_usize() {
    assert_eq!(
        parse_cpu("cpu0 0 0 0 0 0 0 99999999999999999999999 456 789"),
        Err(FormatViolation)
    );
}

#[test]
fn parse_fails_on_one_malformed_cpu_line() {
    let result = parse_schedstat("cpu0 0 0 0 0 0 0 1 2 3\ncpu1 0 0 0 0 0 0 a b c");
    assert_eq!(result, Err(FormatViolation));
}

#[test]
fn parse_strips_carriage_returns() {
    let stats = parse_schedstat("cpu0 0 0 0 0 0 0 1 2 3\r\ncpu1 0 0 0 0 0 0 4 5 6").unwrap();
    assert_eq!(stats.len(), 2);
    assert_eq!(stats[0].timeslices, 3);
    assert_eq!(stats[1].timeslices, 6);
}

#[test]
fn render_twice_is_byte_identical() {
    let stat = Stat {
        total_running: 410561491017,
        total_waiting: 35532088897398,
        timeslices: 36598258,
    };
    let first = stat.to_prometheus_samples(3, 100);
    let second = stat.to_prometheus_samples(3, 100);
    assert_eq!(first, second);
}

#[test]
fn scrape_of_two_cpu_file_has_six_ordinal_sample_lines() {
    let contents = "version 15\ntimestamp 4302079952\n\
cpu3 0 0 0 0 0 0 600 1200 1800\n\
domain0 7 0 0 0 0 0 0 0 0 0 0 0 0 0 0 0 0 0\n\
cpu1 0 0 0 0 0 0 2400 3000 3600\n\
domain0 7 0 0 0 0 0 0 0 0 0 0 0 0 0 0 0 0 0";
    let stats = parse_schedstat(contents).unwrap();
    let body = render_all(&stats, 600);
    let lines: Vec<&str> = body.lines().collect();
    assert_eq!(lines.len(), 6);
    // The label is the ordinal position among CPU lines, not the numeric
    // suffix of the identifier token: the `cpu3` line comes first, so it is
    // labeled 0, and every cpu="0" sample precedes every cpu="1" sample.
    assert_eq!(
        lines[0],
        "node_schedstat_running_seconds_total{cpu=\"0\"} 1"
    );
    assert_eq!(
        lines[1],
        "node_schedstat_waiting_seconds_total{cpu=\"0\"} 2"
    );
    assert_eq!(lines[2], "node_schedstat_seconds_total{cpu=\"0\"} 3");
    assert_eq!(
        lines[3],
        "node_schedstat_running_seconds_total{cpu=\"1\"} 4"
    );
    assert_eq!(
        lines[4],
        "node_schedstat_waiting_seconds_total{cpu=\"1\"} 5"
    );
    assert_eq!(lines[5], "node_schedstat_seconds_total{cpu=\"1\"} 6");
}

#[test]
fn render_all_of_no_records_is_empty() {
    let stats = parse_schedstat("version 15").unwrap();
    assert_eq!(render_all(&stats, 100), "");
}

#[test]
fn jiffies_division_truncates() {
    assert_eq!(jiffies_to_seconds(123, 100), 1);
    assert_eq!(jiffies_to_seconds(99, 100), 0);
    assert_eq!(jiffies_to_seconds(100, 100), 1);
    assert_eq!(jiffies_to_seconds(0, 250), 0);
}

#[test]
fn processor_count_reports_configured_value() {
    let config = SystemConfig {
        clk_tck: 100,
        nprocessors: 8,
    };
    assert_eq!(processor_count(&config), 8);
}

#[test]
fn sample_renders_zero_value() {
    assert_eq!(
        to_prometheus_sample("node_schedstat_seconds_total", 0, 0),
        "node_schedstat_seconds_total{cpu=\"0\"} 0\n",
    );
}

#[test]
fn usize_numerals_render_canonically() {
    assert_eq!(usize_to_string(0), "0");
    assert_eq!(usize_to_string(7), "7");
    assert_eq!(usize_to_string(10), "10");
    assert_eq!(usize_to_string(409), "409");
    assert_eq!(usize_to_string(36598258), "36598258");
}

#[test]
fn usize_range_parses_digits_only() {
    assert_eq!(parse_usize_range("abc 123", 4, 7), Some(123));
    assert_eq!(parse_usize_range("abc 123", 0, 3), None);
    assert_eq!(parse_usize_range("abc 123", 4, 4), None);
    assert_eq!(parse_usize_range("0", 0, 1), Some(0));
}
