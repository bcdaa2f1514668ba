use dns_benchmark::benchmark::BenchmarkResults;
use dns_benchmark::clock::{timestamp, unix_seconds};
use dns_benchmark::config::GroupConfig;
use dns_benchmark::results::{benchmark_name, decimal_string, results_csv, results_file_name};
use indexmap::IndexMap;

#[test]
fn decimal_strings() {
    assert_eq!(decimal_string(0), "0");
    assert_eq!(decimal_string(7), "7");
    assert_eq!(decimal_string(10), "10");
    assert_eq!(decimal_string(20_000), "20000");
    assert_eq!(decimal_string(u128::MAX), u128::MAX.to_string());
}

#[test]
fn csv_has_names_then_rows() {
    let mut m: IndexMap<String, Vec<u128>> = IndexMap::new();
    m.insert("8.8.8.8".to_string(), vec![12, 34]);
    m.insert("dns.google".to_string(), vec![5]);
    let bytes = results_csv(&BenchmarkResults { results: m }).unwrap();
    let text = String::from_utf8(bytes).unwrap();
    assert_eq!(text, "\"8.8.8.8\",\"dns.google\"\n12,5\n34,\"\"\n");
}

#[test]
fn csv_without_servers() {
    let m: IndexMap<String, Vec<u128>> = IndexMap::new();
    let bytes = results_csv(&BenchmarkResults { results: m }).unwrap();
    let text = String::from_utf8(bytes).unwrap();
    assert!(!text.contains(','));
}

#[test]
fn csv_with_servers_without_times_has_only_a_header() {
    let mut m: IndexMap<String, Vec<u128>> = IndexMap::new();
    m.insert("a".to_string(), Vec::new());
    m.insert("b".to_string(), Vec::new());
    let text = String::from_utf8(results_csv(&BenchmarkResults { results: m }).unwrap()).unwrap();
    assert_eq!(text, "\"a\",\"b\"\n");
}

#[test]
fn results_file_names() {
    assert_eq!(
        results_file_name("2024-01-02_03:04:05", "home"),
        "results/dns-benchmark-2024-01-02_03:04:05-home.csv"
    );
}

#[test]
fn timestamps_are_utc() {
    assert_eq!(timestamp(0).unwrap(), "1970-01-01_00:00:00");
    assert_eq!(timestamp(1_700_000_000).unwrap(), "2023-11-14_22:13:20");
    assert!(timestamp(i64::MAX).is_none());
}

fn group(name: &str) -> GroupConfig {
    GroupConfig { name: name.to_string(), ip4: Vec::new(), ip6: Vec::new(), dot: Vec::new() }
}

#[test]
fn benchmark_names_join_group_names() {
    assert_eq!(benchmark_name(&vec![group("home"), group("public")]), "home-public");
    assert_eq!(benchmark_name(&vec![group("home")]), "home");
    assert_eq!(benchmark_name(&Vec::new()), "");
}

#[test]
fn unix_seconds_round_down() {
    assert_eq!(unix_seconds(false, 1_700_000_000, 999_999_999), Some(1_700_000_000));
    assert_eq!(unix_seconds(true, 5, 0), Some(-5));
    assert_eq!(unix_seconds(true, 5, 1), Some(-6));
    assert_eq!(unix_seconds(true, 9_223_372_036_854_775_808, 0), Some(i64::MIN));
    assert_eq!(unix_seconds(true, 9_223_372_036_854_775_808, 1), None);
    assert_eq!(unix_seconds(false, u64::MAX, 0), None);
}
