use dns_benchmark::benchmark::{assign_group, chunk_size, collect_results, distribute_domains_to_servers, server_plan, ServerSource};
use dns_benchmark::config::GroupConfig;
use dns_benchmark::dns_server::{
    resolver_options, DnsServer, HostsFile, IpAddress, LookupStrategy, Transport, DNS_PORT, DOT_PORT,
};
use dns_benchmark::schedule::{Event, QueryOutcome, ServerRun, Stage};
use indexmap::IndexMap;

fn strings(items: &[&str]) -> Vec<String> {
    items.iter().map(|s| s.to_string()).collect()
}

fn plain(name: &str) -> DnsServer {
    DnsServer::new_dns(name.to_string(), IpAddress::V4([9, 9, 9, 9]))
}

#[test]
fn chunk_size_divides_evenly_and_caps() {
    assert_eq!(chunk_size(10, 3), Some(3));
    assert_eq!(chunk_size(10, 0), None);
    assert_eq!(chunk_size(5000, 2), Some(1000));
    assert_eq!(chunk_size(2, 5), Some(0));
    assert_eq!(chunk_size(1999, 1), Some(1000));
}

#[test]
fn server_plan_keeps_group_order() {
    let g = GroupConfig {
        name: "g".to_string(),
        ip4: strings(&["1.1.1.1", "8.8.8.8"]),
        ip6: strings(&["2606:4700::1111"]),
        dot: strings(&["dns.google"]),
    };
    let plan = server_plan(&g);
    let shown: Vec<String> = plan
        .iter()
        .map(|s| match s {
            ServerSource::Ip4(n) => format!("ip4 {}", n),
            ServerSource::Ip6(n) => format!("ip6 {}", n),
            ServerSource::Dot(n) => format!("dot {}", n),
        })
        .collect();
    assert_eq!(shown, strings(&["ip4 1.1.1.1", "ip4 8.8.8.8", "ip6 2606:4700::1111", "dot dns.google"]));
}

#[test]
fn new_dns_uses_udp_port_53() {
    let s = DnsServer::new_dns("1.1.1.1".to_string(), IpAddress::V4([1, 1, 1, 1]));
    assert_eq!(s.name(), "1.1.1.1");
    assert_eq!(s.name_servers().len(), 1);
    let ns = &s.name_servers()[0];
    assert_eq!(ns.port, DNS_PORT);
    assert_eq!(ns.port, 53);
    assert_eq!(ns.transport, Transport::Udp);
    assert!(ns.tls_name.is_none());
    assert!(matches!(ns.address, IpAddress::V4([1, 1, 1, 1])));
    assert_eq!(s.options_v4().ip_strategy, LookupStrategy::Ipv4Only);
    assert_eq!(s.options_v6().ip_strategy, LookupStrategy::Ipv6Only);
}

#[test]
fn new_dot_uses_tls_port_853_for_each_address() {
    let addrs = vec![IpAddress::V4([8, 8, 8, 8]), IpAddress::V4([8, 8, 4, 4])];
    let s = DnsServer::new_dot("dns.google".to_string(), &addrs);
    assert_eq!(s.name(), "dns.google");
    assert_eq!(s.name_servers().len(), 2);
    for (ns, expected) in s.name_servers().iter().zip([[8u8, 8, 8, 8], [8, 8, 4, 4]]) {
        assert_eq!(ns.port, DOT_PORT);
        assert_eq!(ns.port, 853);
        assert_eq!(ns.transport, Transport::Tls);
        assert_eq!(ns.tls_name.as_deref(), Some("dns.google"));
        assert!(matches!(ns.address, IpAddress::V4(a) if a == expected));
    }
}

#[test]
fn resolver_options_match_the_benchmark() {
    let o = resolver_options(LookupStrategy::Ipv6Only);
    assert_eq!(o.timeout_secs, 1);
    assert_eq!(o.attempts, 1);
    assert_eq!(o.cache_size, 0);
    assert!(!o.try_tcp_on_error);
    assert_eq!(o.use_hosts_file, HostsFile::Never);
    assert!(!o.validate);
    assert_eq!(o.ip_strategy, LookupStrategy::Ipv6Only);
}

#[test]
fn distribution_gives_consecutive_chunks() {
    let domains = strings(&["a", "b", "c", "d", "e"]);
    let mut map: IndexMap<String, ServerRun> = IndexMap::new();
    let kept = distribute_domains_to_servers(vec![plain("s1"), plain("s2")], &domains, 2, &mut map);
    assert_eq!(kept.len(), 2);
    let keys: Vec<&String> = map.keys().collect();
    assert_eq!(keys, vec!["s1", "s2"]);
    assert_eq!(map["s1"].domains(), &strings(&["a", "b"]));
    assert_eq!(map["s2"].domains(), &strings(&["c", "d"]));
    assert_eq!(map["s1"].stage(), Stage::Ready);
    assert!(map["s2"].durations().is_empty());
}

#[test]
fn last_chunk_may_be_short() {
    let domains = strings(&["a", "b", "c"]);
    let mut map: IndexMap<String, ServerRun> = IndexMap::new();
    distribute_domains_to_servers(vec![plain("s1"), plain("s2")], &domains, 2, &mut map);
    assert_eq!(map["s2"].domains(), &strings(&["c"]));
}

#[test]
fn repeated_name_keeps_place_and_first_setup() {
    let domains = strings(&["a", "b", "c", "d", "e", "f"]);
    let mut map: IndexMap<String, ServerRun> = IndexMap::new();
    let kept = distribute_domains_to_servers(vec![plain("s1"), plain("s2"), plain("s1")], &domains, 2, &mut map);
    let names: Vec<&String> = kept.iter().map(|s| s.name()).collect();
    assert_eq!(names, vec!["s1", "s2"]);
    let keys: Vec<&String> = map.keys().collect();
    assert_eq!(keys, vec!["s1", "s2"]);
    assert_eq!(map["s1"].domains(), &strings(&["e", "f"]));
    assert_eq!(map["s2"].domains(), &strings(&["c", "d"]));
}

#[test]
fn assign_group_skips_empty_groups() {
    let domains = strings(&["a", "b"]);
    let mut map: IndexMap<String, ServerRun> = IndexMap::new();
    assert!(assign_group(Vec::new(), &domains, &mut map).is_none());
    assert!(map.is_empty());
}

#[test]
fn assign_group_divides_domains() {
    let domains: Vec<String> = (0..7).map(|i| format!("d{}", i)).collect();
    let mut map: IndexMap<String, ServerRun> = IndexMap::new();
    let plan = assign_group(vec![plain("x"), plain("y"), plain("z")], &domains, &mut map).unwrap();
    assert_eq!(plan.chunk_size, 2);
    assert_eq!(plan.kept.len(), 3);
    assert_eq!(map["x"].domains(), &strings(&["d0", "d1"]));
    assert_eq!(map["y"].domains(), &strings(&["d2", "d3"]));
    assert_eq!(map["z"].domains(), &strings(&["d4", "d5"]));
}

fn finish(run: &mut ServerRun, outcomes: &[(QueryOutcome, u128)]) {
    run.step(Event::Start);
    run.step(Event::Slept);
    for pair in outcomes.chunks(2) {
        run.step(Event::Resolved(pair[0].0, pair[0].1));
        run.step(Event::Resolved(pair[1].0, pair[1].1));
        run.step(Event::Slept);
    }
}

#[test]
fn collect_results_keeps_order_and_times() {
    let mut map: IndexMap<String, ServerRun> = IndexMap::new();
    let mut a = ServerRun::new(strings(&["x"]));
    finish(&mut a, &[(QueryOutcome::Answered, 12), (QueryOutcome::Timeout, 3)]);
    let b = ServerRun::new(Vec::new());
    map.insert("b".to_string(), b);
    map.insert("a".to_string(), a);
    let results = collect_results(&map);
    let entries: Vec<(&String, &Vec<u128>)> = results.results.iter().collect();
    assert_eq!(entries.len(), 2);
    assert_eq!(entries[0].0, "b");
    assert!(entries[0].1.is_empty());
    assert_eq!(entries[1].0, "a");
    assert_eq!(entries[1].1, &vec![12u128, 10_000]);
}

#[test]
fn groups_keep_first_occurrence_order() {
    let domains: Vec<String> = (0..6).map(|i| format!("d{}", i)).collect();
    let mut map: IndexMap<String, ServerRun> = IndexMap::new();
    assign_group(vec![plain("a"), plain("b")], &domains, &mut map).unwrap();
    assert!(assign_group(Vec::new(), &domains, &mut map).is_none());
    let plan = assign_group(vec![plain("c"), plain("a"), plain("d")], &domains, &mut map).unwrap();
    let kept: Vec<&String> = plan.kept.iter().map(|s| s.name()).collect();
    assert_eq!(kept, vec!["c", "d"]);
    let keys: Vec<&String> = map.keys().collect();
    assert_eq!(keys, vec!["a", "b", "c", "d"]);
    // "a" keeps its place and takes its chunk from the later group.
    assert_eq!(map["a"].domains(), &strings(&["d2", "d3"]));
    assert_eq!(map["b"].domains(), &strings(&["d3", "d4", "d5"]));
    assert_eq!(map["c"].domains(), &strings(&["d0", "d1"]));
    assert_eq!(map["d"].domains(), &strings(&["d4", "d5"]));
}
