use dns_benchmark::benchmark::{assign_group, collect_results};
use dns_benchmark::dns_server::{DnsServer, IpAddress};
use dns_benchmark::results::results_csv;
use dns_benchmark::schedule::{Action, Event, QueryOutcome, ServerRun, Stage};
use indexmap::IndexMap;

fn answer(domain: &str) -> (QueryOutcome, u128) {
    match domain {
        "slow.test." => (QueryOutcome::Timeout, 1500),
        "broken.test." => (QueryOutcome::Failed, 2),
        "empty.test." => (QueryOutcome::NoRecords, 4),
        _ => (QueryOutcome::Answered, domain.len() as u128),
    }
}

/// Drives a run to its end, answering each lookup at once.
fn drive(run: &mut ServerRun) -> usize {
    let mut event = Event::Start;
    let mut completed = 0;
    loop {
        let d = run.step(event);
        if d.domain_completed {
            completed += 1;
        }
        event = match d.action {
            Action::Sleep(_) => Event::Slept,
            Action::Resolve(domain, _) => {
                let (o, t) = answer(&domain);
                Event::Resolved(o, t)
            }
            Action::Done => break,
        };
    }
    completed
}

#[test]
fn finished_runs_fill_the_table() {
    let domains: Vec<String> = ["a.test.", "slow.test.", "broken.test.", "empty.test.", "unused.test."]
        .iter()
        .map(|s| s.to_string())
        .collect();
    let servers = vec![
        DnsServer::new_dns("1.1.1.1".to_string(), IpAddress::V4([1, 1, 1, 1])),
        DnsServer::new_dns("9.9.9.9".to_string(), IpAddress::V4([9, 9, 9, 9])),
    ];
    let mut runs: IndexMap<String, ServerRun> = IndexMap::new();
    let plan = assign_group(servers, &domains, &mut runs).unwrap();
    assert_eq!(plan.chunk_size, 2);
    for (_, run) in runs.iter_mut() {
        assert_eq!(drive(run), 2);
        assert_eq!(run.stage(), Stage::Finished);
    }
    let results = collect_results(&runs);
    assert_eq!(results.results["1.1.1.1"], vec![7, 7, 10_000, 10_000]);
    assert_eq!(results.results["9.9.9.9"], vec![20_000, 20_000, 4, 4]);
    let text = String::from_utf8(results_csv(&results).unwrap()).unwrap();
    assert_eq!(text, "\"1.1.1.1\",\"9.9.9.9\"\n7,20000\n7,20000\n10000,4\n10000,4\n");
}
