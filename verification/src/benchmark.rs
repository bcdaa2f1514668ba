use vstd::prelude::*;
use indexmap::IndexMap;
use crate::config::GroupConfig;
use crate::dns_server::{DnsServer, DnsServerView};
use crate::ordered_map::{
    duration_entries, has_key, insert_durations, insert_entry, insert_run, key_position, keys_distinct, keys_of, lemma_insert_keeps_keys_distinct,
    new_duration_map,
    run_entries, run_entry_at, run_map_len,
};
use crate::schedule::{RunView, ServerRun, Stage};

verus! {

/// No server gets more than this many domains.
pub const MAX_CHUNK: usize = 1000;

/// How a server of a group is made: a plain DNS server from an IP address as
/// written (listed among the group's IPv4 or IPv6 servers), or a DNS-over-TLS
/// server from a domain.
#[derive(Debug)]
pub enum ServerSource {
    Ip4(String),
    Ip6(String),
    Dot(String),
}

/// A server source as a mathematical value.
pub enum SourceView {
    Ip4(Seq<char>),
    Ip6(Seq<char>),
    Dot(Seq<char>),
}

impl View for ServerSource {
    type V = SourceView;

    open spec fn view(&self) -> SourceView {
        match self {
            ServerSource::Ip4(s) => SourceView::Ip4(s@),
            ServerSource::Ip6(s) => SourceView::Ip6(s@),
            ServerSource::Dot(s) => SourceView::Dot(s@),
        }
    }
}

/// The servers of a group, in the order in which they are set up: its IPv4
/// servers, then its IPv6 servers, then its DNS-over-TLS servers.
pub open spec fn group_sources(ip4: Seq<Seq<char>>, ip6: Seq<Seq<char>>, dot: Seq<Seq<char>>) -> Seq<SourceView> {
    ip4.map_values(|s: Seq<char>| SourceView::Ip4(s)) + ip6.map_values(|s: Seq<char>| SourceView::Ip6(s))
        + dot.map_values(|s: Seq<char>| SourceView::Dot(s))
}

/// The view of a source of the kind (0: IPv4, 1: IPv6, otherwise DNS over TLS).
pub open spec fn source_of(kind: u8, s: Seq<char>) -> SourceView {
    if kind == 0 { SourceView::Ip4(s) } else if kind == 1 { SourceView::Ip6(s) } else { SourceView::Dot(s) }
}

fn push_sources(out: &mut Vec<ServerSource>, names: &Vec<String>, kind: u8)
    ensures
        final(out)@.map_values(|s: ServerSource| s@) == old(out)@.map_values(|s: ServerSource| s@)
            + names.deep_view().map_values(|s: Seq<char>| source_of(kind, s)),
{
    let ghost start = out@.map_values(|s: ServerSource| s@);
    let ghost tail = names.deep_view().map_values(|s: Seq<char>| source_of(kind, s));
    let mut i: usize = 0;
    while i < names.len()
        invariant
            i <= names.len(),
            names.deep_view().len() == names.len(),
            start == old(out)@.map_values(|s: ServerSource| s@),
            tail == names.deep_view().map_values(|s: Seq<char>| source_of(kind, s)),
            out@.map_values(|s: ServerSource| s@) == start + tail.take(i as int),
        decreases names.len() - i,
    {
        let ghost before = out@;
        let name = names[i].clone();
        assert(names.deep_view()[i as int] == names@[i as int]@);
        if kind == 0 {
            out.push(ServerSource::Ip4(name));
        } else if kind == 1 {
            out.push(ServerSource::Ip6(name));
        } else {
            out.push(ServerSource::Dot(name));
        }
        assert(out@.map_values(|s: ServerSource| s@) =~= before.map_values(|s: ServerSource| s@).push(tail[i as int]));
        assert(tail.take(i + 1) =~= tail.take(i as int).push(tail[i as int]));
        assert(out@.map_values(|s: ServerSource| s@) =~= start + tail.take(i + 1));
        i = i + 1;
    }
    assert(tail.take(names.len() as int) =~= tail);
}

/// A group's servers are set up from its IPv4 addresses, then its IPv6
/// addresses, then its DNS-over-TLS domains, each list in its own order and
/// each entry once.
pub proof fn lemma_group_sources_order(ip4: Seq<Seq<char>>, ip6: Seq<Seq<char>>, dot: Seq<Seq<char>>)
    ensures
        group_sources(ip4, ip6, dot).len() == ip4.len() + ip6.len() + dot.len(),
        forall|i: int| 0 <= i < ip4.len() ==> #[trigger] group_sources(ip4, ip6, dot)[i] == SourceView::Ip4(ip4[i]),
        forall|i: int| 0 <= i < ip6.len() ==> #[trigger] group_sources(ip4, ip6, dot)[ip4.len() + i] == SourceView::Ip6(ip6[i]),
        forall|i: int| 0 <= i < dot.len() ==>
            #[trigger] group_sources(ip4, ip6, dot)[ip4.len() + ip6.len() + i] == SourceView::Dot(dot[i]),
{
    let a = ip4.map_values(|s: Seq<char>| SourceView::Ip4(s));
    let b = ip6.map_values(|s: Seq<char>| SourceView::Ip6(s));
    let c = dot.map_values(|s: Seq<char>| SourceView::Dot(s));
    assert forall|i: int| 0 <= i < ip6.len() implies #[trigger] group_sources(ip4, ip6, dot)[ip4.len() + i] == SourceView::Ip6(ip6[i]) by {
        assert((a + b)[ip4.len() + i] == b[i]);
    }
    assert forall|i: int| 0 <= i < dot.len() implies
        #[trigger] group_sources(ip4, ip6, dot)[ip4.len() + ip6.len() + i] == SourceView::Dot(dot[i]) by {
        assert((a + b + c)[ip4.len() + ip6.len() + i] == c[i]);
    }
}

/// The servers to set up for a group, in order: its IPv4 servers, its IPv6
/// servers, then its DNS-over-TLS servers.
pub fn server_plan(group: &GroupConfig) -> (plan: Vec<ServerSource>)
    ensures
        plan@.map_values(|s: ServerSource| s@)
            == group_sources(group.ip4.deep_view(), group.ip6.deep_view(), group.dot.deep_view()),
{
    let mut plan: Vec<ServerSource> = Vec::new();
    push_sources(&mut plan, &group.ip4, 0);
    push_sources(&mut plan, &group.ip6, 1);
    push_sources(&mut plan, &group.dot, 2);
    assert(plan@.map_values(|s: ServerSource| s@) =~= group_sources(
        group.ip4.deep_view(), group.ip6.deep_view(), group.dot.deep_view()));
    plan
}

/// The number of domains each server of a group gets: the domains divided
/// evenly over the servers, at most 1000; no number when the group has no servers.
pub open spec fn spec_chunk_size(domain_count: int, server_count: int) -> Option<int> {
    if server_count == 0 {
        None
    } else if domain_count / server_count < MAX_CHUNK {
        Some(domain_count / server_count)
    } else {
        Some(MAX_CHUNK as int)
    }
}

/// The chunk size of a group is the largest number of domains, at most
/// 1000, that every server of the group can get: the servers' chunks
/// together take no more than all domains, and one domain more per server
/// would either pass 1000 or take more than there are.
pub proof fn lemma_chunk_size_is_largest_fair_share(domain_count: nat, server_count: nat)
    requires
        server_count > 0,
    ensures
        spec_chunk_size(domain_count as int, server_count as int) matches Some(c) && {
            &&& 0 <= c <= 1000
            &&& server_count * c <= domain_count
            &&& (c == 1000 || server_count * (c + 1) > domain_count)
        },
        spec_chunk_size(domain_count as int, 0) is None,
{
    let q = domain_count as int / server_count as int;
    assert(server_count * q <= domain_count) by (nonlinear_arith)
        requires
            server_count > 0,
            q == domain_count as int / server_count as int,
            domain_count >= 0,
    ;
    assert(server_count * (q + 1) > domain_count) by (nonlinear_arith)
        requires
            server_count > 0,
            q == domain_count as int / server_count as int,
            domain_count >= 0,
    ;
    assert(q >= 0) by (nonlinear_arith)
        requires
            server_count > 0,
            q == domain_count as int / server_count as int,
            domain_count >= 0,
    ;
    if q >= 1000 {
        assert(server_count * 1000 <= server_count * q) by (nonlinear_arith)
            requires
                server_count > 0,
                q >= 1000,
        ;
    }
}

/// How many domains each server of a group gets; `None` for a group without servers.
pub fn chunk_size(domain_count: usize, server_count: usize) -> (size: Option<usize>)
    ensures
        match size {
            Some(c) => spec_chunk_size(domain_count as int, server_count as int) == Some(c as int),
            None => spec_chunk_size(domain_count as int, server_count as int) is None,
        },
{
    if server_count == 0 {
        None
    } else {
        let even: usize = domain_count / server_count;
        if even < MAX_CHUNK {
            Some(even)
        } else {
            Some(MAX_CHUNK)
        }
    }
}

/// The `index`-th chunk of the domains when they are cut into pieces of
/// `size`: the last piece may be shorter.
pub open spec fn chunk(domains: Seq<Seq<char>>, size: int, index: int) -> Seq<Seq<char>> {
    let start: int = index * size;
    let end: int = if start + size <= domains.len() { start + size } else { domains.len() as int };
    domains.subrange(start, end)
}

/// Cutting `domain_count` domains into pieces of `size` gives a piece for
/// each of `server_count` servers.
pub open spec fn enough_chunks(domain_count: int, size: int, server_count: int) -> bool {
    size > 0 && server_count * size < domain_count + size
}

/// A run over the domains that has not started.
pub open spec fn fresh_run(domains: Seq<Seq<char>>) -> RunView {
    RunView { domains, durations: Seq::empty(), stage: Stage::Ready }
}

/// The map after the first `count` servers got their chunks, in order.
pub open spec fn distributed(
    entries: Seq<(Seq<char>, RunView)>,
    names: Seq<Seq<char>>,
    domains: Seq<Seq<char>>,
    size: int,
    count: int,
) -> Seq<(Seq<char>, RunView)>
    decreases count,
{
    if count <= 0 {
        entries
    } else {
        insert_entry(
            distributed(entries, names, domains, size, count - 1),
            names[count - 1],
            fresh_run(chunk(domains, size, count - 1)),
        )
    }
}

/// The servers among the first `count` whose name was not in the map when
/// they got their chunk, in order: the map keeps their setup.
pub open spec fn newcomers(
    entries: Seq<(Seq<char>, RunView)>,
    servers: Seq<DnsServerView>,
    domains: Seq<Seq<char>>,
    size: int,
    count: int,
) -> Seq<DnsServerView>
    decreases count,
{
    if count <= 0 {
        Seq::empty()
    } else {
        let before = newcomers(entries, servers, domains, size, count - 1);
        let names = servers.map_values(|s: DnsServerView| s.name);
        if has_key(distributed(entries, names, domains, size, count - 1), servers[count - 1].name) {
            before
        } else {
            before.push(servers[count - 1])
        }
    }
}

/// With the chunk size of a group that has at least as many domains as
/// servers, every server of the group gets a chunk, and each of those chunks
/// holds exactly that many domains.
pub proof fn lemma_group_chunks_are_full(domains: Seq<Seq<char>>, server_count: int, size: int)
    requires
        server_count > 0,
        domains.len() >= server_count,
        spec_chunk_size(domains.len() as int, server_count) == Some(size),
    ensures
        size > 0,
        size <= MAX_CHUNK,
        enough_chunks(domains.len() as int, size, server_count),
        forall|i: int| 0 <= i < server_count ==> #[trigger] chunk(domains, size, i).len() == size,
{
    let n: int = domains.len() as int;
    assert(n / server_count >= 1) by (nonlinear_arith)
        requires
            n >= server_count,
            server_count > 0,
    ;
    assert(server_count * (n / server_count) <= n) by (nonlinear_arith)
        requires
            n >= 0,
            server_count > 0,
    ;
    assert(server_count * size <= n) by (nonlinear_arith)
        requires
            server_count * (n / server_count) <= n,
            0 < size <= n / server_count,
            server_count > 0,
    ;
    assert forall|i: int| 0 <= i < server_count implies #[trigger] chunk(domains, size, i).len() == size by {
        assert(i * size + size <= server_count * size) by (nonlinear_arith)
            requires
                0 <= i < server_count,
                size > 0,
        ;
    }
}

/// When the servers have distinct names that the map does not hold yet, each
/// server gets its own entry, after the entries that were there, in the
/// order of the servers, with a run over its own chunk; and the map keeps the
/// setups of all of them.
pub proof fn lemma_distinct_servers_get_own_entries(
    entries: Seq<(Seq<char>, RunView)>,
    servers: Seq<DnsServerView>,
    domains: Seq<Seq<char>>,
    size: int,
    count: int,
)
    requires
        0 <= count <= servers.len(),
        forall|i: int, j: int| 0 <= i < j < servers.len() ==> #[trigger] servers[i].name != #[trigger] servers[j].name,
        forall|i: int| 0 <= i < servers.len() ==> !has_key(entries, #[trigger] servers[i].name),
    ensures
        distributed(entries, servers.map_values(|s: DnsServerView| s.name), domains, size, count)
            == entries + Seq::new(count as nat, |j: int| (servers[j].name, fresh_run(chunk(domains, size, j)))),
        newcomers(entries, servers, domains, size, count) == servers.take(count),
    decreases count,
{
    let names = servers.map_values(|s: DnsServerView| s.name);
    lemma_distinct_names_appended(entries, names, domains, size, count);
    assert(Seq::new(count as nat, |j: int| (names[j], fresh_run(chunk(domains, size, j))))
        =~= Seq::new(count as nat, |j: int| (servers[j].name, fresh_run(chunk(domains, size, j)))));
    if count == 0 {
        assert(servers.take(0) =~= Seq::<DnsServerView>::empty());
    } else {
        lemma_distinct_servers_get_own_entries(entries, servers, domains, size, count - 1);
        lemma_distinct_names_appended(entries, names, domains, size, count - 1);
        let before = distributed(entries, names, domains, size, count - 1);
        let key = servers[count - 1].name;
        assert(!has_key(before, key)) by {
            if has_key(before, key) {
                let i: int = choose|i: int| 0 <= i < before.len() && #[trigger] before[i].0 == key;
                if i < entries.len() {
                    assert(entries[i].0 == key);
                } else {
                    assert(before[i].0 == names[i - entries.len()]);
                }
            }
        }
        assert(servers.take(count - 1).push(servers[count - 1]) =~= servers.take(count));
    }
}

/// Distributing keeps the names in the map distinct: each server has one entry.
pub proof fn lemma_distributed_keeps_keys_distinct(
    entries: Seq<(Seq<char>, RunView)>,
    names: Seq<Seq<char>>,
    domains: Seq<Seq<char>>,
    size: int,
    count: int,
)
    requires
        keys_distinct(entries),
    ensures
        keys_distinct(distributed(entries, names, domains, size, count)),
        forall|j: int| 0 <= j < count ==> has_key(distributed(entries, names, domains, size, count), #[trigger] names[j]),
    decreases count,
{
    if count > 0 {
        let before = distributed(entries, names, domains, size, count - 1);
        lemma_distributed_keeps_keys_distinct(entries, names, domains, size, count - 1);
        lemma_insert_keeps_keys_distinct(before, names[count - 1], fresh_run(chunk(domains, size, count - 1)));
        let after = distributed(entries, names, domains, size, count);
        assert forall|j: int| 0 <= j < count implies has_key(after, #[trigger] names[j]) by {
            if j < count - 1 {
                assert(has_key(before, names[j]));
                let i: int = choose|i: int| 0 <= i < before.len() && #[trigger] before[i].0 == names[j];
                assert(after[i].0 == names[j]);
            }
        }
    }
}

/// The keys after appending names one after the other: each name that is
/// not there yet goes last; a name that is there keeps its place.
pub open spec fn first_occurrences(keys: Seq<Seq<char>>, names: Seq<Seq<char>>) -> Seq<Seq<char>>
    decreases names.len(),
{
    if names.len() == 0 {
        keys
    } else {
        let before = first_occurrences(keys, names.drop_last());
        if before.contains(names.last()) {
            before
        } else {
            before.push(names.last())
        }
    }
}

proof fn lemma_has_key_is_contains<V>(entries: Seq<(Seq<char>, V)>, key: Seq<char>)
    ensures
        has_key(entries, key) <==> keys_of(entries).contains(key),
{
    if has_key(entries, key) {
        let i: int = choose|i: int| 0 <= i < entries.len() && #[trigger] entries[i].0 == key;
        assert(keys_of(entries)[i] == key);
    }
    if keys_of(entries).contains(key) {
        let i: int = choose|i: int| 0 <= i < keys_of(entries).len() && keys_of(entries)[i] == key;
        assert(entries[i].0 == key);
    }
}

proof fn lemma_keys_of_insert<V>(entries: Seq<(Seq<char>, V)>, key: Seq<char>, value: V)
    ensures
        keys_of(insert_entry(entries, key, value)) == if keys_of(entries).contains(key) {
            keys_of(entries)
        } else {
            keys_of(entries).push(key)
        },
{
    lemma_has_key_is_contains(entries, key);
    let r = insert_entry(entries, key, value);
    if has_key(entries, key) {
        let p = key_position(entries, key);
        assert(keys_of(r) =~= keys_of(entries));
    } else {
        assert(keys_of(r) =~= keys_of(entries).push(key));
    }
}

/// The names in the map after distributing are those it had, in their
/// places, then each new name, in the order of the servers, once.
pub proof fn lemma_distributed_keys(
    entries: Seq<(Seq<char>, RunView)>,
    names: Seq<Seq<char>>,
    domains: Seq<Seq<char>>,
    size: int,
    count: int,
)
    requires
        0 <= count <= names.len(),
    ensures
        keys_of(distributed(entries, names, domains, size, count)) == first_occurrences(keys_of(entries), names.take(count)),
    decreases count,
{
    if count == 0 {
        assert(names.take(0) =~= Seq::<Seq<char>>::empty());
    } else {
        lemma_distributed_keys(entries, names, domains, size, count - 1);
        assert(names.take(count).drop_last() =~= names.take(count - 1));
        lemma_keys_of_insert(
            distributed(entries, names, domains, size, count - 1),
            names[count - 1],
            fresh_run(chunk(domains, size, count - 1)),
        );
    }
}

/// When the servers' names are distinct, each server's entry holds a fresh
/// run over its own chunk, also where its name was in the map already; the
/// entries that were there keep their places, and those whose names are not
/// among the servers keep their runs too.
pub proof fn lemma_distributed_entries(
    entries: Seq<(Seq<char>, RunView)>,
    names: Seq<Seq<char>>,
    domains: Seq<Seq<char>>,
    size: int,
    count: int,
)
    requires
        0 <= count <= names.len(),
        forall|i: int, j: int| 0 <= i < j < count ==> names[i] != names[j],
    ensures
        distributed(entries, names, domains, size, count).len() >= entries.len(),
        forall|k: int| #![trigger names[k]] 0 <= k < count ==> exists|i: int| 0 <= i < distributed(entries, names, domains, size, count).len()
            && #[trigger] distributed(entries, names, domains, size, count)[i] == (names[k], fresh_run(chunk(domains, size, k))),
        forall|i: int| 0 <= i < entries.len() ==> (#[trigger] distributed(entries, names, domains, size, count)[i]).0 == entries[i].0,
        forall|i: int| 0 <= i < entries.len() && !names.take(count).contains(entries[i].0)
            ==> #[trigger] distributed(entries, names, domains, size, count)[i] == entries[i],
    decreases count,
{
    if count > 0 {
        let prev = distributed(entries, names, domains, size, count - 1);
        let r = distributed(entries, names, domains, size, count);
        let key = names[count - 1];
        let value = fresh_run(chunk(domains, size, count - 1));
        lemma_distributed_entries(entries, names, domains, size, count - 1);
        assert(r == insert_entry(prev, key, value));
        if has_key(prev, key) {
            let p = key_position(prev, key);
            assert(r == prev.update(p, (key, value)));
            assert forall|k: int| #![trigger names[k]] 0 <= k < count implies exists|i: int| 0 <= i < r.len()
                && #[trigger] r[i] == (names[k], fresh_run(chunk(domains, size, k))) by {
                if k == count - 1 {
                    assert(r[p] == (names[k], fresh_run(chunk(domains, size, k))));
                } else {
                    let i: int = choose|i: int| 0 <= i < prev.len()
                        && #[trigger] prev[i] == (names[k], fresh_run(chunk(domains, size, k)));
                    assert(prev[i].0 != prev[p].0);
                    assert(r[i] == prev[i]);
                }
            }
            assert forall|i: int| 0 <= i < entries.len() && !names.take(count).contains(entries[i].0)
                implies #[trigger] r[i] == entries[i] by {
                assert(names.take(count)[count - 1] == key);
                assert(!names.take(count - 1).contains(entries[i].0)) by {
                    if names.take(count - 1).contains(entries[i].0) {
                        let j: int = choose|j: int| 0 <= j < count - 1 && #[trigger] names.take(count - 1)[j] == entries[i].0;
                        assert(names.take(count)[j] == entries[i].0);
                    }
                }
                assert(prev[i] == entries[i]);
                assert(i != p);
            }
        } else {
            assert(r == prev.push((key, value)));
            assert forall|k: int| #![trigger names[k]] 0 <= k < count implies exists|i: int| 0 <= i < r.len()
                && #[trigger] r[i] == (names[k], fresh_run(chunk(domains, size, k))) by {
                if k == count - 1 {
                    assert(r[prev.len() as int] == (names[k], fresh_run(chunk(domains, size, k))));
                } else {
                    let i: int = choose|i: int| 0 <= i < prev.len()
                        && #[trigger] prev[i] == (names[k], fresh_run(chunk(domains, size, k)));
                    assert(r[i] == prev[i]);
                }
            }
            assert forall|i: int| 0 <= i < entries.len() && !names.take(count).contains(entries[i].0)
                implies #[trigger] r[i] == entries[i] by {
                assert(!names.take(count - 1).contains(entries[i].0)) by {
                    if names.take(count - 1).contains(entries[i].0) {
                        let j: int = choose|j: int| 0 <= j < count - 1 && #[trigger] names.take(count - 1)[j] == entries[i].0;
                        assert(names.take(count)[j] == entries[i].0);
                    }
                }
            }
        }
    }
}

/// The map after each group in turn got its servers' chunks, as
/// `assign_group` gives them: a group without servers is skipped, the
/// others divide the domains evenly, at most 1000 each.
pub open spec fn distributed_groups(
    entries: Seq<(Seq<char>, RunView)>,
    groups: Seq<Seq<Seq<char>>>,
    domains: Seq<Seq<char>>,
) -> Seq<(Seq<char>, RunView)>
    decreases groups.len(),
{
    if groups.len() == 0 {
        entries
    } else {
        let before = distributed_groups(entries, groups.drop_last(), domains);
        let g = groups.last();
        match spec_chunk_size(domains.len() as int, g.len() as int) {
            Some(c) => distributed(before, g, domains, c, g.len() as int),
            None => before,
        }
    }
}

/// The entries a group adds when its servers' names are new: each server
/// with a fresh run over its own chunk, in order.
pub open spec fn group_entries(g: Seq<Seq<char>>, domains: Seq<Seq<char>>) -> Seq<(Seq<char>, RunView)> {
    match spec_chunk_size(domains.len() as int, g.len() as int) {
        Some(c) => Seq::new(g.len(), |k: int| (g[k], fresh_run(chunk(domains, c, k)))),
        None => Seq::empty(),
    }
}

/// The entries of all groups, group after group.
pub open spec fn all_group_entries(groups: Seq<Seq<Seq<char>>>, domains: Seq<Seq<char>>) -> Seq<(Seq<char>, RunView)>
    decreases groups.len(),
{
    if groups.len() == 0 {
        Seq::empty()
    } else {
        all_group_entries(groups.drop_last(), domains) + group_entries(groups.last(), domains)
    }
}

proof fn lemma_first_occurrences_concat(keys: Seq<Seq<char>>, a: Seq<Seq<char>>, b: Seq<Seq<char>>)
    ensures
        first_occurrences(keys, a + b) == first_occurrences(first_occurrences(keys, a), b),
    decreases b.len(),
{
    if b.len() == 0 {
        assert(a + b =~= a);
    } else {
        assert((a + b).drop_last() =~= a + b.drop_last());
        assert((a + b).last() == b.last());
        lemma_first_occurrences_concat(keys, a, b.drop_last());
    }
}

proof fn lemma_groups_split(groups: Seq<Seq<Seq<char>>>)
    requires
        groups.len() > 0,
    ensures
        groups.flatten() == groups.drop_last().flatten() + groups.last(),
{
    assert(groups =~= groups.drop_last().push(groups.last()));
    groups.drop_last().lemma_flatten_push(groups.last());
}

/// Over all groups, the names in the map are those it had, in their
/// places, then each server name that is new, in the order of the groups and
/// of the servers within each group, at its first occurrence.
pub proof fn lemma_groups_keys(entries: Seq<(Seq<char>, RunView)>, groups: Seq<Seq<Seq<char>>>, domains: Seq<Seq<char>>)
    ensures
        keys_of(distributed_groups(entries, groups, domains)) == first_occurrences(keys_of(entries), groups.flatten()),
    decreases groups.len(),
{
    if groups.len() > 0 {
        let init = groups.drop_last();
        let g = groups.last();
        lemma_groups_keys(entries, init, domains);
        lemma_groups_split(groups);
        lemma_first_occurrences_concat(keys_of(entries), init.flatten(), g);
        match spec_chunk_size(domains.len() as int, g.len() as int) {
            Some(c) => {
                lemma_distributed_keys(distributed_groups(entries, init, domains), g, domains, c, g.len() as int);
                assert(g.take(g.len() as int) =~= g);
            },
            None => {
                assert(g.len() == 0);
            },
        }
    }
}

/// When the names are distinct and new to the map, the servers get their
/// own entries after those that were there, in order, each a fresh run over
/// its own chunk.
pub proof fn lemma_distinct_names_appended(
    entries: Seq<(Seq<char>, RunView)>,
    names: Seq<Seq<char>>,
    domains: Seq<Seq<char>>,
    size: int,
    count: int,
)
    requires
        0 <= count <= names.len(),
        forall|i: int, j: int| 0 <= i < j < count ==> names[i] != names[j],
        forall|i: int| 0 <= i < count ==> !has_key(entries, #[trigger] names[i]),
    ensures
        distributed(entries, names, domains, size, count)
            == entries + Seq::new(count as nat, |j: int| (names[j], fresh_run(chunk(domains, size, j)))),
    decreases count,
{
    let added = Seq::new(count as nat, |j: int| (names[j], fresh_run(chunk(domains, size, j))));
    if count == 0 {
        assert(entries + added =~= entries);
    } else {
        lemma_distinct_names_appended(entries, names, domains, size, count - 1);
        let before = entries + Seq::new((count - 1) as nat, |j: int| (names[j], fresh_run(chunk(domains, size, j))));
        let key = names[count - 1];
        assert(!has_key(before, key)) by {
            if has_key(before, key) {
                let i: int = choose|i: int| 0 <= i < before.len() && #[trigger] before[i].0 == key;
                if i < entries.len() {
                    assert(entries[i].0 == key);
                } else {
                    assert(before[i].0 == names[i - entries.len()]);
                }
            }
        }
        assert(before.push((key, fresh_run(chunk(domains, size, count - 1)))) =~= entries + added);
    }
}

proof fn lemma_all_group_keys(groups: Seq<Seq<Seq<char>>>, domains: Seq<Seq<char>>)
    ensures
        keys_of(all_group_entries(groups, domains)) == groups.flatten(),
    decreases groups.len(),
{
    if groups.len() == 0 {
        assert(keys_of(all_group_entries(groups, domains)) =~= groups.flatten());
    } else {
        let g = groups.last();
        lemma_all_group_keys(groups.drop_last(), domains);
        lemma_groups_split(groups);
        if g.len() > 0 {
            assert(keys_of(group_entries(g, domains)) =~= g);
        } else {
            assert(keys_of(group_entries(g, domains)) =~= g);
        }
        assert(keys_of(all_group_entries(groups, domains)) =~= keys_of(all_group_entries(groups.drop_last(), domains))
            + keys_of(group_entries(g, domains)));
    }
}

/// When all server names over all groups are distinct and new to the map,
/// every server gets its own entry, after those that were there, group after
/// group and in order within each group: a fresh run over its own chunk of
/// its group's chunk size (a full chunk, see `lemma_group_chunks_are_full`).
pub proof fn lemma_distinct_groups(entries: Seq<(Seq<char>, RunView)>, groups: Seq<Seq<Seq<char>>>, domains: Seq<Seq<char>>)
    requires
        groups.flatten().no_duplicates(),
        forall|n: Seq<char>| #[trigger] groups.flatten().contains(n) ==> !has_key(entries, n),
    ensures
        distributed_groups(entries, groups, domains) == entries + all_group_entries(groups, domains),
    decreases groups.len(),
{
    if groups.len() == 0 {
        assert(entries + all_group_entries(groups, domains) =~= entries);
    } else {
        let init = groups.drop_last();
        let g = groups.last();
        let flat = groups.flatten();
        lemma_groups_split(groups);
        let fi = init.flatten();
        assert(flat == fi + g);
        assert forall|i: int, j: int| 0 <= i < fi.len() && 0 <= j < fi.len() && i != j implies fi[i] != fi[j] by {
            assert(flat[i] == fi[i] && flat[j] == fi[j]);
        }
        assert forall|n: Seq<char>| #[trigger] fi.contains(n) implies !has_key(entries, n) by {
            let i: int = choose|i: int| 0 <= i < fi.len() && fi[i] == n;
            assert(flat[i] == n);
            assert(flat.contains(n));
        }
        lemma_distinct_groups(entries, init, domains);
        let before = entries + all_group_entries(init, domains);
        match spec_chunk_size(domains.len() as int, g.len() as int) {
            Some(c) => {
                lemma_all_group_keys(init, domains);
                assert forall|i: int, j: int| 0 <= i < j < g.len() implies g[i] != g[j] by {
                    assert(flat[fi.len() + i] == g[i] && flat[fi.len() + j] == g[j]);
                }
                assert forall|k: int| 0 <= k < g.len() implies !has_key(before, #[trigger] g[k]) by {
                    assert(flat[fi.len() + k] == g[k]);
                    assert(flat.contains(g[k]));
                    if has_key(before, g[k]) {
                        let i: int = choose|i: int| 0 <= i < before.len() && #[trigger] before[i].0 == g[k];
                        if i < entries.len() {
                            assert(entries[i].0 == g[k]);
                        } else {
                            let a = all_group_entries(init, domains);
                            assert(keys_of(a)[i - entries.len()] == g[k]);
                            assert(fi[i - entries.len()] == g[k]);
                            assert(flat[i - entries.len()] == flat[fi.len() + k]);
                        }
                    }
                }
                lemma_distinct_names_appended(before, g, domains, c, g.len() as int);
                assert(entries + all_group_entries(groups, domains) =~= before + group_entries(g, domains));
            },
            None => {
                assert(entries + all_group_entries(groups, domains) =~= before);
            },
        }
    }
}

/// The `index`-th chunk of a cut holds the domains from position
/// `index * size` on, in order, as many as there are up to `size`; chunks of
/// different servers share no position.
pub proof fn lemma_chunk_positions(domains: Seq<Seq<char>>, size: int, index: int)
    requires
        size > 0,
        index >= 0,
        index * size < domains.len(),
    ensures
        chunk(domains, size, index).len() == if (index + 1) * size <= domains.len() { size } else { domains.len() - index * size },
        forall|t: int| 0 <= t < chunk(domains, size, index).len() ==> #[trigger] chunk(domains, size, index)[t] == domains[index * size + t],
        forall|other: int, t: int, u: int| 0 <= other && other != index && 0 <= t < size && 0 <= u < size
            ==> #[trigger] (index * size + t) != #[trigger] (other * size + u),
{
    assert(index * size + size == (index + 1) * size) by (nonlinear_arith);
    assert forall|other: int, t: int, u: int| 0 <= other && other != index && 0 <= t < size && 0 <= u < size
        implies #[trigger] (index * size + t) != #[trigger] (other * size + u) by {
        if other < index {
            assert(other * size + size <= index * size) by (nonlinear_arith)
                requires
                    other < index,
                    size > 0,
            ;
        } else {
            assert(index * size + size <= other * size) by (nonlinear_arith)
                requires
                    index < other,
                    size > 0,
            ;
        }
    }
}

/// Copies a range of domains.
fn copy_range(domains: &Vec<String>, start: usize, end: usize) -> (out: Vec<String>)
    requires
        start <= end <= domains.len(),
    ensures
        out.deep_view() == domains.deep_view().subrange(start as int, end as int),
{
    let mut out: Vec<String> = Vec::new();
    let mut i: usize = start;
    while i < end
        invariant
            start <= i <= end <= domains.len(),
            domains.deep_view().len() == domains.len(),
            out.deep_view() == domains.deep_view().subrange(start as int, i as int),
        decreases end - i,
    {
        let ghost before = out.deep_view();
        out.push(domains[i].clone());
        assert(domains.deep_view()[i as int] == domains@[i as int]@);
        assert(out.deep_view() =~= before.push(domains@[i as int]@));
        assert(out.deep_view() =~= domains.deep_view().subrange(start as int, i + 1));
        i = i + 1;
    }
    out
}

/// Gives each server, in order, the next chunk of `chunk_size` domains: the
/// first server the first chunk, and so on. Each server goes into the map
/// under its name with a run over its chunk that has not started; a server
/// whose name is already in the map replaces that entry's run in place, and
/// the map keeps the setup of the server it first got under that name.
/// Returns the servers whose setups the map keeps, in order.
pub fn distribute_domains_to_servers(
    servers: Vec<DnsServer>,
    domains: &Vec<String>,
    chunk_size: usize,
    results: &mut IndexMap<String, ServerRun>,
) -> (kept: Vec<DnsServer>)
    requires
        enough_chunks(domains.len() as int, chunk_size as int, servers.len() as int),
    ensures
        run_entries(*final(results)) == distributed(
            run_entries(*old(results)),
            servers@.map_values(|s: DnsServer| s@.name),
            domains.deep_view(),
            chunk_size as int,
            servers.len() as int,
        ),
        kept@.map_values(|s: DnsServer| s@) == newcomers(
            run_entries(*old(results)),
            servers@.map_values(|s: DnsServer| s@),
            domains.deep_view(),
            chunk_size as int,
            servers.len() as int,
        ),
{
    let ghost all = servers@.map_values(|s: DnsServer| s@);
    let ghost names = servers@.map_values(|s: DnsServer| s@.name);
    let ghost start_entries = run_entries(*results);
    let ghost dv = domains.deep_view();
    let count: usize = servers.len();
    let mut rest = servers;
    let mut kept: Vec<DnsServer> = Vec::new();
    let mut j: usize = 0;
    while j < count
        invariant
            j <= count,
            count * chunk_size < domains.len() + chunk_size,
            chunk_size > 0,
            dv == domains.deep_view(),
            dv.len() == domains.len(),
            all.len() == count,
            names == all.map_values(|s: DnsServerView| s.name),
            rest@.map_values(|s: DnsServer| s@) == all.subrange(j as int, count as int),
            run_entries(*results) == distributed(start_entries, names, dv, chunk_size as int, j as int),
            kept@.map_values(|s: DnsServer| s@) == newcomers(start_entries, all, dv, chunk_size as int, j as int),
        decreases count - j,
    {
        assert(j * chunk_size < domains.len()) by (nonlinear_arith)
            requires
                j < count,
                chunk_size > 0,
                count * chunk_size < domains.len() + chunk_size,
        ;
        let start: usize = j * chunk_size;
        let end: usize = if domains.len() - start <= chunk_size { domains.len() } else { start + chunk_size };
        let piece = copy_range(domains, start, end);
        assert(piece.deep_view() == chunk(dv, chunk_size as int, j as int));
        assert(rest@.map_values(|s: DnsServer| s@).len() == rest.len());
        assert(rest@.map_values(|s: DnsServer| s@)[0] == rest@[0]@);
        let ghost old_rest = rest@;
        let server = rest.remove(0);
        assert(forall|k: int| 0 <= k < rest@.len() ==> rest@[k] == old_rest[k + 1]);
        let ghost old_views = old_rest.map_values(|s: DnsServer| s@);
        assert(forall|k: int| 0 <= k < old_rest.len() ==> #[trigger] old_views[k] == all[j + k]);
        assert(server@ == all[j as int]);
        let name = server.name().clone();
        let run = ServerRun::new(piece);
        let previous = insert_run(results, name, run);
        if previous.is_none() {
            kept.push(server);
        }
        proof {
            assert(kept@.map_values(|s: DnsServer| s@) =~= newcomers(start_entries, all, dv, chunk_size as int, j + 1));
            let new_views = rest@.map_values(|s: DnsServer| s@);
            assert forall|k: int| 0 <= k < rest@.len() implies
                #[trigger] new_views[k] == all.subrange(j + 1, count as int)[k] by {
                assert(old_views[k + 1] == all[j + k + 1]);
            }
            assert(rest@.map_values(|s: DnsServer| s@) =~= all.subrange(j + 1, count as int));
        }
        j = j + 1;
    }
    kept
}

/// The outcome of setting up one group: the number of domains per server and
/// the servers whose setups the map keeps.
#[derive(Debug)]
pub struct GroupPlan {
    pub chunk_size: usize,
    pub kept: Vec<DnsServer>,
}

/// Adds a group's servers to the benchmark: a group without servers is
/// skipped (`None`); otherwise the domains are divided evenly over the
/// servers, at most 1000 each, and each server gets its chunk. A group with
/// more servers than there are domains cannot be divided (each server would
/// get none), so it is left out by the precondition.
pub fn assign_group(
    servers: Vec<DnsServer>,
    domains: &Vec<String>,
    results: &mut IndexMap<String, ServerRun>,
) -> (plan: Option<GroupPlan>)
    requires
        servers.len() <= domains.len(),
    ensures
        servers.len() == 0 ==> plan is None && run_entries(*final(results)) == run_entries(*old(results)),
        servers.len() > 0 ==> (plan matches Some(p) && {
            &&& spec_chunk_size(domains.len() as int, servers.len() as int) == Some(p.chunk_size as int)
            &&& run_entries(*final(results)) == distributed(
                run_entries(*old(results)),
                servers@.map_values(|s: DnsServer| s@.name),
                domains.deep_view(),
                p.chunk_size as int,
                servers.len() as int,
            )
            &&& p.kept@.map_values(|s: DnsServer| s@) == newcomers(
                run_entries(*old(results)),
                servers@.map_values(|s: DnsServer| s@),
                domains.deep_view(),
                p.chunk_size as int,
                servers.len() as int,
            )
        }),
{
    match chunk_size(domains.len(), servers.len()) {
        None => None,
        Some(size) => {
            proof {
                assert(domains.deep_view().len() == domains.len());
                lemma_group_chunks_are_full(domains.deep_view(), servers.len() as int, size as int);
            }
            let kept = distribute_domains_to_servers(servers, domains, size, results);
            Some(GroupPlan { chunk_size: size, kept })
        },
    }
}

/// What the benchmark measured: for each server, by name and in the order in
/// which the servers were added, the milliseconds recorded for its lookups.
#[derive(Debug)]
pub struct BenchmarkResults {
    pub results: IndexMap<String, Vec<u128>>,
}

/// The recorded milliseconds of each entry, under the same name.
pub open spec fn durations_of(entries: Seq<(Seq<char>, RunView)>) -> Seq<(Seq<char>, Seq<u128>)> {
    entries.map_values(|e: (Seq<char>, RunView)| (e.0, e.1.durations))
}

/// Inserting the entries one after the other into a map that starts empty.
pub open spec fn inserted_all<V>(entries: Seq<(Seq<char>, V)>) -> Seq<(Seq<char>, V)>
    decreases entries.len(),
{
    if entries.len() == 0 {
        Seq::empty()
    } else {
        insert_entry(inserted_all(entries.drop_last()), entries.last().0, entries.last().1)
    }
}

/// Inserting entries with distinct keys one after the other keeps them as
/// they are.
pub proof fn lemma_inserted_all_distinct<V>(entries: Seq<(Seq<char>, V)>)
    requires
        keys_distinct(entries),
    ensures
        inserted_all(entries) == entries,
    decreases entries.len(),
{
    if entries.len() > 0 {
        let init = entries.drop_last();
        assert(keys_distinct(init));
        lemma_inserted_all_distinct(init);
        assert(!has_key(init, entries.last().0)) by {
            if has_key(init, entries.last().0) {
                let i: int = choose|i: int| 0 <= i < init.len() && #[trigger] init[i].0 == entries.last().0;
                assert(entries[i].0 != entries[entries.len() - 1].0);
            }
        }
        assert(init.push(entries.last()) =~= entries);
    }
}

fn copy_millis(v: &Vec<u128>) -> (out: Vec<u128>)
    ensures
        out@ == v@,
{
    let mut out: Vec<u128> = Vec::new();
    let mut i: usize = 0;
    while i < v.len()
        invariant
            i <= v.len(),
            out@ == v@.take(i as int),
        decreases v.len() - i,
    {
        out.push(v[i]);
        assert(out@ =~= v@.take(i + 1));
        i = i + 1;
    }
    assert(v@.take(v.len() as int) =~= v@);
    out
}

/// The results of a benchmark: each server's recorded milliseconds under its
/// name, in the order of the servers.
pub fn collect_results(runs: &IndexMap<String, ServerRun>) -> (results: BenchmarkResults)
    ensures
        keys_distinct(run_entries(*runs)),
        duration_entries(results.results) == durations_of(run_entries(*runs)),
{
    let ghost entries = run_entries(*runs);
    let ghost all = durations_of(entries);
    let mut out = new_duration_map();
    let n: usize = run_map_len(runs);
    let mut i: usize = 0;
    while i < n
        invariant
            i <= n,
            n == entries.len(),
            entries == run_entries(*runs),
            all == durations_of(entries),
            duration_entries(out) == inserted_all(all.take(i as int)),
            forall|a: int, j: int| 0 <= a < i && 0 <= j < n && j != a ==> #[trigger] entries[j].0 != #[trigger] entries[a].0,
        decreases n - i,
    {
        let entry = run_entry_at(runs, i);
        match entry {
            Some((name, run)) => {
                let millis = copy_millis(run.durations());
                insert_durations(&mut out, name.clone(), millis);
                assert(all.take(i + 1).drop_last() =~= all.take(i as int));
            },
            None => {},
        }
        i = i + 1;
    }
    assert(all.take(n as int) =~= all);
    proof {
        assert forall|a: int, b: int| 0 <= a < b < entries.len() implies #[trigger] entries[a].0 != #[trigger] entries[b].0 by {
            assert(entries[b].0 != entries[a].0);
        }
        assert(keys_distinct(all)) by {
            assert forall|a: int, b: int| 0 <= a < b < all.len() implies #[trigger] all[a].0 != #[trigger] all[b].0 by {
                assert(entries[a].0 != entries[b].0);
            }
        }
        lemma_inserted_all_distinct(all);
    }
    BenchmarkResults { results: out }
}

} // verus!
