use vstd::prelude::*;

verus! {

/// An IP address, by its octets.
#[derive(Debug, Clone, Copy)]
pub enum IpAddress {
    V4([u8; 4]),
    V6([u8; 16]),
}

/// The port of plain DNS.
pub const DNS_PORT: u16 = 53;
/// The port of DNS over TLS.
pub const DOT_PORT: u16 = 853;

/// How queries reach a name server.
#[derive(Debug, Clone, Copy, PartialEq, Eq, Structural)]
pub enum Transport {
    Udp,
    Tls,
}

/// Which addresses a resolver looks up.
#[derive(Debug, Clone, Copy, PartialEq, Eq, Structural)]
pub enum LookupStrategy {
    Ipv4Only,
    Ipv6Only,
}

/// Whether a resolver consults the hosts file.
#[derive(Debug, Clone, Copy, PartialEq, Eq, Structural)]
pub enum HostsFile {
    Always,
    Never,
    Auto,
}

/// The resolver options that the benchmark sets; a resolver keeps its
/// defaults for all others.
#[derive(Debug, Clone, Copy, PartialEq, Eq, Structural)]
pub struct ResolverOptions {
    pub timeout_secs: u64,
    pub attempts: usize,
    pub cache_size: usize,
    pub try_tcp_on_error: bool,
    pub use_hosts_file: HostsFile,
    pub validate: bool,
    pub ip_strategy: LookupStrategy,
}

/// The options of every resolver of the benchmark: one attempt with a one
/// second timeout, no cache, no fallback to TCP, no hosts file, no DNSSEC
/// validation, and the given address family only.
pub open spec fn benchmark_options(ip_strategy: LookupStrategy) -> ResolverOptions {
    ResolverOptions {
        timeout_secs: 1,
        attempts: 1,
        cache_size: 0,
        try_tcp_on_error: false,
        use_hosts_file: HostsFile::Never,
        validate: false,
        ip_strategy,
    }
}

/// Every resolver of the benchmark asks its server each time: one attempt,
/// a one second timeout, no cache, no TCP fallback, no hosts file, no DNSSEC
/// validation, and only the addresses of its own family. The IPv4 and IPv6
/// resolvers differ in nothing but the family.
pub proof fn lemma_benchmark_options_ask_the_server(ip_strategy: LookupStrategy)
    ensures
        benchmark_options(ip_strategy).cache_size == 0,
        benchmark_options(ip_strategy).attempts == 1,
        benchmark_options(ip_strategy).timeout_secs == 1,
        !benchmark_options(ip_strategy).try_tcp_on_error,
        benchmark_options(ip_strategy).use_hosts_file == HostsFile::Never,
        !benchmark_options(ip_strategy).validate,
        benchmark_options(ip_strategy).ip_strategy == ip_strategy,
        (ResolverOptions { ip_strategy: LookupStrategy::Ipv6Only, ..benchmark_options(LookupStrategy::Ipv4Only) })
            == benchmark_options(LookupStrategy::Ipv6Only),
{
}

/// The two resolvers of a server have the same options but for the family:
/// the IPv4 one looks up IPv4 addresses only, the IPv6 one IPv6 addresses only.
pub proof fn lemma_server_resolvers_differ_only_in_family(server: DnsServerView)
    requires
        server.options_v4 == benchmark_options(LookupStrategy::Ipv4Only),
        server.options_v6 == benchmark_options(LookupStrategy::Ipv6Only),
    ensures
        server.options_v4.cache_size == 0 && server.options_v6.cache_size == 0,
        server.options_v4.ip_strategy == LookupStrategy::Ipv4Only,
        server.options_v6.ip_strategy == LookupStrategy::Ipv6Only,
        (ResolverOptions { ip_strategy: LookupStrategy::Ipv6Only, ..server.options_v4 }) == server.options_v6,
{
}

/// The options of a resolver of the benchmark for the given address family.
pub fn resolver_options(ip_strategy: LookupStrategy) -> (options: ResolverOptions)
    ensures
        options == benchmark_options(ip_strategy),
{
    ResolverOptions {
        timeout_secs: 1,
        attempts: 1,
        cache_size: 0,
        try_tcp_on_error: false,
        use_hosts_file: HostsFile::Never,
        validate: false,
        ip_strategy,
    }
}

/// One name server that a resolver sends its queries to.
#[derive(Debug)]
pub struct NameServerSetup {
    pub address: IpAddress,
    pub port: u16,
    pub transport: Transport,
    /// The name that the TLS certificate must carry.
    pub tls_name: Option<String>,
}

/// A name server as a mathematical value.
pub struct NameServerView {
    pub address: IpAddress,
    pub port: u16,
    pub transport: Transport,
    pub tls_name: Option<Seq<char>>,
}

impl View for NameServerSetup {
    type V = NameServerView;

    open spec fn view(&self) -> NameServerView {
        NameServerView {
            address: self.address,
            port: self.port,
            transport: self.transport,
            tls_name: match self.tls_name {
                Some(n) => Some(n@),
                None => None,
            },
        }
    }
}

/// A DNS server under test: its name, the name servers behind it, and the
/// options of its two resolvers, one that looks up IPv4 addresses and one
/// that looks up IPv6 addresses. Servers are told apart by name.
#[derive(Debug)]
pub struct DnsServer {
    name: String,
    name_servers: Vec<NameServerSetup>,
    options_v4: ResolverOptions,
    options_v6: ResolverOptions,
}

/// A server as a mathematical value.
pub struct DnsServerView {
    pub name: Seq<char>,
    pub name_servers: Seq<NameServerView>,
    pub options_v4: ResolverOptions,
    pub options_v6: ResolverOptions,
}

impl View for DnsServer {
    type V = DnsServerView;

    closed spec fn view(&self) -> DnsServerView {
        DnsServerView {
            name: self.name@,
            name_servers: self.name_servers@.map_values(|s: NameServerSetup| s@),
            options_v4: self.options_v4,
            options_v6: self.options_v6,
        }
    }
}

/// A plain DNS server at the address: UDP to port 53.
pub open spec fn plain_name_server(address: IpAddress) -> NameServerView {
    NameServerView { address, port: DNS_PORT, transport: Transport::Udp, tls_name: None }
}

/// A DNS-over-TLS server at the address, for the domain: TLS to port 853,
/// checking the certificate against the domain.
pub open spec fn tls_name_server(address: IpAddress, domain: Seq<char>) -> NameServerView {
    NameServerView { address, port: DOT_PORT, transport: Transport::Tls, tls_name: Some(domain) }
}

impl DnsServer {
    /// A plain DNS server named by its IP address as written, at that address.
    pub fn new_dns(ip: String, address: IpAddress) -> (server: DnsServer)
        ensures
            server@.name == ip@,
            server@.name_servers == seq![plain_name_server(address)],
            server@.options_v4 == benchmark_options(LookupStrategy::Ipv4Only),
            server@.options_v6 == benchmark_options(LookupStrategy::Ipv6Only),
    {
        let mut name_servers: Vec<NameServerSetup> = Vec::new();
        name_servers.push(NameServerSetup { address, port: DNS_PORT, transport: Transport::Udp, tls_name: None });
        let server = DnsServer {
            name: ip,
            name_servers,
            options_v4: resolver_options(LookupStrategy::Ipv4Only),
            options_v6: resolver_options(LookupStrategy::Ipv6Only),
        };
        assert(server@.name_servers =~= seq![plain_name_server(address)]);
        server
    }

    /// A DNS-over-TLS server named by its domain, with one name server for
    /// each address the domain resolved to, in order.
    pub fn new_dot(domain: String, addresses: &Vec<IpAddress>) -> (server: DnsServer)
        requires
            addresses.len() > 0,
        ensures
            server@.name == domain@,
            server@.name_servers == addresses@.map_values(|a: IpAddress| tls_name_server(a, domain@)),
            server@.options_v4 == benchmark_options(LookupStrategy::Ipv4Only),
            server@.options_v6 == benchmark_options(LookupStrategy::Ipv6Only),
    {
        let mut name_servers: Vec<NameServerSetup> = Vec::new();
        let mut i: usize = 0;
        while i < addresses.len()
            invariant
                i <= addresses.len(),
                name_servers@.len() == i,
                forall|j: int| 0 <= j < i ==> #[trigger] name_servers@[j]@ == tls_name_server(addresses@[j], domain@),
            decreases addresses.len() - i,
        {
            name_servers.push(NameServerSetup {
                address: addresses[i],
                port: DOT_PORT,
                transport: Transport::Tls,
                tls_name: Some(domain.clone()),
            });
            i = i + 1;
        }
        let server = DnsServer {
            name: domain,
            name_servers,
            options_v4: resolver_options(LookupStrategy::Ipv4Only),
            options_v6: resolver_options(LookupStrategy::Ipv6Only),
        };
        assert(server@.name_servers =~= addresses@.map_values(|a: IpAddress| tls_name_server(a, server@.name)));
        server
    }

    /// The server's name: its IP address as written, or its domain.
    pub fn name(&self) -> (name: &String)
        ensures
            name@ == self@.name,
    {
        &self.name
    }

    /// The name servers behind this server.
    pub fn name_servers(&self) -> (servers: &Vec<NameServerSetup>)
        ensures
            servers@.map_values(|s: NameServerSetup| s@) == self@.name_servers,
    {
        &self.name_servers
    }

    /// The options of the resolver that looks up IPv4 addresses.
    pub fn options_v4(&self) -> (options: ResolverOptions)
        ensures
            options == self@.options_v4,
    {
        self.options_v4
    }

    /// The options of the resolver that looks up IPv6 addresses.
    pub fn options_v6(&self) -> (options: ResolverOptions)
        ensures
            options == self@.options_v6,
    {
        self.options_v6
    }
}

} // verus!
