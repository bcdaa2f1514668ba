use vstd::prelude::*;

verus! {

/// Everything the benchmark reads from its configuration file.
#[derive(Debug)]
pub struct AppConfig {
    pub domain: DomainConfig,
    pub groups: Vec<GroupConfig>,
}

/// Where the domains to query come from.
#[derive(Debug)]
pub struct DomainConfig {
    /// A file with one domain per line, after a header line.
    pub file: Option<String>,
    /// A printf format that receives a random prefix and a counter.
    pub format: Option<String>,
    /// A single domain, queried `repeat` times.
    pub fixed: Option<String>,
    /// How often the fixed domain is repeated and how many formatted domains are made.
    pub repeat: u8,
}

impl DomainConfig {
    /// The value of `repeat` when the configuration does not give one.
    pub fn default_repeat() -> (r: u8)
        ensures
            r == 1,
    {
        1
    }
}

/// A named group of DNS servers: plain IPv4 and IPv6 servers, and
/// DNS-over-TLS servers given by their domain.
#[derive(Debug)]
pub struct GroupConfig {
    pub name: String,
    pub ip4: Vec<String>,
    pub ip6: Vec<String>,
    pub dot: Vec<String>,
}

} // verus!
