//! Configuration file (`/etc/bob/egress-resolver.toml`).
//!
//! The file is part of the measured image. It is the single source of truth
//! for which hostnames may be resolved, which resolver is trusted, which
//! firewall chains are runtime-populated and which static hosts entries the
//! searcher container receives.

use vstd::prelude::*;
use crate::addr::{addr_text, addr_texts, join_addrs, Ipv4Addr};
use crate::text::{
    alnum, byte_len, bytes_in, chars, debug_form, is_alnum, joined, lower, lowered, pieces, quoted,
    same_text, split, strip_end, stripped_end, texts, trim, trimmed,
};

verus! {

/// Default location of the configuration file.
pub const DEFAULT_CONFIG_PATH: &'static str = "/etc/bob/egress-resolver.toml";

/// Longest rule comment the kernel stores, in bytes.
pub const MAX_COMMENT_LEN: usize = 255;

#[derive(Debug, Clone)]
pub struct Config {
    pub resolver: ResolverConfig,
    pub firewall: FirewallConfig,
    pub endpoints: Vec<Endpoint>,
    pub static_hosts: Vec<StaticHost>,
}

#[derive(Debug, Clone)]
pub struct ResolverConfig {
    /// Recursive resolvers, tried in order until one returns a usable answer.
    pub servers: Vec<Ipv4Addr>,
    /// TLS server name the resolver certificate must be valid for.
    pub server_name: String,
    /// DNS-over-TLS port.
    pub port: u16,
    /// Per-query timeout.
    pub timeout_secs: u64,
    /// Attempts per name per server before moving on.
    pub attempts: u32,
    /// Bound on a whole resolve run.
    pub deadline_secs: u64,
    /// Require the AD (authenticated data) bit, i.e. the resolver's DNSSEC
    /// validation, on every accepted answer.
    pub require_authenticated: bool,
}

#[derive(Debug, Clone)]
pub struct FirewallConfig {
    /// Chain jumped to from PRODUCTION_OUT; holds one ACCEPT rule per address.
    pub production_chain: String,
    /// Chain jumped to from MAINTENANCE_OUT; holds one DROP rule per address and
    /// only ever grows while the box is up.
    pub maintenance_chain: String,
    /// Destination TCP port of the production accept rules.
    pub port: u16,
    /// Upper bound on the number of addresses in the production chain. A larger
    /// result is treated as an error and the previous chain contents are kept.
    pub max_addresses: usize,
}

#[derive(Debug, Clone)]
pub struct Endpoint {
    /// Hostname to resolve (A records only).
    pub name: String,
    /// When true, `toggle production` is refused while this name has no
    /// address at all.
    pub required: bool,
}

#[derive(Debug, Clone)]
pub struct StaticHost {
    pub ip: Ipv4Addr,
    pub names: Vec<String>,
}

pub fn default_dot_port() -> (r: u16)
    ensures
        r == 853,
{
    853
}

pub fn default_timeout_secs() -> (r: u64)
    ensures
        r == 5,
{
    5
}

pub fn default_attempts() -> (r: u32)
    ensures
        r == 3,
{
    3
}

pub fn default_deadline_secs() -> (r: u64)
    ensures
        r == 30,
{
    30
}

pub fn default_true() -> (r: bool)
    ensures
        r,
{
    true
}

pub fn default_https_port() -> (r: u16)
    ensures
        r == 443,
{
    443
}

pub fn default_max_addresses() -> (r: usize)
    ensures
        r == 64,
{
    64
}

// ---------------------------------------------------------------------------
// Names
// ---------------------------------------------------------------------------

/// A hostname in lower case, without surrounding white space and trailing dots.
pub open spec fn normalized(name: Seq<char>) -> Seq<char> {
    lowered(stripped_end(trimmed(name), '.'))
}

/// Letters, digits and hyphens; 1 to 63 bytes; no hyphen at either end.
pub open spec fn valid_label(l: Seq<char>) -> bool {
    &&& l.len() > 0
    &&& byte_len(l) <= 63
    &&& l.first() != '-'
    &&& l.last() != '-'
    &&& forall|i: int| 0 <= i < l.len() ==> is_alnum(#[trigger] l[i]) || l[i] == '-'
}

/// Valid labels with dots between them, at most 253 bytes in all.
pub open spec fn valid_hostname(name: Seq<char>) -> bool {
    &&& name.len() > 0
    &&& byte_len(name) <= 253
    &&& forall|k: int| 0 <= k < pieces(name, '.').len() ==> valid_label(#[trigger] pieces(name, '.')[k])
}

/// Letters, digits, underscores and hyphens; 1 to 28 bytes.
pub open spec fn valid_chain_name(name: Seq<char>) -> bool {
    &&& name.len() > 0
    &&& byte_len(name) <= 28
    &&& forall|i: int|
        0 <= i < name.len() ==> is_alnum(#[trigger] name[i]) || name[i] == '_' || name[i] == '-'
}

/// Lower-case a hostname and strip a trailing dot.
pub fn normalize_name(name: &str) -> (r: String)
    ensures
        r@ == normalized(name@),
{
    let t = trim(name);
    let d = strip_end(t.as_str(), '.');
    lower(d.as_str())
}

fn is_label(l: &str) -> (r: bool)
    ensures
        r == valid_label(l@),
{
    let v = chars(l);
    if v.len() == 0 || bytes_in(l) > 63 || v[0] == '-' || v[v.len() - 1] == '-' {
        return false;
    }
    let mut i: usize = 0;
    while i < v.len()
        invariant
            i <= v@.len(),
            v@ == l@,
            forall|k: int| 0 <= k < i ==> is_alnum(#[trigger] v@[k]) || v@[k] == '-',
        decreases v@.len() - i,
    {
        if !(alnum(v[i]) || v[i] == '-') {
            return false;
        }
        i += 1;
    }
    true
}

/// Conservative hostname check: letters, digits, hyphens, dots; labels 1..=63,
/// total <= 253, no empty labels, labels do not start or end with '-'.
pub fn is_hostname(name: &str) -> (r: bool)
    ensures
        r == valid_hostname(name@),
{
    if name.is_empty() || bytes_in(name) > 253 {
        return false;
    }
    let labels = split(name, '.');
    let ghost all = pieces(name@, '.');
    let mut i: usize = 0;
    while i < labels.len()
        invariant
            i <= labels@.len(),
            all == pieces(name@, '.'),
            texts(labels@) == all,
            forall|k: int| 0 <= k < i ==> valid_label(#[trigger] all[k]),
        decreases labels@.len() - i,
    {
        assert(all[i as int] == labels@[i as int]@);
        if !is_label(labels[i].as_str()) {
            return false;
        }
        i += 1;
    }
    true
}

/// iptables chain names: up to 28 chars, no whitespace; we are stricter.
pub fn is_chain_name(name: &str) -> (r: bool)
    ensures
        r == valid_chain_name(name@),
{
    let v = chars(name);
    if v.len() == 0 || bytes_in(name) > 28 {
        return false;
    }
    let mut i: usize = 0;
    while i < v.len()
        invariant
            i <= v@.len(),
            v@ == name@,
            forall|k: int|
                0 <= k < i ==> is_alnum(#[trigger] v@[k]) || v@[k] == '_' || v@[k] == '-',
        decreases v@.len() - i,
    {
        if !(alnum(v[i]) || v[i] == '_' || v[i] == '-') {
            return false;
        }
        i += 1;
    }
    true
}

// ---------------------------------------------------------------------------
// Validation
// ---------------------------------------------------------------------------

/// Why a configuration cannot be used.
#[derive(Debug, PartialEq, Eq)]
pub struct ConfigError(String);

impl View for ConfigError {
    type V = Seq<char>;

    closed spec fn view(&self) -> Seq<char> {
        self.0@
    }
}

impl ConfigError {
    fn new(message: &str) -> (r: ConfigError)
        ensures
            r@ == message@,
    {
        ConfigError(message.to_owned())
    }

    /// The file could not be read.
    pub fn cannot_read(path: &str, cause: &str) -> (r: ConfigError)
        ensures
            r@ == "cannot read "@ + path@ + ": "@ + cause@,
    {
        let mut s = "cannot read ".to_owned();
        s.append(path);
        s.append(": ");
        s.append(cause);
        ConfigError(s)
    }

    /// The file could not be parsed.
    pub fn invalid(cause: &str) -> (r: ConfigError)
        ensures
            r@ == "invalid config: "@ + cause@,
    {
        let mut s = "invalid config: ".to_owned();
        s.append(cause);
        ConfigError(s)
    }

    /// The message.
    pub fn message(&self) -> (r: &str)
        ensures
            r@ == self@,
    {
        self.0.as_str()
    }
}

/// The first of `f(from)`, `f(from + 1)`, ..., `f(to - 1)` that is `Some`.
pub open spec fn first_some(f: spec_fn(int) -> Option<Seq<char>>, from: int, to: int) -> Option<
    Seq<char>,
>
    decreases to - from,
{
    if from >= to {
        None
    } else if f(from) is Some {
        f(from)
    } else {
        first_some(f, from + 1, to)
    }
}

proof fn lemma_first_some(f: spec_fn(int) -> Option<Seq<char>>, from: int, i: int, to: int)
    requires
        from <= i <= to,
        forall|k: int| from <= k < i ==> #[trigger] f(k) is None,
    ensures
        first_some(f, from, to) == first_some(f, i, to),
    decreases i - from,
{
    if from < i {
        assert(f(from) is None);
        lemma_first_some(f, from + 1, i, to);
    }
}

/// Normalized endpoint names, in config order.
pub open spec fn names_of(endpoints: Seq<Endpoint>) -> Seq<Seq<char>> {
    Seq::new(endpoints.len(), |i: int| normalized(endpoints[i].name@))
}

/// What is wrong with endpoint `i`: its name is no hostname, or an earlier
/// endpoint has the same name.
pub open spec fn endpoint_problem(endpoints: Seq<Endpoint>, i: int) -> Option<Seq<char>> {
    let names = names_of(endpoints);
    if !valid_hostname(names[i]) {
        Some("invalid endpoint name "@ + debug_form(endpoints[i].name@))
    } else if names.take(i).contains(names[i]) {
        Some("duplicate endpoint "@ + debug_form(endpoints[i].name@))
    } else {
        None
    }
}

/// What is wrong with name `k` of a static host.
pub open spec fn static_name_problem(names: Seq<String>, k: int) -> Option<Seq<char>> {
    if !valid_hostname(normalized(names[k]@)) {
        Some("invalid static_host name "@ + debug_form(names[k]@))
    } else {
        None
    }
}

/// What is wrong with a static host: it has no names, or one is no hostname.
pub open spec fn static_problem(sh: StaticHost) -> Option<Seq<char>> {
    if sh.names@.len() == 0 {
        Some("static_host "@ + addr_text(sh.ip) + " has no names"@)
    } else {
        first_some(|k: int| static_name_problem(sh.names@, k), 0, sh.names@.len() as int)
    }
}

/// What is wrong with the resolver settings.
pub open spec fn resolver_problem(r: ResolverConfig) -> Option<Seq<char>> {
    if r.servers@.len() == 0 {
        Some("resolver.servers must not be empty"@)
    } else if r.server_name@.len() == 0 {
        Some("resolver.server_name must not be empty"@)
    } else if r.attempts == 0 {
        Some("resolver.attempts must be >= 1"@)
    } else if r.timeout_secs == 0 {
        Some("resolver.timeout_secs must be >= 1"@)
    } else {
        None
    }
}

/// What is wrong with the firewall settings.
pub open spec fn firewall_problem(f: FirewallConfig) -> Option<Seq<char>> {
    if f.production_chain@ == f.maintenance_chain@ {
        Some("firewall chains must differ"@)
    } else if !valid_chain_name(f.production_chain@) {
        Some("invalid chain name "@ + debug_form(f.production_chain@))
    } else if !valid_chain_name(f.maintenance_chain@) {
        Some("invalid chain name "@ + debug_form(f.maintenance_chain@))
    } else if f.max_addresses == 0 {
        Some("firewall.max_addresses must be >= 1"@)
    } else {
        None
    }
}

/// The first thing that is wrong with a configuration.
pub open spec fn config_problem(c: Config) -> Option<Seq<char>> {
    let endpoints = first_some(
        |i: int| endpoint_problem(c.endpoints@, i),
        0,
        c.endpoints@.len() as int,
    );
    if resolver_problem(c.resolver) is Some {
        resolver_problem(c.resolver)
    } else if c.endpoints@.len() == 0 {
        Some("at least one [[endpoint]] is required"@)
    } else if firewall_problem(c.firewall) is Some {
        firewall_problem(c.firewall)
    } else if endpoints is Some {
        endpoints
    } else {
        first_some(
            |i: int| static_problem(c.static_hosts@[i]),
            0,
            c.static_hosts@.len() as int,
        )
    }
}

fn check_resolver(r: &ResolverConfig) -> (out: Result<(), ConfigError>)
    ensures
        out is Ok <==> resolver_problem(*r) is None,
        out matches Err(e) ==> resolver_problem(*r) == Some(e@),
{
    if r.servers.len() == 0 {
        return Err(ConfigError::new("resolver.servers must not be empty"));
    }
    if r.server_name.as_str().is_empty() {
        return Err(ConfigError::new("resolver.server_name must not be empty"));
    }
    if r.attempts == 0 {
        return Err(ConfigError::new("resolver.attempts must be >= 1"));
    }
    if r.timeout_secs == 0 {
        return Err(ConfigError::new("resolver.timeout_secs must be >= 1"));
    }
    Ok(())
}

fn check_chain(name: &str) -> (out: Result<(), ConfigError>)
    ensures
        out is Ok <==> valid_chain_name(name@),
        out matches Err(e) ==> e@ == "invalid chain name "@ + debug_form(name@),
{
    if is_chain_name(name) {
        return Ok(());
    }
    let mut s = "invalid chain name ".to_owned();
    s.append(quoted(name).as_str());
    Err(ConfigError(s))
}

fn check_firewall(f: &FirewallConfig) -> (out: Result<(), ConfigError>)
    ensures
        out is Ok <==> firewall_problem(*f) is None,
        out matches Err(e) ==> firewall_problem(*f) == Some(e@),
{
    if same_text(f.production_chain.as_str(), f.maintenance_chain.as_str()) {
        return Err(ConfigError::new("firewall chains must differ"));
    }
    check_chain(f.production_chain.as_str())?;
    check_chain(f.maintenance_chain.as_str())?;
    if f.max_addresses == 0 {
        return Err(ConfigError::new("firewall.max_addresses must be >= 1"));
    }
    Ok(())
}

fn check_endpoints(endpoints: &Vec<Endpoint>) -> (out: Result<(), ConfigError>)
    ensures
        out is Ok <==> first_some(
            |i: int| endpoint_problem(endpoints@, i),
            0,
            endpoints@.len() as int,
        ) is None,
        out matches Err(e) ==> first_some(
            |i: int| endpoint_problem(endpoints@, i),
            0,
            endpoints@.len() as int,
        ) == Some(e@),
{
    let ghost f = |i: int| endpoint_problem(endpoints@, i);
    let ghost names = names_of(endpoints@);
    let mut seen: Vec<String> = Vec::new();
    let mut i: usize = 0;
    while i < endpoints.len()
        invariant
            i <= endpoints@.len(),
            f == (|i: int| endpoint_problem(endpoints@, i)),
            names == names_of(endpoints@),
            texts(seen@) == names.take(i as int),
            forall|k: int| 0 <= k < i ==> #[trigger] f(k) is None,
        decreases endpoints@.len() - i,
    {
        let raw = endpoints[i].name.as_str();
        let name = normalize_name(raw);
        assert(names[i as int] == name@);
        proof {
            lemma_first_some(f, 0, i as int, endpoints@.len() as int);
        }
        if !is_hostname(name.as_str()) {
            let mut s = "invalid endpoint name ".to_owned();
            s.append(quoted(raw).as_str());
            assert(f(i as int) == Some(s@));
            return Err(ConfigError(s));
        }
        if listed(&seen, name.as_str()) {
            let mut s = "duplicate endpoint ".to_owned();
            s.append(quoted(raw).as_str());
            assert(f(i as int) == Some(s@));
            return Err(ConfigError(s));
        }
        assert(f(i as int) is None);
        assert(names.take(i + 1) == names.take(i as int).push(name@));
        seen.push(name);
        assert(texts(seen@) =~= names.take(i + 1));
        i += 1;
    }
    proof {
        lemma_first_some(f, 0, i as int, endpoints@.len() as int);
    }
    Ok(())
}

/// Whether `name` is one of `list`.
pub fn listed(list: &Vec<String>, name: &str) -> (r: bool)
    ensures
        r == texts(list@).contains(name@),
{
    let ghost t = texts(list@);
    let mut i: usize = 0;
    while i < list.len()
        invariant
            i <= list@.len(),
            t == texts(list@),
            forall|k: int| 0 <= k < i ==> #[trigger] t[k] != name@,
        decreases list@.len() - i,
    {
        if same_text(list[i].as_str(), name) {
            assert(t[i as int] == name@);
            return true;
        }
        i += 1;
    }
    false
}

fn check_static(sh: &StaticHost) -> (out: Result<(), ConfigError>)
    ensures
        out is Ok <==> static_problem(*sh) is None,
        out matches Err(e) ==> static_problem(*sh) == Some(e@),
{
    if sh.names.len() == 0 {
        let mut s = "static_host ".to_owned();
        s.append(sh.ip.text().as_str());
        s.append(" has no names");
        return Err(ConfigError(s));
    }
    let ghost f = |k: int| static_name_problem(sh.names@, k);
    let mut i: usize = 0;
    while i < sh.names.len()
        invariant
            i <= sh.names@.len(),
            sh.names@.len() > 0,
            f == (|k: int| static_name_problem(sh.names@, k)),
            forall|k: int| 0 <= k < i ==> #[trigger] f(k) is None,
        decreases sh.names@.len() - i,
    {
        proof {
            lemma_first_some(f, 0, i as int, sh.names@.len() as int);
        }
        let raw = sh.names[i].as_str();
        if !is_hostname(normalize_name(raw).as_str()) {
            let mut s = "invalid static_host name ".to_owned();
            s.append(quoted(raw).as_str());
            assert(f(i as int) == Some(s@));
            return Err(ConfigError(s));
        }
        assert(f(i as int) is None);
        i += 1;
    }
    proof {
        lemma_first_some(f, 0, i as int, sh.names@.len() as int);
    }
    Ok(())
}

fn check_statics(hosts: &Vec<StaticHost>) -> (out: Result<(), ConfigError>)
    ensures
        out is Ok <==> first_some(|i: int| static_problem(hosts@[i]), 0, hosts@.len() as int)
            is None,
        out matches Err(e) ==> first_some(
            |i: int| static_problem(hosts@[i]),
            0,
            hosts@.len() as int,
        ) == Some(e@),
{
    let ghost f = |i: int| static_problem(hosts@[i]);
    let mut i: usize = 0;
    while i < hosts.len()
        invariant
            i <= hosts@.len(),
            f == (|i: int| static_problem(hosts@[i])),
            forall|k: int| 0 <= k < i ==> #[trigger] f(k) is None,
        decreases hosts@.len() - i,
    {
        proof {
            lemma_first_some(f, 0, i as int, hosts@.len() as int);
        }
        match check_static(&hosts[i]) {
            Ok(_) => {
                assert(f(i as int) is None);
            },
            Err(e) => {
                assert(f(i as int) == Some(e@));
                return Err(e);
            },
        }
        i += 1;
    }
    proof {
        lemma_first_some(f, 0, i as int, hosts@.len() as int);
    }
    Ok(())
}

impl Config {
    /// What becomes of a parsed file: a parse failure is an error, and so is
    /// the first thing that is wrong with the values.
    pub fn parse(outcome: Result<Config, String>) -> (r: Result<Config, ConfigError>)
        ensures
            outcome matches Err(cause) ==> (r matches Err(e) && e@ == "invalid config: "@ + cause@),
            outcome matches Ok(c) ==> {
                &&& r is Ok <==> config_problem(c) is None
                &&& r matches Ok(k) ==> k == c
                &&& r matches Err(e) ==> config_problem(c) == Some(e@)
            },
    {
        match outcome {
            Err(cause) => Err(ConfigError::invalid(cause.as_str())),
            Ok(c) => match c.validate() {
                Ok(_) => Ok(c),
                Err(e) => Err(e),
            },
        }
    }

    /// Checks the values.
    pub fn validate(&self) -> (r: Result<(), ConfigError>)
        ensures
            r is Ok <==> config_problem(*self) is None,
            r matches Err(e) ==> config_problem(*self) == Some(e@),
    {
        match check_resolver(&self.resolver) {
            Ok(_) => {},
            Err(e) => {
                return Err(e);
            },
        }
        if self.endpoints.len() == 0 {
            return Err(ConfigError::new("at least one [[endpoint]] is required"));
        }
        match check_firewall(&self.firewall) {
            Ok(_) => {},
            Err(e) => {
                return Err(e);
            },
        }
        match check_endpoints(&self.endpoints) {
            Ok(_) => {},
            Err(e) => {
                return Err(e);
            },
        }
        check_statics(&self.static_hosts)
    }

    /// Endpoint names, normalized (lower-case, no trailing dot), in config order.
    pub fn endpoint_names(&self) -> (r: Vec<String>)
        ensures
            texts(r@) == names_of(self.endpoints@),
    {
        let mut out: Vec<String> = Vec::new();
        let ghost names = names_of(self.endpoints@);
        let mut i: usize = 0;
        while i < self.endpoints.len()
            invariant
                i <= self.endpoints@.len(),
                names == names_of(self.endpoints@),
                texts(out@) == names.take(i as int),
            decreases self.endpoints@.len() - i,
        {
            let n = normalize_name(self.endpoints[i].name.as_str());
            assert(names.take(i + 1) == names.take(i as int).push(n@));
            out.push(n);
            assert(texts(out@) =~= names.take(i + 1));
            i += 1;
        }
        assert(names.take(i as int) == names);
        out
    }

    /// The resolver addresses, comma-separated.
    pub fn servers_csv(&self) -> (r: String)
        ensures
            r@ == joined(addr_texts(self.resolver.servers@), ","@),
    {
        join_addrs(&self.resolver.servers, ",")
    }
}

} // verus!
