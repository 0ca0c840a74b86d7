//! Configuration values, the overrides given on the command line, and the
//! checks that span several fields.
use vstd::prelude::*;
use std::path::PathBuf;
use std::time::Duration;
use crate::json::{Json, JsonValue};
use crate::suppress::{rules_compile, SuppressRules};
use crate::text::{chars_of, concat, decimal, decimal_string};

verus! {

broadcast use vstd::std_specs::vec::group_vec_axioms;

/// `std::path::PathBuf`, a file path.
#[verifier::external_type_specification]
#[verifier::external_body]
pub struct ExPathBuf(std::path::PathBuf);

/// The per-endpoint settings the analysis reads: the endpoint template, the
/// JSON paths excluded from analysis, and the request-capture switches.
pub struct EndpointSettings {
    pub pattern: String,
    pub suppress_paths: Vec<String>,
    pub capture_request_curl: bool,
    pub store_credentials_header: bool,
}

/// Values given on the command line, which take precedence over every
/// other source.
pub struct CliOverrides {
    pub config_path: Option<PathBuf>,
    pub baseline: Option<String>,
    pub control: Option<String>,
    pub candidate: Option<String>,
    pub endpoints: Vec<String>,
}

impl CliOverrides {
    /// No overrides.
    pub fn empty() -> (r: CliOverrides)
        ensures
            r.config_path is None,
            r.baseline is None,
            r.control is None,
            r.candidate is None,
            r.endpoints@.len() == 0,
    {
        CliOverrides { config_path: None, baseline: None, control: None, candidate: None, endpoints: Vec::new() }
    }
}

pub struct Proxy {
    pub allow_http_side_effects: bool,
}

pub struct Pipeline {
    pub channel_capacity: usize,
}

pub struct Upstream {
    pub baseline: String,
    pub control: String,
    pub candidate: String,
    pub timeout: Duration,
}

pub enum StorageBackend {
    InMemory,
    Redis { uri: String },
}

pub struct Storage {
    /// Most samples retained per endpoint.
    pub sample_cap: usize,
    /// Samples older than this are not read.
    pub window: Duration,
    /// Largest decoded body stored.
    pub max_body_bytes: usize,
    pub backend: StorageBackend,
}

pub struct Server {
    pub address: String,
    pub proxy_port: u16,
    pub admin_port: u16,
}

pub struct Logging {
    pub level: String,
}

pub struct Metrics {
    pub enabled: bool,
}

pub open spec fn opt_member(name: Seq<char>, v: Option<String>) -> Seq<(Seq<char>, Json)> {
    match v {
        Some(t) => seq![(name, Json::Str(t@))],
        None => Seq::empty(),
    }
}

/// The configuration layer the command line contributes: an `upstream`
/// object with the addresses given, and an `endpoints` list of the
/// templates given, each present only when non-empty; `None` when nothing
/// was given.
pub open spec fn cli_layer(cli: CliOverrides) -> Option<Json> {
    let upstream = opt_member("baseline"@, cli.baseline) + opt_member("control"@, cli.control)
        + opt_member("candidate"@, cli.candidate);
    let endpoints = Seq::new(cli.endpoints@.len(), |i: int| Json::Object(seq![("pattern"@, Json::Str(cli.endpoints@[i]@))]));
    let root = (if upstream.len() > 0 { seq![("upstream"@, Json::Object(upstream))] } else { Seq::empty() })
        + (if endpoints.len() > 0 { seq![("endpoints"@, Json::Array(endpoints))] } else { Seq::empty() });
    if root.len() == 0 {
        None
    } else {
        Some(Json::Object(root))
    }
}

fn push_text(members: &mut Vec<(String, JsonValue)>, name: &str, v: &Option<String>)
    ensures
        crate::json::member_views(final(members)@) == crate::json::member_views(old(members)@) + opt_member(name@, *v),
{
    let ghost before = crate::json::member_views(members@);
    match v {
        Some(t) => {
            members.push((String::from_str(name), JsonValue::Str(t.clone())));
        },
        None => {},
    }
    assert(crate::json::member_views(members@) =~= before + opt_member(name@, *v));
}

/// The command-line configuration layer as JSON.
pub fn cli_override_json(cli: &CliOverrides) -> (r: Option<JsonValue>)
    ensures
        match r {
            Some(j) => cli_layer(*cli) == Some(j@),
            None => cli_layer(*cli) is None,
        },
{
    let mut upstream: Vec<(String, JsonValue)> = Vec::new();
    assert(crate::json::member_views(upstream@) =~= Seq::<(Seq<char>, Json)>::empty());
    push_text(&mut upstream, "baseline", &cli.baseline);
    push_text(&mut upstream, "control", &cli.control);
    push_text(&mut upstream, "candidate", &cli.candidate);
    let ghost up = crate::json::member_views(upstream@);
    let mut endpoints: Vec<JsonValue> = Vec::new();
    let mut i: usize = 0;
    while i < cli.endpoints.len()
        invariant
            i <= cli.endpoints@.len(),
            crate::json::models(endpoints@) == Seq::new(i as nat, |k: int| Json::Object(seq![("pattern"@, Json::Str(cli.endpoints@[k]@))])),
        decreases cli.endpoints@.len() - i,
    {
        let mut member: Vec<(String, JsonValue)> = Vec::new();
        member.push((String::from_str("pattern"), JsonValue::Str(cli.endpoints[i].clone())));
        let ghost mv = crate::json::member_views(member@);
        assert(mv =~= seq![("pattern"@, Json::Str(cli.endpoints@[i as int]@))]);
        let obj = JsonValue::Object(member);
        assert(obj@->Object_0 =~= mv);
        let ghost before = crate::json::models(endpoints@);
        let ghost ov = obj@;
        endpoints.push(obj);
        assert(crate::json::models(endpoints@) =~= before.push(ov));
        assert(crate::json::models(endpoints@) =~= Seq::new(i as nat + 1, |k: int| Json::Object(seq![("pattern"@, Json::Str(cli.endpoints@[k]@))])));
        i += 1;
    }
    let ghost eps = crate::json::models(endpoints@);
    let has_upstream = upstream.len() > 0;
    let has_endpoints = endpoints.len() > 0;
    let mut root: Vec<(String, JsonValue)> = Vec::new();
    if has_upstream {
        let u = JsonValue::Object(upstream);
        assert(u@->Object_0 =~= up);
        root.push((String::from_str("upstream"), u));
    }
    let ghost mid = crate::json::member_views(root@);
    if has_endpoints {
        let e = JsonValue::Array(endpoints);
        assert(e@->Array_0 =~= eps);
        root.push((String::from_str("endpoints"), e));
    }
    if root.len() == 0 {
        return None;
    }
    let ghost rv = crate::json::member_views(root@);
    let r = JsonValue::Object(root);
    assert(r@->Object_0 =~= rv);
    assert(rv =~= cli_layer(*cli)->0->Object_0);
    Some(r)
}

/// A rule a single configuration field must meet.
pub enum FieldRule {
    /// A count of at least one.
    AtLeastOne,
    /// A text that is not empty.
    NonEmpty,
    /// A text that begins with `/`.
    LeadingSlash,
}

/// How a broken field rule is reported.
pub open spec fn rule_text(rule: FieldRule) -> Seq<char> {
    match rule {
        FieldRule::AtLeastOne => "lower than 1"@,
        FieldRule::NonEmpty => "length is lower than 1"@,
        FieldRule::LeadingSlash => "value does not begin with \"/\""@,
    }
}

/// Why a configuration is refused.
pub enum ConfigError {
    /// A field breaks its own rule; `field` is its path in the configuration.
    InvalidField { field: String, rule: FieldRule },
    /// The proxy and admin servers were given the same port.
    SamePorts,
    /// An endpoint's suppression patterns do not all compile.
    InvalidSuppressPaths(String),
}

impl ConfigError {
    pub fn message(&self) -> (r: String)
        ensures
            match self {
                ConfigError::InvalidField { field, rule } => r@ == field@ + ": "@ + rule_text(*rule),
                ConfigError::SamePorts => r@ == "server.proxy-port and server.admin-port must differ"@,
                ConfigError::InvalidSuppressPaths(p) => r@ == "invalid suppress_paths for endpoint '"@ + p@ + "'"@,
            },
    {
        match self {
            ConfigError::InvalidField { field, rule } => {
                let text = match rule {
                    FieldRule::AtLeastOne => "lower than 1",
                    FieldRule::NonEmpty => "length is lower than 1",
                    FieldRule::LeadingSlash => "value does not begin with \"/\"",
                };
                let a = concat(field.as_str(), ": ");
                concat(a.as_str(), text)
            },
            ConfigError::SamePorts => "server.proxy-port and server.admin-port must differ".to_string(),
            ConfigError::InvalidSuppressPaths(p) => {
                let a = concat("invalid suppress_paths for endpoint '", p.as_str());
                concat(a.as_str(), "'")
            },
        }
    }
}

/// Whether `p` begins with `/`.
pub open spec fn starts_with_slash(p: Seq<char>) -> bool {
    p.len() > 0 && p[0] == '/'
}

/// The first endpoint from `i` on whose pattern does not begin with `/`.
pub open spec fn first_bad_pattern(endpoints: Seq<EndpointSettings>, i: nat) -> Option<nat>
    decreases endpoints.len() - i,
{
    if i >= endpoints.len() {
        None
    } else if !starts_with_slash(endpoints[i as int].pattern@) {
        Some(i)
    } else {
        first_bad_pattern(endpoints, i + 1)
    }
}

/// The first field, in configuration order, that breaks its own rule, with
/// that rule; `None` when every field meets its rule.
pub open spec fn broken_field(
    channel_capacity: usize,
    baseline: Seq<char>,
    control: Seq<char>,
    candidate: Seq<char>,
    endpoints: Seq<EndpointSettings>,
    sample_cap: usize,
    max_body_bytes: usize,
    redis_uri: Option<Seq<char>>,
) -> Option<(Seq<char>, FieldRule)> {
    if channel_capacity == 0 {
        Some(("pipeline.channel_capacity"@, FieldRule::AtLeastOne))
    } else if baseline.len() == 0 {
        Some(("upstream.baseline"@, FieldRule::NonEmpty))
    } else if control.len() == 0 {
        Some(("upstream.control"@, FieldRule::NonEmpty))
    } else if candidate.len() == 0 {
        Some(("upstream.candidate"@, FieldRule::NonEmpty))
    } else if first_bad_pattern(endpoints, 0) is Some {
        Some(("endpoints["@ + decimal(first_bad_pattern(endpoints, 0)->0) + "].pattern"@, FieldRule::LeadingSlash))
    } else if sample_cap == 0 {
        Some(("storage.sample_cap"@, FieldRule::AtLeastOne))
    } else if max_body_bytes == 0 {
        Some(("storage.max_body_bytes"@, FieldRule::AtLeastOne))
    } else if redis_uri matches Some(u) && u.len() == 0 {
        Some(("storage.backend.uri"@, FieldRule::NonEmpty))
    } else {
        None
    }
}

fn begins_with_slash(p: &str) -> (b: bool)
    ensures
        b == starts_with_slash(p@),
{
    let cs = chars_of(p);
    cs.len() > 0 && cs[0] == '/'
}

/// The first endpoint whose pattern does not begin with `/`.
fn find_bad_pattern(endpoints: &[EndpointSettings]) -> (r: Option<usize>)
    ensures
        match r {
            Some(i) => first_bad_pattern(endpoints@, 0) == Some(i as nat),
            None => first_bad_pattern(endpoints@, 0) is None,
        },
{
    let mut i: usize = 0;
    while i < endpoints.len()
        invariant
            i <= endpoints@.len(),
            first_bad_pattern(endpoints@, 0) == first_bad_pattern(endpoints@, i as nat),
        decreases endpoints@.len() - i,
    {
        if !begins_with_slash(endpoints[i].pattern.as_str()) {
            return Some(i);
        }
        i += 1;
    }
    None
}

fn field_error(field: &str, rule: FieldRule) -> (r: Result<(), ConfigError>)
    ensures
        r matches Err(ConfigError::InvalidField { field: f, rule: g }) && f@ == field@ && g == rule,
{
    Err(ConfigError::InvalidField { field: field.to_string(), rule })
}

/// The rules each field meets on its own, checked in configuration order:
/// the channel capacity, sample cap and body limit are at least one, the
/// three upstreams and a Redis URI are not empty, and every endpoint
/// pattern begins with `/`. The first field that breaks its rule is named.
pub fn check_fields(
    channel_capacity: usize,
    baseline: &str,
    control: &str,
    candidate: &str,
    endpoints: &[EndpointSettings],
    sample_cap: usize,
    max_body_bytes: usize,
    redis_uri: Option<&str>,
) -> (r: Result<(), ConfigError>)
    ensures
        match r {
            Ok(_) => broken_field(channel_capacity, baseline@, control@, candidate@, endpoints@, sample_cap, max_body_bytes,
                match redis_uri { Some(u) => Some(u@), None => None }) is None,
            Err(ConfigError::InvalidField { field, rule }) => broken_field(channel_capacity, baseline@, control@, candidate@,
                endpoints@, sample_cap, max_body_bytes, match redis_uri { Some(u) => Some(u@), None => None })
                == Some((field@, rule)),
            Err(_) => false,
        },
{
    if channel_capacity == 0 {
        return field_error("pipeline.channel_capacity", FieldRule::AtLeastOne);
    }
    if baseline.unicode_len() == 0 {
        return field_error("upstream.baseline", FieldRule::NonEmpty);
    }
    if control.unicode_len() == 0 {
        return field_error("upstream.control", FieldRule::NonEmpty);
    }
    if candidate.unicode_len() == 0 {
        return field_error("upstream.candidate", FieldRule::NonEmpty);
    }
    match find_bad_pattern(endpoints) {
        Some(i) => {
            let a = concat("endpoints[", decimal_string(i as u64).as_str());
            let field = concat(a.as_str(), "].pattern");
            return Err(ConfigError::InvalidField { field, rule: FieldRule::LeadingSlash });
        },
        None => {},
    }
    if sample_cap == 0 {
        return field_error("storage.sample_cap", FieldRule::AtLeastOne);
    }
    if max_body_bytes == 0 {
        return field_error("storage.max_body_bytes", FieldRule::AtLeastOne);
    }
    match redis_uri {
        Some(u) => {
            if u.unicode_len() == 0 {
                return field_error("storage.backend.uri", FieldRule::NonEmpty);
            }
        },
        None => {},
    }
    Ok(())
}

/// The checks a configuration passes beyond each field's own: the two
/// servers listen on different ports, and every endpoint's suppression
/// patterns compile (the first endpoint that fails is named).
pub fn check_cross_fields(proxy_port: u16, admin_port: u16, endpoints: &[EndpointSettings]) -> (r: Result<(), ConfigError>)
    ensures
        r is Ok <==> proxy_port != admin_port && forall|i: int| 0 <= i < endpoints@.len()
            ==> rules_compile(#[trigger] endpoints@[i].suppress_paths.deep_view()),
        proxy_port == admin_port ==> r matches Err(ConfigError::SamePorts),
        r matches Err(ConfigError::InvalidSuppressPaths(p)) ==> exists|i: int| 0 <= i < endpoints@.len()
            && #[trigger] endpoints@[i].pattern@ == p@ && !rules_compile(endpoints@[i].suppress_paths.deep_view())
            && forall|j: int| 0 <= j < i ==> rules_compile(#[trigger] endpoints@[j].suppress_paths.deep_view()),
{
    if proxy_port == admin_port {
        return Err(ConfigError::SamePorts);
    }
    let mut i: usize = 0;
    while i < endpoints.len()
        invariant
            proxy_port != admin_port,
            i <= endpoints@.len(),
            forall|j: int| 0 <= j < i ==> rules_compile(#[trigger] endpoints@[j].suppress_paths.deep_view()),
        decreases endpoints@.len() - i,
    {
        match SuppressRules::compile(&endpoints[i].suppress_paths) {
            Ok(_) => {},
            Err(_) => {
                assert(endpoints@[i as int].pattern@ == endpoints[i as int].pattern@);
                return Err(ConfigError::InvalidSuppressPaths(endpoints[i].pattern.clone()));
            },
        }
        i += 1;
    }
    Ok(())
}

} // verus!
