//! Configuration data and its defaults, and the endpoint selection that
//! a cluster configuration steers.  Reading and writing a configuration
//! file is the caller's business; the types here hold plain values only.

use vstd::prelude::*;
use vstd::string::StringExecFns;
use crate::strutil::{str_to_chars, subvec, chars_eq};
use crate::error::VmCliError;

verus! {

#[derive(Debug, Clone, PartialEq, Eq)]
pub struct AuthConfig {
    pub username: Option<String>,
    pub password: Option<String>,
    pub token: Option<String>,
}

#[derive(Debug, Clone, Copy, PartialEq, Eq, Structural)]
pub enum OutputFormat {
    Json,
    Yaml,
    Table,
    Csv,
}

#[derive(Debug, Clone, PartialEq, Eq)]
pub struct OutputConfig {
    pub format: OutputFormat,
    pub color: bool,
    pub pretty: bool,
}

#[derive(Debug, Clone, PartialEq, Eq)]
pub struct ClusterConfig {
    pub query_endpoint: String,
    pub query_range_endpoint: String,
    pub health_endpoint: String,
    pub metrics_endpoint: String,
    pub use_select_endpoint: bool,
    pub select_account_id: String,
    pub select_project_id: String,
    pub vminsert_host: Option<String>,
    pub vmstorage_host: Option<String>,
}

#[derive(Debug, Clone, PartialEq, Eq)]
pub struct LoggingConfig {
    pub level: String,
    pub file: Option<String>,
}

#[derive(Debug, Clone, PartialEq, Eq)]
pub struct ExportConfig {
    pub default_format: String,
    pub chunk_size: usize,
}

#[derive(Debug, Clone, PartialEq, Eq)]
pub struct Config {
    pub host: String,
    pub timeout: u64,
    pub auth: Option<AuthConfig>,
    pub output: OutputConfig,
    pub cluster: Option<ClusterConfig>,
    pub logging: Option<LoggingConfig>,
    pub export: Option<ExportConfig>,
}

pub fn default_query_endpoint() -> (r: String)
    ensures
        r@ == "/api/v1/query"@,
{
    String::from_str("/api/v1/query")
}

pub fn default_query_range_endpoint() -> (r: String)
    ensures
        r@ == "/api/v1/query_range"@,
{
    String::from_str("/api/v1/query_range")
}

pub fn default_health_endpoint() -> (r: String)
    ensures
        r@ == "/health"@,
{
    String::from_str("/health")
}

pub fn default_metrics_endpoint() -> (r: String)
    ensures
        r@ == "/api/v1/label/__name__/values"@,
{
    String::from_str("/api/v1/label/__name__/values")
}

pub fn default_account_id() -> (r: String)
    ensures
        r@ == "0"@,
{
    String::from_str("0")
}

pub fn default_project_id() -> (r: String)
    ensures
        r@ == "0"@,
{
    String::from_str("0")
}

pub fn default_log_level() -> (r: String)
    ensures
        r@ == "info"@,
{
    String::from_str("info")
}

pub fn default_export_format() -> (r: String)
    ensures
        r@ == "prometheus"@,
{
    String::from_str("prometheus")
}

pub fn default_chunk_size() -> (r: usize)
    ensures
        r == 1000,
{
    1000
}

impl Default for Config {
    /// The standalone default: a local single-node address, a 30 second
    /// timeout, table output with colour and pretty printing, and no
    /// optional sections.
    fn default() -> (r: Config)
        ensures
            r.host@ == "http://localhost:8428"@,
            r.timeout == 30,
            r.auth is None,
            r.output.format == OutputFormat::Table,
            r.output.color,
            r.output.pretty,
            r.cluster is None,
            r.logging is None,
            r.export is None,
    {
        Config {
            host: String::from_str("http://localhost:8428"),
            timeout: 30,
            auth: None,
            output: OutputConfig { format: OutputFormat::Table, color: true, pretty: true },
            cluster: None,
            logging: None,
            export: None,
        }
    }
}

/// Whether the path is under the query API prefix.
pub open spec fn starts_with_api(s: Seq<char>) -> bool {
    s.len() >= 5 && s.subrange(0, 5) == "/api/"@
}

/// The endpoint a request uses.  Without a cluster it is the default
/// path.  A cluster in select mode rewrites API paths under its account's
/// select prefix and leaves other paths alone; outside select mode its
/// own query endpoint stands.
pub open spec fn endpoint_spec(cluster: Option<ClusterConfig>, dflt: Seq<char>) -> Seq<char> {
    match cluster {
        Some(c) => {
            if c.use_select_endpoint {
                if starts_with_api(dflt) {
                    "/select/"@ + c.select_account_id@ + "/prometheus"@ + dflt
                } else {
                    dflt
                }
            } else {
                c.query_endpoint@
            }
        },
        None => dflt,
    }
}

/// Resolves the endpoint path for a request, as `endpoint_spec` states.
pub fn resolve_endpoint(cluster: &Option<ClusterConfig>, default_endpoint: &str) -> (r: String)
    ensures
        r@ == endpoint_spec(*cluster, default_endpoint@),
{
    match cluster {
        Some(c) => {
            if c.use_select_endpoint {
                let chars = str_to_chars(default_endpoint);
                let is_api = if chars.len() >= 5 {
                    let prefix = subvec(&chars, 0, 5);
                    chars_eq(&prefix, "/api/")
                } else {
                    false
                };
                if is_api {
                    let mut r = String::from_str("/select/");
                    r.append(c.select_account_id.as_str());
                    r.append("/prometheus");
                    r.append(default_endpoint);
                    r
                } else {
                    String::from_str(default_endpoint)
                }
            } else {
                c.query_endpoint.clone()
            }
        },
        None => String::from_str(default_endpoint),
    }
}

/// The host an insert request goes to: the cluster's insert host when
/// one is named, else the base host.
pub open spec fn insert_host_spec(cluster: Option<ClusterConfig>, base: Seq<char>) -> Seq<char> {
    match cluster {
        Some(c) => match c.vminsert_host {
            Some(h) => h@,
            None => base,
        },
        None => base,
    }
}

pub fn select_insert_host(cluster: &Option<ClusterConfig>, base: &str) -> (r: String)
    ensures
        r@ == insert_host_spec(*cluster, base@),
{
    match cluster {
        Some(c) => match &c.vminsert_host {
            Some(h) => h.clone(),
            None => String::from_str(base),
        },
        None => String::from_str(base),
    }
}

/// The host a storage-tier request goes to: the cluster's storage host
/// when one is named, else the base host.
pub open spec fn storage_host_spec(cluster: Option<ClusterConfig>, base: Seq<char>) -> Seq<char> {
    match cluster {
        Some(c) => match c.vmstorage_host {
            Some(h) => h@,
            None => base,
        },
        None => base,
    }
}

pub fn select_storage_host(cluster: &Option<ClusterConfig>, base: &str) -> (r: String)
    ensures
        r@ == storage_host_spec(*cluster, base@),
{
    match cluster {
        Some(c) => match &c.vmstorage_host {
            Some(h) => h.clone(),
            None => String::from_str(base),
        },
        None => String::from_str(base),
    }
}

/// The host snapshot administration talks to.  A standalone node answers
/// itself; a cluster must name its storage host, and is refused when it
/// does not.
pub fn snapshot_host(cluster: &Option<ClusterConfig>, base: &str) -> (r: Result<String, VmCliError>)
    ensures
        (r matches Ok(h) ==> match cluster {
            Some(c) => c.vmstorage_host matches Some(s) && h@ == s@,
            None => h@ == base@,
        }),
        r is Err <==> (*cluster matches Some(c) && c.vmstorage_host is None),
        (r matches Err(e) ==> e == VmCliError::ApiError {
            message: e->ApiError_message,
            status: None,
        } && e->ApiError_message@ == "the cluster configuration names no storage host"@),
{
    match cluster {
        Some(c) => match &c.vmstorage_host {
            Some(h) => Ok(h.clone()),
            None => Err(
                VmCliError::ApiError {
                    message: String::from_str("the cluster configuration names no storage host"),
                    status: None,
                },
            ),
        },
        None => Ok(String::from_str(base)),
    }
}


} // verus!
