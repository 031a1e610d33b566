//! The configuration surface: parsing of option values that the process
//! reads once at startup, and the two immutable configuration records the
//! components are constructed with.

use vstd::prelude::*;
use vstd::string::*;
use crate::text::{
    NumberError, dec_value, distinct_tokens, is_number, parse_u64, split_commas,
    split_commas_exec, string_eq,
};

verus! {

/// Parse a refresh period given in whole seconds. Succeeds exactly on
/// non-empty all-digit strings whose value fits in a `u64`; a malformed
/// value is fatal at startup, so the caller gets the exact reason.
pub fn parse_duration(src: &str) -> (r: Result<u64, NumberError>)
    ensures
        r is Ok <==> (is_number(src@) && dec_value(src@) <= u64::MAX),
        r matches Ok(secs) ==> secs as int == dec_value(src@),
        r matches Err(NumberError::Malformed) <==> !is_number(src@),
        r matches Err(NumberError::TooLarge) <==> (is_number(src@) && dec_value(src@) > u64::MAX),
{
    let s = src.to_owned();
    parse_u64(&s)
}

/// The distinct comma-separated names of `s`, first occurrences kept in
/// order: the mandatory-parameter set of one serving tier.
pub fn parse_params_set(src: &str) -> (out: Vec<String>)
    ensures
        out.deep_view() == distinct_tokens(split_commas(src@)),
        forall|i: int, j: int|
            0 <= i < j < out.deep_view().len() ==> out.deep_view()[i] != out.deep_view()[j],
{
    let s = src.to_owned();
    let tokens = split_commas_exec(&s);
    let ghost tv = tokens.deep_view();
    let mut out: Vec<String> = Vec::new();
    let n = tokens.len();
    let mut t: usize = 0;
    proof {
        assert(tv.take(0) =~= Seq::<Seq<char>>::empty());
    }
    while t < n
        invariant
            n == tokens.len(),
            t <= n,
            tv == tokens.deep_view(),
            out.deep_view() == distinct_tokens(tv.take(t as int)),
            forall|i: int, j: int|
                0 <= i < j < out.deep_view().len() ==> out.deep_view()[i] != out.deep_view()[j],
        decreases n - t,
    {
        proof {
            assert(tv.take(t as int + 1).drop_last() =~= tv.take(t as int));
            assert(tv.take(t as int + 1).last() == tv[t as int]);
        }
        if !contains_string(&out, &tokens[t]) {
            let ghost before = out.deep_view();
            out.push(tokens[t].clone());
            proof {
                assert(out.deep_view() =~= before.push(tv[t as int]));
                assert forall|i: int, j: int|
                    0 <= i < j < out.deep_view().len() implies out.deep_view()[i]
                    != out.deep_view()[j] by {
                    if j == out.deep_view().len() - 1 && out.deep_view()[i] == out.deep_view()[j] {
                        assert(0 <= i < before.len() && before[i] == tv[t as int]);
                        assert(before.contains(tv[t as int]));
                    }
                }
            }
        }
        t += 1;
    }
    proof {
        assert(tv.take(n as int) =~= tv);
    }
    out
}

/// Whether `v` already holds the string `s`.
fn contains_string(v: &Vec<String>, s: &String) -> (b: bool)
    ensures
        b == v.deep_view().contains(s@),
{
    let n = v.len();
    let mut i: usize = 0;
    while i < n
        invariant
            n == v.len(),
            i <= n,
            forall|k: int| 0 <= k < i ==> v.deep_view()[k] != s@,
        decreases n - i,
    {
        if string_eq(&v[i], s) {
            proof {
                assert(v.deep_view()[i as int] == s@);
            }
            return true;
        }
        i += 1;
    }
    false
}

/// `s` without its leading slashes.
pub open spec fn drop_leading_slashes(s: Seq<char>) -> Seq<char>
    decreases s.len(),
{
    if s.len() > 0 && s[0] == '/' {
        drop_leading_slashes(s.drop_first())
    } else {
        s
    }
}

/// `s` without its trailing slashes.
pub open spec fn drop_trailing_slashes(s: Seq<char>) -> Seq<char>
    decreases s.len(),
{
    if s.len() > 0 && s.last() == '/' {
        drop_trailing_slashes(s.drop_last())
    } else {
        s
    }
}

/// The canonical form of a route prefix: empty, or one leading slash
/// followed by the given path with its outer slashes trimmed.
pub open spec fn normalized_prefix(s: Seq<char>) -> Seq<char> {
    let core = drop_trailing_slashes(drop_leading_slashes(s));
    if core.len() == 0 {
        core
    } else {
        seq!['/'] + core
    }
}

/// Normalize the path prefix applied to all routes.
pub fn parse_path_prefix(src: &str) -> (out: String)
    ensures
        out@ == normalized_prefix(src@),
{
    let n = src.unicode_len();
    let mut start: usize = 0;
    proof {
        assert(src@.subrange(0, n as int) =~= src@);
    }
    while start < n && src.get_char(start) == '/'
        invariant
            n == src@.len(),
            start <= n,
            drop_leading_slashes(src@) == drop_leading_slashes(
                src@.subrange(start as int, n as int),
            ),
        decreases n - start,
    {
        proof {
            assert(src@.subrange(start as int, n as int).drop_first() =~= src@.subrange(
                start as int + 1,
                n as int,
            ));
        }
        start += 1;
    }
    proof {
        assert(drop_leading_slashes(src@) == src@.subrange(start as int, n as int));
    }
    let mut end: usize = n;
    while end > start && src.get_char(end - 1) == '/'
        invariant
            n == src@.len(),
            start <= end <= n,
            drop_leading_slashes(src@) == src@.subrange(start as int, n as int),
            drop_trailing_slashes(src@.subrange(start as int, n as int)) == drop_trailing_slashes(
                src@.subrange(start as int, end as int),
            ),
        decreases end,
    {
        proof {
            assert(src@.subrange(start as int, end as int).drop_last() =~= src@.subrange(
                start as int,
                end as int - 1,
            ));
        }
        end -= 1;
    }
    proof {
        assert(drop_trailing_slashes(src@.subrange(start as int, end as int)) == src@.subrange(
            start as int,
            end as int,
        ));
    }
    if end == start {
        let empty = String::new();
        proof {
            assert(src@.subrange(start as int, end as int) =~= Seq::<char>::empty());
        }
        empty
    } else {
        let core = src.substring_char(start, end);
        let slash = String::from_str("/");
        proof {
            reveal_strlit("/");
            assert(slash@ =~= seq!['/']);
        }
        let out = slash.concat(core);
        proof {
            assert(out@ =~= normalized_prefix(src@));
        }
        out
    }
}

/// Verbosity of process-wide logging, from the number of `-v` occurrences.
#[derive(Clone, Copy, Debug, PartialEq, Eq, Structural)]
pub enum LogLevel {
    Warn,
    Info,
    Debug,
    Trace,
}

/// The log level each verbosity count selects.
pub fn log_level(verbosity: u64) -> (l: LogLevel)
    ensures
        l == (if verbosity == 0 {
            LogLevel::Warn
        } else if verbosity == 1 {
            LogLevel::Info
        } else if verbosity == 2 {
            LogLevel::Debug
        } else {
            LogLevel::Trace
        }),
{
    if verbosity == 0 {
        LogLevel::Warn
    } else if verbosity == 1 {
        LogLevel::Info
    } else if verbosity == 2 {
        LogLevel::Debug
    } else {
        LogLevel::Trace
    }
}

/// The builder process's configuration, read once at startup and passed,
/// immutable, into each component.
#[derive(Clone)]
pub struct Options {
    /// Verbosity level.
    pub verbosity: u64,
    /// URL for the container image registry.
    pub registry: String,
    /// Name of the container image repository.
    pub repository: String,
    /// Pause between scans of the registry, in seconds.
    pub period: u64,
    /// Address on which the server will listen.
    pub address: String,
    /// Port to which the server will bind.
    pub port: u16,
    /// Credentials file for authentication against the image registry.
    pub credentials_path: Option<String>,
    /// Path prefix for all served routes.
    pub path_prefix: String,
    /// Names every client request must supply.
    pub mandatory_client_parameters: Vec<String>,
    /// Whether to skip fetching label metadata from the metadata API.
    pub disable_quay_api_metadata: bool,
    /// Base URL of the metadata API host.
    pub quay_api_base: String,
    /// Filter for receiving metadata labels.
    pub quay_label_filter: String,
    /// Metadata key where the fetcher expects the manifest reference.
    pub quay_manifestref_key: String,
    /// Credentials file for authentication against the metadata API.
    pub quay_api_credentials_path: Option<String>,
}

impl Options {
    /// The documented default of every option.
    pub fn defaults() -> (o: Options)
        ensures
            o.verbosity == 0,
            o.registry@ == "http://localhost:5000"@,
            o.repository@ == "openshift"@,
            o.period == 30,
            o.address@ == "127.0.0.1"@,
            o.port == 8080,
            o.credentials_path is None,
            o.path_prefix@ == Seq::<char>::empty(),
            o.mandatory_client_parameters.deep_view() == Seq::<Seq<char>>::empty(),
            !o.disable_quay_api_metadata,
            o.quay_api_base@ == "https://quay.io/api/v1"@,
            o.quay_label_filter@ == "io.openshift.upgrades.graph"@,
            o.quay_manifestref_key@ == "io.openshift.upgrades.graph.release.manifestref"@,
            o.quay_api_credentials_path is None,
    {
        let mandatory: Vec<String> = Vec::new();
        proof {
            assert(mandatory.deep_view() =~= Seq::<Seq<char>>::empty());
        }
        Options {
            verbosity: 0,
            registry: String::from_str("http://localhost:5000"),
            repository: String::from_str("openshift"),
            period: 30,
            address: String::from_str("127.0.0.1"),
            port: 8080,
            credentials_path: None,
            path_prefix: String::new(),
            mandatory_client_parameters: mandatory,
            disable_quay_api_metadata: false,
            quay_api_base: String::from_str("https://quay.io/api/v1"),
            quay_label_filter: String::from_str("io.openshift.upgrades.graph"),
            quay_manifestref_key: String::from_str("io.openshift.upgrades.graph.release.manifestref"),
            quay_api_credentials_path: None,
        }
    }
}

/// The upstream graph endpoint the policy tier polls when none is
/// configured.
pub fn default_upstream_url() -> (s: String)
    ensures
        s@ == "http://localhost:8080/v1/graph"@,
{
    String::from_str("http://localhost:8080/v1/graph")
}

/// The policy tier's request-time state: what its handlers read on every
/// request, immutable after startup.
pub struct AppState {
    /// Query parameters that must be present in all client requests.
    pub mandatory_params: Vec<String>,
    /// The upstream graph endpoint.
    pub upstream: String,
    /// Path prefix for all served routes.
    pub path_prefix: String,
}

impl Default for AppState {
    /// No mandatory parameters, the default upstream, an empty prefix.
    fn default() -> (s: Self)
        ensures
            s.mandatory_params.deep_view() == Seq::<Seq<char>>::empty(),
            s.upstream@ == "http://localhost:8080/v1/graph"@,
            s.path_prefix@ == Seq::<char>::empty(),
    {
        let mandatory: Vec<String> = Vec::new();
        proof {
            assert(mandatory.deep_view() =~= Seq::<Seq<char>>::empty());
        }
        AppState {
            mandatory_params: mandatory,
            upstream: default_upstream_url(),
            path_prefix: String::new(),
        }
    }
}

} // verus!
