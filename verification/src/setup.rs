//! Decisions taken while the telemetry is set up.
use vstd::prelude::*;
use crate::text::same_text;

verus! {

/// The error tracker's name for a deployment environment: `test` is reported
/// as `testing` and `prod` as `production`; any other name is not reported.
pub fn sentry_environment(name: &str) -> (label: Option<&'static str>)
    ensures
        name@ == "test"@ ==> (label matches Some(l) && l@ == "testing"@),
        name@ == "prod"@ ==> (label matches Some(l) && l@ == "production"@),
        name@ != "test"@ && name@ != "prod"@ ==> label is None,
{
    proof {
        reveal_strlit("test");
        reveal_strlit("prod");
        assert("test"@[0] != "prod"@[0]);
    }
    if same_text(name, "test") {
        Some("testing")
    } else if same_text(name, "prod") {
        Some("production")
    } else {
        None
    }
}

#[verifier::external_type_specification]
#[verifier::external_body]
pub struct DeclaredDsn(sentry::types::Dsn);

/// Whether `sentry_types::Dsn::from_str` accepts the text as a DSN: a URL with
/// the scheme `http` or `https`, a user name as public key, a host, and a path
/// other than `/` whose last segment (the project id) is not empty.
pub uninterp spec fn dsn_accepted(text: Seq<char>) -> bool;

/// Calls `<sentry_types::Dsn as FromStr>::from_str`; it succeeds exactly on the
/// texts it accepts. Which DSN it builds is left unsaid: `Dsn` is opaque here.
#[verifier::external_body]
fn parse_dsn(text: &str) -> (r: Option<sentry::types::Dsn>)
    ensures
        r is Some <==> dsn_accepted(text@),
{
    match text.parse::<sentry::types::Dsn>() {
        Ok(dsn) => Some(dsn),
        Err(_) => None,
    }
}

/// The DSN of the error tracker from the value of its environment variable: none
/// when the variable is not set, or when its value is no valid DSN.
pub fn sentry_dsn(value: Option<String>) -> (r: Option<sentry::types::Dsn>)
    ensures
        value is None ==> r is None,
        value matches Some(v) ==> (r is Some <==> dsn_accepted(v@)),
{
    match value {
        Some(v) => parse_dsn(v.as_str()),
        None => None,
    }
}

/// The most detailed level of spans that go to the telemetry exporter.
#[derive(Debug, PartialEq, Eq, Structural, Clone, Copy)]
pub enum TelemetryLevel {
    /// Nothing is exported.
    Off,
    /// Spans at level `INFO` and above are exported.
    Info,
}

/// Export is switched off when the SDK is disabled, else spans from `INFO` up go out.
pub fn telemetry_level(sdk_disabled: bool) -> (level: TelemetryLevel)
    ensures
        level == (if sdk_disabled {
            TelemetryLevel::Off
        } else {
            TelemetryLevel::Info
        }),
{
    if sdk_disabled {
        TelemetryLevel::Off
    } else {
        TelemetryLevel::Info
    }
}

} // verus!
