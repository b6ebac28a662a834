//! What the command line can say, as values.
use vstd::prelude::*;
use vstd::std_specs::convert::FromSpecImpl;
use crate::config::VexScope;
use crate::go_run::SandboxPolicy;
use crate::severity::Severity;
use crate::text;

verus! {

/// The exit code where nothing could be scanned.
pub const COULD_NOT_SCAN: u8 = 2;

/// The exit code of a wrong invocation.
pub const WRONG_USAGE: u8 = 3;

/// How reachability is judged.
#[derive(Debug, Clone, Copy, PartialEq, Eq, Structural)]
pub enum ReachMode {
    /// By looking through the source for the names of affected functions; nothing is built.
    Heuristic,
    /// By the call graph of the compiled crates.
    Static,
}

/// Whether a build is confined.
#[derive(Debug, Clone, Copy, PartialEq, Eq, Structural)]
pub enum BuildSandbox {
    /// Where a mechanism is available.
    Auto,
    /// Never.
    Off,
    /// Always, or nothing is built.
    Require,
}

impl FromSpecImpl<BuildSandbox> for SandboxPolicy {
    open spec fn obeys_from_spec() -> bool {
        true
    }

    open spec fn from_spec(b: BuildSandbox) -> SandboxPolicy {
        match b {
            BuildSandbox::Auto => SandboxPolicy::Auto,
            BuildSandbox::Off => SandboxPolicy::Off,
            BuildSandbox::Require => SandboxPolicy::Require,
        }
    }
}

impl From<BuildSandbox> for SandboxPolicy {
    fn from(b: BuildSandbox) -> (r: SandboxPolicy) {
        match b {
            BuildSandbox::Auto => SandboxPolicy::Auto,
            BuildSandbox::Off => SandboxPolicy::Off,
            BuildSandbox::Require => SandboxPolicy::Require,
        }
    }
}

/// The products that a VEX document speaks of.
#[derive(Debug, Clone, Copy, PartialEq, Eq, Structural)]
pub enum VexScopeArg {
    Runtime,
    Build,
}

impl FromSpecImpl<VexScopeArg> for VexScope {
    open spec fn obeys_from_spec() -> bool {
        true
    }

    open spec fn from_spec(s: VexScopeArg) -> VexScope {
        match s {
            VexScopeArg::Runtime => VexScope::Runtime,
            VexScopeArg::Build => VexScope::Build,
        }
    }
}

impl From<VexScopeArg> for VexScope {
    fn from(s: VexScopeArg) -> (r: VexScope) {
        match s {
            VexScopeArg::Runtime => VexScope::Runtime,
            VexScopeArg::Build => VexScope::Build,
        }
    }
}

/// A severity that can be asked for; an unknown one cannot.
#[derive(Debug, Clone, Copy, PartialEq, Eq, Structural)]
pub enum SeverityArg {
    Low,
    Medium,
    High,
    Critical,
}

impl FromSpecImpl<SeverityArg> for Severity {
    open spec fn obeys_from_spec() -> bool {
        true
    }

    open spec fn from_spec(s: SeverityArg) -> Severity {
        match s {
            SeverityArg::Low => Severity::Low,
            SeverityArg::Medium => Severity::Medium,
            SeverityArg::High => Severity::High,
            SeverityArg::Critical => Severity::Critical,
        }
    }
}

impl From<SeverityArg> for Severity {
    fn from(s: SeverityArg) -> (r: Severity) {
        match s {
            SeverityArg::Low => Severity::Low,
            SeverityArg::Medium => Severity::Medium,
            SeverityArg::High => Severity::High,
            SeverityArg::Critical => Severity::Critical,
        }
    }
}

/// How a report is written.
#[derive(Debug, Clone, Copy, PartialEq, Eq, Structural)]
pub enum Format {
    Table,
    Json,
    Sarif,
    Impact,
    Blast,
    Packages,
    PackagesJson,
    FixFirst,
    Remediation,
    RemediationJson,
    Vex,
}

/// What a program reads: JSON of one kind or another.
pub open spec fn for_machines(f: Format) -> bool {
    f == Format::Json || f == Format::Sarif || f == Format::PackagesJson || f
        == Format::RemediationJson || f == Format::Vex
}

/// What a program reads, by its name in messages.
pub open spec fn payload_name(f: Format) -> Option<Seq<char>> {
    match f {
        Format::Json => Some("report"@),
        Format::Sarif => Some("SARIF"@),
        Format::PackagesJson => Some("packages"@),
        Format::RemediationJson => Some("remediation"@),
        Format::Vex => Some("VEX"@),
        _ => None,
    }
}

/// Whether a report is written in color: only what a person reads, and only on a terminal.
pub fn is_colored(f: Format, on_terminal: bool) -> (r: bool)
    ensures
        r == (on_terminal && !for_machines(f)),
{
    match f {
        Format::Json | Format::Sarif | Format::PackagesJson | Format::RemediationJson
        | Format::Vex => false,
        _ => on_terminal,
    }
}

/// Why a report could not be written; only what a program reads can fail.
pub fn render_error(f: Format, reason: &str) -> (r: Option<String>)
    ensures
        r.deep_view() == (match payload_name(f) {
            Some(name) => Some("serializing "@ + name + ": "@ + reason@),
            None => None,
        }),
        r is Some <==> for_machines(f),
{
    let name: &str = match f {
        Format::Json => "report",
        Format::Sarif => "SARIF",
        Format::PackagesJson => "packages",
        Format::RemediationJson => "remediation",
        Format::Vex => "VEX",
        _ => {
            return None;
        },
    };
    let head = text::join("serializing ", name);
    let head = text::join(head.as_str(), ": ");
    Some(text::join(head.as_str(), reason))
}

} // verus!
