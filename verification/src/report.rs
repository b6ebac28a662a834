//! The report of a fleet scan.
use vstd::prelude::*;
use crate::finding::{VulnFinding, VulnFindingM, WarnFinding, WarnFindingM};
use crate::outcome::{RepoOutcome, RepoOutcomeM};
use crate::severity;
use crate::severity::Severity;
use crate::value::Plain;

verus! {

pub const SCHEMA_VERSION: u32 = 1;

/// What a [`Provenance`] stands for.
#[verifier::ext_equal]
pub struct ProvenanceM {
    pub tool_version: Seq<char>,
    pub rustsec_crate_version: Seq<char>,
    pub db_commit: Option<Seq<char>>,
    pub db_timestamp: Option<Seq<char>>,
    pub host_os: Seq<char>,
    pub host_arch: Seq<char>,
    pub generated_at: Seq<char>,
}

/// What produced a report, from which data.
#[derive(Debug, PartialEq)]
pub struct Provenance {
    pub tool_version: String,
    pub rustsec_crate_version: String,
    pub db_commit: Option<String>,
    pub db_timestamp: Option<String>,
    pub host_os: String,
    pub host_arch: String,
    pub generated_at: String,
}

impl DeepView for Provenance {
    type V = ProvenanceM;

    open spec fn deep_view(&self) -> ProvenanceM {
        ProvenanceM {
            tool_version: self.tool_version@,
            rustsec_crate_version: self.rustsec_crate_version@,
            db_commit: self.db_commit.deep_view(),
            db_timestamp: self.db_timestamp.deep_view(),
            host_os: self.host_os@,
            host_arch: self.host_arch@,
            generated_at: self.generated_at@,
        }
    }
}

impl Plain for Provenance {
    fn copy(&self) -> (r: Provenance) {
        Provenance {
            tool_version: self.tool_version.clone(),
            rustsec_crate_version: self.rustsec_crate_version.clone(),
            db_commit: self.db_commit.copy(),
            db_timestamp: self.db_timestamp.copy(),
            host_os: self.host_os.clone(),
            host_arch: self.host_arch.clone(),
            generated_at: self.generated_at.clone(),
        }
    }

    fn same(&self, other: &Provenance) -> (r: bool) {
        self.tool_version == other.tool_version
            && self.rustsec_crate_version == other.rustsec_crate_version
            && self.db_commit.same(&other.db_commit)
            && self.db_timestamp.same(&other.db_timestamp)
            && self.host_os == other.host_os
            && self.host_arch == other.host_arch
            && self.generated_at == other.generated_at
    }
}

impl Clone for Provenance {
    fn clone(&self) -> (r: Provenance)
        ensures
            r.deep_view() == self.deep_view(),
    {
        self.copy()
    }
}

/// What a [`Summary`] stands for.
#[verifier::ext_equal]
pub struct SummaryM {
    pub repos_scanned: usize,
    pub repos_errored: usize,
    pub vuln_count: usize,
    pub warn_count: usize,
    pub max_severity: Severity,
    pub stale_ignores: Seq<Seq<char>>,
}

/// The counts of a report.
#[derive(Debug, PartialEq)]
pub struct Summary {
    pub repos_scanned: usize,
    pub repos_errored: usize,
    pub vuln_count: usize,
    pub warn_count: usize,
    pub max_severity: Severity,
    pub stale_ignores: Vec<String>,
}

impl DeepView for Summary {
    type V = SummaryM;

    open spec fn deep_view(&self) -> SummaryM {
        SummaryM {
            repos_scanned: self.repos_scanned,
            repos_errored: self.repos_errored,
            vuln_count: self.vuln_count,
            warn_count: self.warn_count,
            max_severity: self.max_severity,
            stale_ignores: self.stale_ignores.deep_view(),
        }
    }
}

impl Plain for Summary {
    fn copy(&self) -> (r: Summary) {
        Summary {
            repos_scanned: self.repos_scanned,
            repos_errored: self.repos_errored,
            vuln_count: self.vuln_count,
            warn_count: self.warn_count,
            max_severity: self.max_severity,
            stale_ignores: self.stale_ignores.copy(),
        }
    }

    fn same(&self, other: &Summary) -> (r: bool) {
        self.repos_scanned == other.repos_scanned
            && self.repos_errored == other.repos_errored
            && self.vuln_count == other.vuln_count
            && self.warn_count == other.warn_count
            && self.max_severity == other.max_severity
            && self.stale_ignores.same(&other.stale_ignores)
    }
}

impl Clone for Summary {
    fn clone(&self) -> (r: Summary)
        ensures
            r.deep_view() == self.deep_view(),
    {
        self.copy()
    }
}

/// What a [`FleetReport`] stands for.
#[verifier::ext_equal]
pub struct FleetReportM {
    pub schema_version: u32,
    pub provenance: ProvenanceM,
    pub summary: SummaryM,
    pub vulnerabilities: Seq<VulnFindingM>,
    pub warnings: Seq<WarnFindingM>,
    pub outcomes: Seq<RepoOutcomeM>,
}

/// The report of a fleet scan.
#[derive(Debug, PartialEq)]
pub struct FleetReport {
    pub schema_version: u32,
    pub provenance: Provenance,
    pub summary: Summary,
    pub vulnerabilities: Vec<VulnFinding>,
    pub warnings: Vec<WarnFinding>,
    pub outcomes: Vec<RepoOutcome>,
}

impl DeepView for FleetReport {
    type V = FleetReportM;

    open spec fn deep_view(&self) -> FleetReportM {
        FleetReportM {
            schema_version: self.schema_version,
            provenance: self.provenance.deep_view(),
            summary: self.summary.deep_view(),
            vulnerabilities: self.vulnerabilities.deep_view(),
            warnings: self.warnings.deep_view(),
            outcomes: self.outcomes.deep_view(),
        }
    }
}

impl Plain for FleetReport {
    fn copy(&self) -> (r: FleetReport) {
        FleetReport {
            schema_version: self.schema_version,
            provenance: self.provenance.copy(),
            summary: self.summary.copy(),
            vulnerabilities: self.vulnerabilities.copy(),
            warnings: self.warnings.copy(),
            outcomes: self.outcomes.copy(),
        }
    }

    fn same(&self, other: &FleetReport) -> (r: bool) {
        self.schema_version == other.schema_version
            && self.provenance.same(&other.provenance)
            && self.summary.same(&other.summary)
            && self.vulnerabilities.same(&other.vulnerabilities)
            && self.warnings.same(&other.warnings)
            && self.outcomes.same(&other.outcomes)
    }
}

impl Clone for FleetReport {
    fn clone(&self) -> (r: FleetReport)
        ensures
            r.deep_view() == self.deep_view(),
    {
        self.copy()
    }
}

/// The highest severity, `Unknown` where there is none.
pub open spec fn max_severity_m(vulns: Seq<VulnFindingM>) -> Severity
    decreases vulns.len(),
{
    if vulns.len() == 0 {
        Severity::Unknown
    } else {
        severity::worse(max_severity_m(vulns.drop_last()), vulns.last().severity)
    }
}

/// Nothing in the list is worse than the highest severity, and something has it.
pub proof fn max_severity_is_highest(vulns: Seq<VulnFindingM>)
    ensures
        forall|i: int|
            0 <= i < vulns.len() ==> severity::severity_rank(#[trigger] vulns[i].severity)
                <= severity::severity_rank(max_severity_m(vulns)),
        vulns.len() > 0 ==> exists|i: int|
            0 <= i < vulns.len() && #[trigger] vulns[i].severity == max_severity_m(vulns),
    decreases vulns.len(),
{
    if vulns.len() > 0 {
        let l = vulns.drop_last();
        max_severity_is_highest(l);
        assert forall|i: int| 0 <= i < vulns.len() implies severity::severity_rank(
            #[trigger] vulns[i].severity,
        ) <= severity::severity_rank(max_severity_m(vulns)) by {
            if i < l.len() {
                assert(l[i] == vulns[i]);
            }
        }
        if max_severity_m(vulns) == vulns.last().severity {
            assert(vulns[vulns.len() - 1].severity == max_severity_m(vulns));
        } else {
            assert(l.len() > 0);
            let i = choose|i: int|
                0 <= i < l.len() && #[trigger] l[i].severity == max_severity_m(l);
            assert(vulns[i].severity == max_severity_m(vulns));
        }
    }
}

/// The highest severity in `vulns`.
pub fn max_severity_of(vulns: &Vec<VulnFinding>) -> (r: Severity)
    ensures
        r == max_severity_m(vulns.deep_view()),
{
    let mut r: Severity = Severity::Unknown;
    let mut i: usize = 0;
    assert(vulns.deep_view().take(0) =~= Seq::<VulnFindingM>::empty());
    while i < vulns.len()
        invariant
            i <= vulns.len(),
            r == max_severity_m(vulns.deep_view().take(i as int)),
        decreases vulns.len() - i,
    {
        r = r.max_of(vulns[i].severity);
        i += 1;
        assert(vulns.deep_view().take(i as int).drop_last() =~= vulns.deep_view().take(i - 1));
    }
    assert(vulns.deep_view().take(i as int) =~= vulns.deep_view());
    r
}

/// `report` with the counts that follow from its findings.
pub open spec fn refreshed(report: FleetReportM) -> FleetReportM {
    FleetReportM {
        summary: SummaryM {
            vuln_count: report.vulnerabilities.len() as usize,
            warn_count: report.warnings.len() as usize,
            max_severity: max_severity_m(report.vulnerabilities),
            ..report.summary
        },
        ..report
    }
}

impl FleetReport {
    /// Recomputes the counts that follow from the findings.
    pub fn refresh_summary(&mut self)
        ensures
            final(self).deep_view() == refreshed(old(self).deep_view()),
    {
        self.summary.vuln_count = self.vulnerabilities.len();
        self.summary.warn_count = self.warnings.len();
        self.summary.max_severity = max_severity_of(&self.vulnerabilities);
    }
}

/// Refreshing changes the counts of findings and the highest severity and nothing else, and they
/// are those of the findings.
pub proof fn refreshing_counts_anew(r: FleetReportM)
    ensures
        refreshed(r).vulnerabilities == r.vulnerabilities,
        refreshed(r).warnings == r.warnings,
        refreshed(r).outcomes == r.outcomes,
        refreshed(r).provenance == r.provenance,
        refreshed(r).summary.repos_scanned == r.summary.repos_scanned,
        refreshed(r).summary.repos_errored == r.summary.repos_errored,
        r.vulnerabilities.len() <= usize::MAX ==> refreshed(r).summary.vuln_count
            == r.vulnerabilities.len(),
        r.warnings.len() <= usize::MAX ==> refreshed(r).summary.warn_count == r.warnings.len(),
        r.vulnerabilities.len() == 0 ==> refreshed(r).summary.max_severity == Severity::Unknown,
        (exists|i: int|
            0 <= i < r.vulnerabilities.len() && (#[trigger] r.vulnerabilities[i]).severity
                == Severity::Critical) ==> refreshed(r).summary.max_severity == Severity::Critical,
        r.vulnerabilities.len() > 0 ==> exists|i: int|
            0 <= i < r.vulnerabilities.len() && (#[trigger] r.vulnerabilities[i]).severity
                == refreshed(r).summary.max_severity,
{
    max_severity_is_highest(r.vulnerabilities);
    if r.vulnerabilities.len() > 0 {
        let i = choose|i: int|
            0 <= i < r.vulnerabilities.len() && #[trigger] r.vulnerabilities[i].severity
                == max_severity_m(r.vulnerabilities);
        assert(r.vulnerabilities[i].severity == refreshed(r).summary.max_severity);
    }
}

} // verus!
