//! How the scan of one repository ended.
use vstd::prelude::*;
use crate::finding::RepoId;
use crate::value::Plain;

verus! {

/// What a [`ScanStatus`] stands for.
#[verifier::ext_equal]
pub enum ScanStatusM {
    Scanned {
        vulns: usize,
        warnings: usize,
    },
    Errored {
        reason: Seq<char>,
    },
}

/// How a scan ended.
#[derive(Debug, PartialEq)]
pub enum ScanStatus {
    /// The repository was read.
    Scanned {
        vulns: usize,
        warnings: usize,
    },
    /// The repository could not be read: a gap, never a clean result.
    Errored {
        reason: String,
    },
}

impl DeepView for ScanStatus {
    type V = ScanStatusM;

    open spec fn deep_view(&self) -> ScanStatusM {
        match self {
            ScanStatus::Scanned { vulns, warnings } => ScanStatusM::Scanned {
                vulns: *vulns,
                warnings: *warnings,
            },
            ScanStatus::Errored { reason } => ScanStatusM::Errored {
                reason: reason@,
            },
        }
    }
}

impl Plain for ScanStatus {
    fn copy(&self) -> (r: ScanStatus) {
        match self {
            ScanStatus::Scanned { vulns, warnings } => ScanStatus::Scanned {
                vulns: *vulns,
                warnings: *warnings,
            },
            ScanStatus::Errored { reason } => ScanStatus::Errored {
                reason: reason.clone(),
            },
        }
    }

    fn same(&self, other: &ScanStatus) -> (r: bool) {
        match self {
            ScanStatus::Scanned { vulns, warnings } => match other {
                ScanStatus::Scanned { vulns: other_vulns, warnings: other_warnings } => *vulns == *other_vulns
                    && *warnings == *other_warnings,
                _ => false,
            },
            ScanStatus::Errored { reason } => match other {
                ScanStatus::Errored { reason: other_reason } => *reason == *other_reason,
                _ => false,
            },
        }
    }
}

impl Clone for ScanStatus {
    fn clone(&self) -> (r: ScanStatus)
        ensures
            r.deep_view() == self.deep_view(),
    {
        self.copy()
    }
}

/// What a [`RepoOutcome`] stands for.
#[verifier::ext_equal]
pub struct RepoOutcomeM {
    pub repo: Seq<char>,
    pub status: ScanStatusM,
}

/// How the scan of one repository ended.
#[derive(Debug, PartialEq)]
pub struct RepoOutcome {
    pub repo: RepoId,
    pub status: ScanStatus,
}

impl DeepView for RepoOutcome {
    type V = RepoOutcomeM;

    open spec fn deep_view(&self) -> RepoOutcomeM {
        RepoOutcomeM {
            repo: self.repo.deep_view(),
            status: self.status.deep_view(),
        }
    }
}

impl Plain for RepoOutcome {
    fn copy(&self) -> (r: RepoOutcome) {
        RepoOutcome {
            repo: self.repo.copy(),
            status: self.status.copy(),
        }
    }

    fn same(&self, other: &RepoOutcome) -> (r: bool) {
        self.repo.same(&other.repo)
            && self.status.same(&other.status)
    }
}

impl Clone for RepoOutcome {
    fn clone(&self) -> (r: RepoOutcome)
        ensures
            r.deep_view() == self.deep_view(),
    {
        self.copy()
    }
}

} // verus!
