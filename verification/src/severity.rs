//! Severity bands.
use vstd::prelude::*;
use crate::value::Plain;

verus! {

/// How bad an advisory is. `Unknown` is the lowest band, but is never treated as harmless.
#[derive(Debug, Clone, Copy, PartialEq, Eq, PartialOrd, Ord, Hash, Structural)]
pub enum Severity {
    Unknown,
    Low,
    Medium,
    High,
    Critical,
}

/// The place of a band in their order.
pub open spec fn severity_rank(s: Severity) -> int {
    match s {
        Severity::Unknown => 0,
        Severity::Low => 1,
        Severity::Medium => 2,
        Severity::High => 3,
        Severity::Critical => 4,
    }
}

/// The worse of two bands.
pub open spec fn worse(a: Severity, b: Severity) -> Severity {
    if severity_rank(a) < severity_rank(b) {
        b
    } else {
        a
    }
}

impl Severity {
    /// The place of the band in their order.
    pub fn rank(self) -> (r: u8)
        ensures
            r == severity_rank(self),
    {
        match self {
            Severity::Unknown => 0,
            Severity::Low => 1,
            Severity::Medium => 2,
            Severity::High => 3,
            Severity::Critical => 4,
        }
    }

    /// The worse of two bands.
    pub fn max_of(self, other: Severity) -> (r: Severity)
        ensures
            r == worse(self, other),
    {
        if self.rank() < other.rank() {
            other
        } else {
            self
        }
    }
}

impl DeepView for Severity {
    type V = Severity;

    open spec fn deep_view(&self) -> Severity {
        *self
    }
}

impl Plain for Severity {
    fn copy(&self) -> (r: Severity) {
        *self
    }

    fn same(&self, other: &Severity) -> (r: bool) {
        *self == *other
    }
}

impl Default for Severity {
    fn default() -> (r: Severity)
        ensures
            r == Severity::Unknown,
    {
        Severity::Unknown
    }
}

/// The bands go from unknown over low, medium and high to critical, and the worse of two is the
/// one that comes later.
pub proof fn critical_is_the_worst(a: Severity, b: Severity)
    ensures
        worse(a, b) == a || worse(a, b) == b,
        worse(a, b) == worse(b, a),
        worse(a, Severity::Critical) == Severity::Critical,
        a != Severity::Critical ==> worse(a, Severity::High) == Severity::High,
        a == Severity::Low || a == Severity::Unknown ==> worse(a, Severity::Medium)
            == Severity::Medium,
        worse(Severity::Unknown, a) == a,
        severity_rank(a) <= severity_rank(b) <==> worse(a, b) == b,
{
}

} // verus!
