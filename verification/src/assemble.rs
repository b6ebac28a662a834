//! From the findings of a scan to the report and its exit code.
use vstd::prelude::*;
use crate::config::{Ignore, IgnoreM, VexAssertion, VexAssertionM};
use crate::correlate;
use crate::correlate::Correlated;
use crate::finding::{
    Occurrence, OccurrenceM, RepoId, VulnFinding, VulnFindingM, WarnFinding, WarnFindingM,
};
use crate::orchestrate::{ScanData, ScanDataM};
use crate::outcome::{RepoOutcome, RepoOutcomeM, ScanStatus};
use crate::report;
use crate::report::{FleetReport, FleetReportM, Provenance, ProvenanceM, Summary, SummaryM};
use crate::score;
use crate::score::Score;
use crate::severity;
use crate::severity::Severity;
use crate::value;
use crate::value::Plain;

verus! {

// --- Filters on a report ---

/// An occurrence that is known not to be built.
pub open spec fn phantom(o: OccurrenceM) -> bool {
    match o {
        OccurrenceM::InRepo { active, .. } => active == Some(false),
        OccurrenceM::Toolchain { .. } => false,
    }
}

pub open spec fn is_live() -> spec_fn(OccurrenceM) -> bool {
    |o: OccurrenceM| !phantom(o)
}

pub open spec fn live_vuln(v: VulnFindingM) -> VulnFindingM {
    VulnFindingM { occurrences: v.occurrences.filter(is_live()), ..v }
}

pub open spec fn live_warn(w: WarnFindingM) -> WarnFindingM {
    WarnFindingM { occurrences: w.occurrences.filter(is_live()), ..w }
}

pub open spec fn live_vulns(s: Seq<VulnFindingM>) -> Seq<VulnFindingM>
    decreases s.len(),
{
    if s.len() == 0 {
        s
    } else {
        let front = live_vulns(s.drop_last());
        if live_vuln(s.last()).occurrences.len() == 0 {
            front
        } else {
            front.push(live_vuln(s.last()))
        }
    }
}

pub open spec fn live_warns(s: Seq<WarnFindingM>) -> Seq<WarnFindingM>
    decreases s.len(),
{
    if s.len() == 0 {
        s
    } else {
        let front = live_warns(s.drop_last());
        if live_warn(s.last()).occurrences.len() == 0 {
            front
        } else {
            front.push(live_warn(s.last()))
        }
    }
}

/// A report without the occurrences that are known not to be built, and without the findings
/// that only had such.
pub open spec fn without_phantoms(r: FleetReportM) -> FleetReportM {
    report::refreshed(
        FleetReportM {
            vulnerabilities: live_vulns(r.vulnerabilities),
            warnings: live_warns(r.warnings),
            ..r
        },
    )
}

fn keep_live(v: Vec<Occurrence>) -> (out: Vec<Occurrence>)
    ensures
        out.deep_view() == v.deep_view().filter(is_live()),
{
    let ghost all = v.deep_view();
    let mut out: Vec<Occurrence> = Vec::new();
    let ghost mut n: int = 0;
    proof {
        reveal(Seq::filter);
        assert(all.take(0) =~= Seq::empty());
        assert(out.deep_view() =~= all.take(0).filter(is_live()));
    }
    for o in it: v
        invariant
            it.seq() == v@,
            all == v.deep_view(),
            n == it.index(),
            n <= all.len(),
            out.deep_view() == all.take(n).filter(is_live()),
    {
        proof {
            assert(all.take(n + 1) =~= all.take(n).push(o.deep_view()));
            all.take(n).lemma_filter_push(o.deep_view(), is_live());
        }
        let dead: bool = match &o {
            Occurrence::InRepo { active, .. } => match active {
                Some(b) => !*b,
                None => false,
            },
            Occurrence::Toolchain { .. } => false,
        };
        if !dead {
            let ghost before = out.deep_view();
            out.push(o);
            assert(out.deep_view() =~= before.push(o.deep_view()));
        }
        proof {
            n = n + 1;
        }
    }
    assert(all.take(n) =~= all);
    out
}

/// Drops the occurrences that are known not to be built, and the findings left with none.
/// Gives how many findings were dropped. Occurrences whose build status is not known stay.
pub fn drop_phantom(report: &mut FleetReport) -> (removed: usize)
    requires
        old(report).vulnerabilities.len() + old(report).warnings.len() <= usize::MAX,
    ensures
        final(report).deep_view() == without_phantoms(old(report).deep_view()),
        removed == old(report).deep_view().vulnerabilities.len() + old(
            report,
        ).deep_view().warnings.len() - live_vulns(old(report).deep_view().vulnerabilities).len()
            - live_warns(old(report).deep_view().warnings).len(),
{
    let ghost vs = report.vulnerabilities.deep_view();
    let ghost ws = report.warnings.deep_view();
    let mut vulns: Vec<VulnFinding> = Vec::new();
    std::mem::swap(&mut vulns, &mut report.vulnerabilities);
    let mut warns: Vec<WarnFinding> = Vec::new();
    std::mem::swap(&mut warns, &mut report.warnings);
    let total_vulns: usize = vulns.len();
    let total_warns: usize = warns.len();
    assert(vs.len() == total_vulns && ws.len() == total_warns);
    let mut kept_vulns: Vec<VulnFinding> = Vec::new();
    let ghost mut n: int = 0;
    proof {
        assert(vs.take(0) =~= Seq::empty());
        assert(ws.take(0) =~= Seq::empty());
        assert(kept_vulns.deep_view() =~= Seq::empty());
    }
    for v in it: vulns
        invariant
            it.seq() == vulns@,
            vs == vulns.deep_view(),
            n == it.index(),
            n <= vs.len(),
            kept_vulns.len() <= n,
            kept_vulns.deep_view() == live_vulns(vs.take(n)),
    {
        proof {
            assert(vs.take(n + 1).drop_last() =~= vs.take(n));
            assert(vs.take(n + 1).last() == v.deep_view());
        }
        let mut v = v;
        let ghost whole = v.deep_view();
        let mut occurrences: Vec<Occurrence> = Vec::new();
        std::mem::swap(&mut occurrences, &mut v.occurrences);
        v.occurrences = keep_live(occurrences);
        proof {
            assert(v.deep_view() == live_vuln(whole));
            assert(v.occurrences.deep_view().len() == v.occurrences.len());
        }
        if v.occurrences.len() > 0 {
            let ghost before = kept_vulns.deep_view();
            kept_vulns.push(v);
            assert(kept_vulns.deep_view() =~= before.push(v.deep_view()));
        }
        proof {
            n = n + 1;
        }
    }
    let mut kept_warns: Vec<WarnFinding> = Vec::new();
    let ghost mut m: int = 0;
    proof {
        assert(vs.take(n) =~= vs);
        assert(kept_warns.deep_view() =~= Seq::empty());
    }
    for w in it: warns
        invariant
            it.seq() == warns@,
            ws == warns.deep_view(),
            m == it.index(),
            m <= ws.len(),
            kept_warns.len() <= m,
            kept_warns.deep_view() == live_warns(ws.take(m)),
    {
        proof {
            assert(ws.take(m + 1).drop_last() =~= ws.take(m));
            assert(ws.take(m + 1).last() == w.deep_view());
        }
        let mut w = w;
        let ghost whole = w.deep_view();
        let mut occurrences: Vec<Occurrence> = Vec::new();
        std::mem::swap(&mut occurrences, &mut w.occurrences);
        w.occurrences = keep_live(occurrences);
        proof {
            assert(w.deep_view() == live_warn(whole));
            assert(w.occurrences.deep_view().len() == w.occurrences.len());
        }
        if w.occurrences.len() > 0 {
            let ghost before = kept_warns.deep_view();
            kept_warns.push(w);
            assert(kept_warns.deep_view() =~= before.push(w.deep_view()));
        }
        proof {
            m = m + 1;
        }
    }
    proof {
        assert(ws.take(m) =~= ws);
        assert(kept_vulns.deep_view().len() == kept_vulns.len());
        assert(kept_warns.deep_view().len() == kept_warns.len());
    }
    let removed: usize = (total_vulns - kept_vulns.len()) + (total_warns - kept_warns.len());
    report.vulnerabilities = kept_vulns;
    report.warnings = kept_warns;
    report.refresh_summary();
    removed
}

pub open spec fn may_be_reachable() -> spec_fn(VulnFindingM) -> bool {
    |v: VulnFindingM| v.reachable != Some(false)
}

/// A report with only the vulnerabilities that satisfy `p`.
pub open spec fn retained(r: FleetReportM, p: spec_fn(VulnFindingM) -> bool) -> FleetReportM {
    report::refreshed(FleetReportM { vulnerabilities: r.vulnerabilities.filter(p), ..r })
}

/// Drops the vulnerabilities whose code was not found in the source; those that were found or
/// are not known stay. Gives how many were dropped.
pub fn retain_reachable(report: &mut FleetReport) -> (removed: usize)
    ensures
        final(report).deep_view() == retained(old(report).deep_view(), may_be_reachable()),
        removed == old(report).deep_view().vulnerabilities.len() - old(
            report,
        ).deep_view().vulnerabilities.filter(may_be_reachable()).len(),
{
    let ghost all = report.vulnerabilities.deep_view();
    let mut vulns: Vec<VulnFinding> = Vec::new();
    std::mem::swap(&mut vulns, &mut report.vulnerabilities);
    let total: usize = vulns.len();
    let mut kept: Vec<VulnFinding> = Vec::new();
    let ghost mut n: int = 0;
    proof {
        reveal(Seq::filter);
        assert(all.len() == total);
        assert(all.take(0) =~= Seq::empty());
        assert(kept.deep_view() =~= all.take(0).filter(may_be_reachable()));
    }
    for v in it: vulns
        invariant
            it.seq() == vulns@,
            all == vulns.deep_view(),
            n == it.index(),
            n <= all.len(),
            kept.len() <= n,
            kept.deep_view() == all.take(n).filter(may_be_reachable()),
    {
        proof {
            assert(all.take(n + 1) =~= all.take(n).push(v.deep_view()));
            all.take(n).lemma_filter_push(v.deep_view(), may_be_reachable());
        }
        let keep: bool = match v.reachable {
            Some(b) => b,
            None => true,
        };
        if keep {
            let ghost before = kept.deep_view();
            kept.push(v);
            assert(kept.deep_view() =~= before.push(v.deep_view()));
        }
        proof {
            n = n + 1;
        }
    }
    proof {
        assert(all.take(n) =~= all);
        assert(kept.deep_view().len() == kept.len());
    }
    let removed: usize = total - kept.len();
    report.vulnerabilities = kept;
    report.refresh_summary();
    removed
}

/// At least as likely to be exploited as `min`, or not known.
pub open spec fn likely(min: Score) -> spec_fn(VulnFindingM) -> bool {
    |v: VulnFindingM|
        match v.exploit.epss {
            Some(e) => score::at_least(e, min),
            None => true,
        }
}

/// The advisories that are not that likely, each with its probability: exactly what is not kept.
pub open spec fn unlikely(s: Seq<VulnFindingM>, min: Score) -> Seq<(Seq<char>, Score)>
    decreases s.len(),
{
    if s.len() == 0 {
        Seq::empty()
    } else {
        let front = unlikely(s.drop_last(), min);
        match s.last().exploit.epss {
            Some(e) => if likely(min)(s.last()) {
                front
            } else {
                front.push((s.last().advisory_id, e))
            },
            None => front,
        }
    }
}

/// Keeps the vulnerabilities whose probability of exploitation is at least `min` or not
/// known. Gives those that were dropped.
pub fn retain_min_epss(report: &mut FleetReport, min: Score) -> (dropped: Vec<(String, Score)>)
    ensures
        final(report).deep_view() == retained(old(report).deep_view(), likely(min)),
        dropped.deep_view() == unlikely(old(report).deep_view().vulnerabilities, min),
{
    let ghost all = report.vulnerabilities.deep_view();
    let mut vulns: Vec<VulnFinding> = Vec::new();
    std::mem::swap(&mut vulns, &mut report.vulnerabilities);
    let mut kept: Vec<VulnFinding> = Vec::new();
    let mut dropped: Vec<(String, Score)> = Vec::new();
    let ghost mut n: int = 0;
    proof {
        reveal(Seq::filter);
        assert(all.take(0) =~= Seq::empty());
        assert(kept.deep_view() =~= all.take(0).filter(likely(min)));
        assert(dropped.deep_view() =~= Seq::empty());
    }
    for v in it: vulns
        invariant
            it.seq() == vulns@,
            all == vulns.deep_view(),
            n == it.index(),
            n <= all.len(),
            kept.deep_view() == all.take(n).filter(likely(min)),
            dropped.deep_view() == unlikely(all.take(n), min),
    {
        proof {
            assert(all.take(n + 1) =~= all.take(n).push(v.deep_view()));
            assert(all.take(n + 1).drop_last() =~= all.take(n));
            all.take(n).lemma_filter_push(v.deep_view(), likely(min));
        }
        let mut keep: bool = true;
        if let Some(e) = v.exploit.epss {
            keep = e.at_least(min);
            if !keep {
                let ghost before = dropped.deep_view();
                let pair = (v.advisory_id.clone(), e);
                dropped.push(pair);
                assert(dropped.deep_view() =~= before.push(pair.deep_view()));
            }
        }
        if keep {
            let ghost before = kept.deep_view();
            kept.push(v);
            assert(kept.deep_view() =~= before.push(v.deep_view()));
        }
        proof {
            n = n + 1;
        }
    }
    assert(all.take(n) =~= all);
    report.vulnerabilities = kept;
    report.refresh_summary();
    dropped
}

/// Every vulnerability is either kept or given back with its probability: nothing is dropped
/// without a word.
pub proof fn what_is_dropped_is_given_back(s: Seq<VulnFindingM>, min: Score)
    ensures
        s.filter(likely(min)).len() + unlikely(s, min).len() == s.len(),
        forall|i: int|
            0 <= i < s.len() ==> (if likely(min)(#[trigger] s[i]) {
                s.filter(likely(min)).contains(s[i])
            } else {
                s[i].exploit.epss is Some && unlikely(s, min).contains(
                    (s[i].advisory_id, s[i].exploit.epss->0),
                )
            }),
    decreases s.len(),
{
    reveal(Seq::filter);
    if s.len() > 0 {
        let front = s.drop_last();
        what_is_dropped_is_given_back(front, min);
        let kept = front.filter(likely(min));
        let gone = unlikely(front, min);
        let pair = (s.last().advisory_id, s.last().exploit.epss->0);
        assert(kept.push(s.last())[kept.len() as int] == s.last());
        assert(gone.push(pair)[gone.len() as int] == pair);
        assert forall|i: int| 0 <= i < s.len() implies (if likely(min)(#[trigger] s[i]) {
            s.filter(likely(min)).contains(s[i])
        } else {
            s[i].exploit.epss is Some && unlikely(s, min).contains(
                (s[i].advisory_id, s[i].exploit.epss->0),
            )
        }) by {
            if i < front.len() {
                assert(front[i] == s[i]);
                if likely(min)(s[i]) {
                    let k = choose|k: int| 0 <= k < kept.len() && kept[k] == s[i];
                    assert(s.filter(likely(min))[k] == s[i]);
                } else {
                    let p = (s[i].advisory_id, s[i].exploit.epss->0);
                    let k = choose|k: int| 0 <= k < gone.len() && gone[k] == p;
                    assert(unlikely(s, min)[k] == p);
                }
            }
        }
    }
}

pub open spec fn is_new_vuln(ids: Seq<Seq<char>>) -> spec_fn(VulnFindingM) -> bool {
    |v: VulnFindingM| !ids.contains(v.advisory_id)
}

pub open spec fn is_new_warn(ids: Seq<Seq<char>>) -> spec_fn(WarnFindingM) -> bool {
    |w: WarnFindingM|
        match w.advisory_id {
            Some(id) => !ids.contains(id),
            None => true,
        }
}

/// A report with only what is not in the baseline.
pub open spec fn new_since(r: FleetReportM, ids: Seq<Seq<char>>) -> FleetReportM {
    report::refreshed(
        FleetReportM {
            vulnerabilities: r.vulnerabilities.filter(is_new_vuln(ids)),
            warnings: r.warnings.filter(is_new_warn(ids)),
            ..r
        },
    )
}

/// Keeps what is not in the baseline; warnings without an advisory stay.
pub fn retain_new(report: &mut FleetReport, baseline_ids: &Vec<String>)
    ensures
        final(report).deep_view() == new_since(old(report).deep_view(), baseline_ids.deep_view()),
{
    let ghost ids = baseline_ids.deep_view();
    let ghost vs = report.vulnerabilities.deep_view();
    let ghost ws = report.warnings.deep_view();
    let mut vulns: Vec<VulnFinding> = Vec::new();
    std::mem::swap(&mut vulns, &mut report.vulnerabilities);
    let mut warns: Vec<WarnFinding> = Vec::new();
    std::mem::swap(&mut warns, &mut report.warnings);
    let mut kept_vulns: Vec<VulnFinding> = Vec::new();
    let ghost mut n: int = 0;
    proof {
        reveal(Seq::filter);
        assert(vs.take(0) =~= Seq::empty());
        assert(ws.take(0) =~= Seq::empty());
        assert(kept_vulns.deep_view() =~= vs.take(0).filter(is_new_vuln(ids)));
    }
    for v in it: vulns
        invariant
            it.seq() == vulns@,
            vs == vulns.deep_view(),
            ids == baseline_ids.deep_view(),
            n == it.index(),
            n <= vs.len(),
            kept_vulns.deep_view() == vs.take(n).filter(is_new_vuln(ids)),
    {
        proof {
            assert(vs.take(n + 1) =~= vs.take(n).push(v.deep_view()));
            vs.take(n).lemma_filter_push(v.deep_view(), is_new_vuln(ids));
        }
        if !value::holds(baseline_ids, &v.advisory_id) {
            let ghost before = kept_vulns.deep_view();
            kept_vulns.push(v);
            assert(kept_vulns.deep_view() =~= before.push(v.deep_view()));
        }
        proof {
            n = n + 1;
        }
    }
    let mut kept_warns: Vec<WarnFinding> = Vec::new();
    let ghost mut m: int = 0;
    proof {
        reveal(Seq::filter);
        assert(vs.take(n) =~= vs);
        assert(kept_warns.deep_view() =~= ws.take(0).filter(is_new_warn(ids)));
    }
    for w in it: warns
        invariant
            it.seq() == warns@,
            ws == warns.deep_view(),
            ids == baseline_ids.deep_view(),
            m == it.index(),
            m <= ws.len(),
            kept_warns.deep_view() == ws.take(m).filter(is_new_warn(ids)),
    {
        proof {
            assert(ws.take(m + 1) =~= ws.take(m).push(w.deep_view()));
            ws.take(m).lemma_filter_push(w.deep_view(), is_new_warn(ids));
        }
        let known: bool = match &w.advisory_id {
            Some(id) => value::holds(baseline_ids, id),
            None => false,
        };
        if !known {
            let ghost before = kept_warns.deep_view();
            kept_warns.push(w);
            assert(kept_warns.deep_view() =~= before.push(w.deep_view()));
        }
        proof {
            m = m + 1;
        }
    }
    assert(ws.take(m) =~= ws);
    report.vulnerabilities = kept_vulns;
    report.warnings = kept_warns;
    report.refresh_summary();
}

/// The exit code once it is known whether something is new since the baseline: an
/// untrustworthy result stays one, and something new raises the code to at least `1`.
pub fn combine_baseline(code: u8, baseline_new: bool) -> (r: u8)
    ensures
        code == 2 ==> r == 2,
        code != 2 && !baseline_new ==> r == code,
        code != 2 && baseline_new ==> r == (if code < 1 {
            1
        } else {
            code
        }),
{
    if code == 2 {
        2
    } else if baseline_new {
        if code < 1 {
            1
        } else {
            code
        }
    } else {
        code
    }
}

// --- Suppressions ---

/// What a [`Suppression`] stands for.
#[verifier::ext_equal]
pub struct SuppressionM {
    pub id: Seq<char>,
    pub repo: Option<Seq<char>>,
    pub justification: Option<Seq<char>>,
    pub reason: Seq<char>,
    pub approved_by: Option<Seq<char>>,
}

/// A human decision not to count an advisory: an ignore, or an approved assertion.
#[derive(Debug, PartialEq)]
pub struct Suppression {
    pub id: String,
    /// `None` for the whole fleet.
    pub repo: Option<RepoId>,
    pub justification: Option<String>,
    pub reason: String,
    /// `None` for an ignore.
    pub approved_by: Option<String>,
}

impl DeepView for Suppression {
    type V = SuppressionM;

    open spec fn deep_view(&self) -> SuppressionM {
        SuppressionM {
            id: self.id@,
            repo: self.repo.deep_view(),
            justification: self.justification.deep_view(),
            reason: self.reason@,
            approved_by: self.approved_by.deep_view(),
        }
    }
}

impl Plain for Suppression {
    fn copy(&self) -> (r: Suppression) {
        Suppression {
            id: self.id.clone(),
            repo: self.repo.copy(),
            justification: self.justification.copy(),
            reason: self.reason.clone(),
            approved_by: self.approved_by.copy(),
        }
    }

    fn same(&self, other: &Suppression) -> (r: bool) {
        self.id == other.id
            && self.repo.same(&other.repo)
            && self.justification.same(&other.justification)
            && self.reason == other.reason
            && self.approved_by.same(&other.approved_by)
    }
}

impl Clone for Suppression {
    fn clone(&self) -> (r: Suppression)
        ensures
            r.deep_view() == self.deep_view(),
    {
        self.copy()
    }
}

pub open spec fn ignore_suppression(i: IgnoreM) -> SuppressionM {
    SuppressionM {
        id: i.id,
        repo: None,
        justification: None,
        reason: i.reason,
        approved_by: None,
    }
}

pub open spec fn assertion_suppression(a: VexAssertionM) -> SuppressionM {
    SuppressionM {
        id: a.id,
        repo: a.repo,
        justification: a.justification,
        reason: a.reason,
        approved_by: Some(a.approved_by),
    }
}

impl Suppression {
    /// An ignore counts for the whole fleet.
    pub fn from_ignore(ignore: &Ignore) -> (r: Suppression)
        ensures
            r.deep_view() == ignore_suppression(ignore.deep_view()),
    {
        Suppression {
            id: ignore.id.clone(),
            repo: None,
            justification: None,
            reason: ignore.reason.clone(),
            approved_by: None,
        }
    }

    pub fn from_assertion(assertion: &VexAssertion) -> (r: Suppression)
        ensures
            r.deep_view() == assertion_suppression(assertion.deep_view()),
    {
        Suppression {
            id: assertion.id.clone(),
            repo: assertion.repo.copy(),
            justification: assertion.justification.copy(),
            reason: assertion.reason.clone(),
            approved_by: Some(assertion.approved_by.clone()),
        }
    }
}

/// What a [`SuppressedOccurrence`] stands for.
#[verifier::ext_equal]
pub struct SuppressedOccurrenceM {
    pub advisory_id: Seq<char>,
    pub aliases: Seq<Seq<char>>,
    pub occurrence: OccurrenceM,
    pub justification: Option<Seq<char>>,
    pub impact_statement: Seq<char>,
    pub approved_by: Option<Seq<char>>,
}

/// An occurrence that a suppression removed, with what the suppression says.
#[derive(Debug, PartialEq)]
pub struct SuppressedOccurrence {
    pub advisory_id: String,
    pub aliases: Vec<String>,
    pub occurrence: Occurrence,
    pub justification: Option<String>,
    pub impact_statement: String,
    pub approved_by: Option<String>,
}

impl DeepView for SuppressedOccurrence {
    type V = SuppressedOccurrenceM;

    open spec fn deep_view(&self) -> SuppressedOccurrenceM {
        SuppressedOccurrenceM {
            advisory_id: self.advisory_id@,
            aliases: self.aliases.deep_view(),
            occurrence: self.occurrence.deep_view(),
            justification: self.justification.deep_view(),
            impact_statement: self.impact_statement@,
            approved_by: self.approved_by.deep_view(),
        }
    }
}

impl Plain for SuppressedOccurrence {
    fn copy(&self) -> (r: SuppressedOccurrence) {
        SuppressedOccurrence {
            advisory_id: self.advisory_id.clone(),
            aliases: self.aliases.copy(),
            occurrence: self.occurrence.copy(),
            justification: self.justification.copy(),
            impact_statement: self.impact_statement.clone(),
            approved_by: self.approved_by.copy(),
        }
    }

    fn same(&self, other: &SuppressedOccurrence) -> (r: bool) {
        self.advisory_id == other.advisory_id
            && self.aliases.same(&other.aliases)
            && self.occurrence.same(&other.occurrence)
            && self.justification.same(&other.justification)
            && self.impact_statement == other.impact_statement
            && self.approved_by.same(&other.approved_by)
    }
}

impl Clone for SuppressedOccurrence {
    fn clone(&self) -> (r: SuppressedOccurrence)
        ensures
            r.deep_view() == self.deep_view(),
    {
        self.copy()
    }
}

/// A report, and what suppressions removed from it.
#[derive(Debug)]
pub struct Assembled {
    pub report: FleetReport,
    pub suppressed: Vec<SuppressedOccurrence>,
}

/// What makes a trustworthy scan fail.
#[derive(Debug, Clone, Copy, PartialEq, Eq)]
pub struct GateConfig {
    pub fail_on: Severity,
    pub fail_on_warnings: bool,
}

/// The repository of an occurrence.
pub open spec fn repo_of(o: OccurrenceM) -> Option<Seq<char>> {
    match o {
        OccurrenceM::InRepo { repo, .. } => Some(repo),
        OccurrenceM::Toolchain { .. } => None,
    }
}

/// Whether a suppression applies to an occurrence of an advisory: it names the advisory, and
/// one for a single repository applies there only.
pub open spec fn applies(s: SuppressionM, id: Seq<char>, o: OccurrenceM) -> bool {
    s.id == id && (s.repo is None || s.repo == repo_of(o))
}

/// The first suppression that applies.
pub open spec fn first_applying(s: Seq<SuppressionM>, id: Seq<char>, o: OccurrenceM) -> Option<
    SuppressionM,
>
    decreases s.len(),
{
    if s.len() == 0 {
        None
    } else {
        match first_applying(s.drop_last(), id, o) {
            Some(x) => Some(x),
            None => if applies(s.last(), id, o) {
                Some(s.last())
            } else {
                None
            },
        }
    }
}

fn applies_to(s: &Suppression, advisory_id: &String, occ: &Occurrence) -> (r: bool)
    ensures
        r == applies(s.deep_view(), advisory_id@, occ.deep_view()),
{
    s.id == *advisory_id && match &s.repo {
        None => true,
        Some(scoped) => match occ {
            Occurrence::InRepo { repo, .. } => repo.same(scoped),
            Occurrence::Toolchain { .. } => false,
        },
    }
}

fn matching_suppression(
    suppressions: &Vec<Suppression>,
    advisory_id: &String,
    occ: &Occurrence,
) -> (r: Option<usize>)
    ensures
        match r {
            Some(i) => i < suppressions.len() && first_applying(
                suppressions.deep_view(),
                advisory_id@,
                occ.deep_view(),
            ) == Some(suppressions.deep_view()[i as int]),
            None => first_applying(suppressions.deep_view(), advisory_id@, occ.deep_view()) is None,
        },
{
    let ghost all = suppressions.deep_view();
    let mut i: usize = 0;
    assert(all.take(0) =~= Seq::empty());
    while i < suppressions.len()
        invariant
            i <= suppressions.len(),
            all == suppressions.deep_view(),
            first_applying(all.take(i as int), advisory_id@, occ.deep_view()) is None,
        decreases suppressions.len() - i,
    {
        let s = &suppressions[i];
        proof {
            assert(all.take(i + 1).drop_last() =~= all.take(i as int));
            assert(all.take(i + 1).last() == s.deep_view());
        }
        if applies_to(s, advisory_id, occ) {
            proof {
                lemma_first_applying_stays(all, i + 1, advisory_id@, occ.deep_view());
            }
            return Some(i);
        }
        i += 1;
    }
    assert(all.take(i as int) =~= all);
    None
}

proof fn lemma_first_applying_stays(s: Seq<SuppressionM>, n: int, id: Seq<char>, o: OccurrenceM)
    requires
        0 <= n <= s.len(),
        first_applying(s.take(n), id, o) is Some,
    ensures
        first_applying(s, id, o) == first_applying(s.take(n), id, o),
    decreases s.len() - n,
{
    if n < s.len() {
        assert(s.take(n + 1).drop_last() =~= s.take(n));
        lemma_first_applying_stays(s, n + 1, id, o);
    } else {
        assert(s.take(n) =~= s);
    }
}

/// The occurrences that no suppression applies to.
pub open spec fn not_suppressed(
    sups: Seq<SuppressionM>,
    id: Seq<char>,
    s: Seq<OccurrenceM>,
) -> Seq<OccurrenceM>
    decreases s.len(),
{
    if s.len() == 0 {
        s
    } else {
        let front = not_suppressed(sups, id, s.drop_last());
        if first_applying(sups, id, s.last()) is None {
            front.push(s.last())
        } else {
            front
        }
    }
}

pub open spec fn suppressed_as(v: VulnFindingM, o: OccurrenceM, s: SuppressionM) -> SuppressedOccurrenceM {
    SuppressedOccurrenceM {
        advisory_id: v.advisory_id,
        aliases: v.aliases,
        occurrence: o,
        justification: s.justification,
        impact_statement: s.reason,
        approved_by: s.approved_by,
    }
}

/// The occurrences among `s` that a suppression applies to, each with the first that does.
pub open spec fn suppressed_of(
    sups: Seq<SuppressionM>,
    v: VulnFindingM,
    s: Seq<OccurrenceM>,
) -> Seq<SuppressedOccurrenceM>
    decreases s.len(),
{
    if s.len() == 0 {
        Seq::empty()
    } else {
        let front = suppressed_of(sups, v, s.drop_last());
        match first_applying(sups, v.advisory_id, s.last()) {
            Some(x) => front.push(suppressed_as(v, s.last(), x)),
            None => front,
        }
    }
}

pub open spec fn unsuppressed_vuln(sups: Seq<SuppressionM>, v: VulnFindingM) -> VulnFindingM {
    VulnFindingM { occurrences: not_suppressed(sups, v.advisory_id, v.occurrences), ..v }
}

/// The vulnerabilities with what is not suppressed; one that has nothing left is dropped.
pub open spec fn unsuppressed_vulns(sups: Seq<SuppressionM>, s: Seq<VulnFindingM>) -> Seq<
    VulnFindingM,
>
    decreases s.len(),
{
    if s.len() == 0 {
        s
    } else {
        let front = unsuppressed_vulns(sups, s.drop_last());
        let v = unsuppressed_vuln(sups, s.last());
        if v.occurrences.len() == 0 {
            front
        } else {
            front.push(v)
        }
    }
}

/// Everything that is suppressed, in the order in which it stands.
pub open spec fn all_suppressed(sups: Seq<SuppressionM>, s: Seq<VulnFindingM>) -> Seq<
    SuppressedOccurrenceM,
>
    decreases s.len(),
{
    if s.len() == 0 {
        Seq::empty()
    } else {
        all_suppressed(sups, s.drop_last()) + suppressed_of(sups, s.last(), s.last().occurrences)
    }
}

/// Whether a suppression for the whole fleet names the advisory.
pub open spec fn fleet_wide(sups: Seq<SuppressionM>, id: Seq<char>) -> bool {
    exists|i: int| 0 <= i < sups.len() && (#[trigger] sups[i]).id == id && sups[i].repo is None
}

/// Whether a warning stays: warnings are only suppressed for the whole fleet.
pub open spec fn warn_stays(sups: Seq<SuppressionM>) -> spec_fn(WarnFindingM) -> bool {
    |w: WarnFindingM|
        match w.advisory_id {
            Some(id) => !fleet_wide(sups, id),
            None => true,
        }
}

/// Whether a suppression applies to an occurrence of a vulnerability.
pub open spec fn matches_vuln(s: SuppressionM, v: VulnFindingM) -> bool {
    exists|j: int|
        0 <= j < v.occurrences.len() && applies(s, v.advisory_id, #[trigger] v.occurrences[j])
}

/// Whether a suppression applies to a warning.
pub open spec fn matches_warn(s: SuppressionM, w: WarnFindingM) -> bool {
    s.repo is None && w.advisory_id == Some(s.id)
}

/// Whether there is anything that a suppression applies to.
pub open spec fn matches_any(
    s: SuppressionM,
    vulns: Seq<VulnFindingM>,
    warns: Seq<WarnFindingM>,
) -> bool {
    ||| exists|i: int| 0 <= i < vulns.len() && matches_vuln(s, #[trigger] vulns[i])
    ||| exists|i: int| 0 <= i < warns.len() && matches_warn(s, #[trigger] warns[i])
}

/// The names of the suppressions that apply to nothing, each once, in their order.
pub open spec fn stale(
    sups: Seq<SuppressionM>,
    vulns: Seq<VulnFindingM>,
    warns: Seq<WarnFindingM>,
) -> Seq<Seq<char>>
    decreases sups.len(),
{
    if sups.len() == 0 {
        Seq::empty()
    } else {
        let front = stale(sups.drop_last(), vulns, warns);
        let s = sups.last();
        if matches_any(s, vulns, warns) || front.contains(s.id) {
            front
        } else {
            front.push(s.id)
        }
    }
}

fn matches_vuln_in(s: &Suppression, v: &VulnFinding) -> (r: bool)
    ensures
        r == matches_vuln(s.deep_view(), v.deep_view()),
{
    let ghost m = v.deep_view();
    let mut j: usize = 0;
    while j < v.occurrences.len()
        invariant
            j <= v.occurrences.len(),
            m == v.deep_view(),
            forall|i: int|
                0 <= i < j ==> !applies(
                    s.deep_view(),
                    m.advisory_id,
                    #[trigger] m.occurrences[i],
                ),
        decreases v.occurrences.len() - j,
    {
        assert(m.occurrences[j as int] == v.occurrences[j as int].deep_view());
        if applies_to(s, &v.advisory_id, &v.occurrences[j]) {
            return true;
        }
        j += 1;
    }
    false
}

fn matches_anything(s: &Suppression, found: &Correlated) -> (r: bool)
    ensures
        r == matches_any(
            s.deep_view(),
            found.vulnerabilities.deep_view(),
            found.warnings.deep_view(),
        ),
{
    let ghost vs = found.vulnerabilities.deep_view();
    let ghost ws = found.warnings.deep_view();
    let mut i: usize = 0;
    while i < found.vulnerabilities.len()
        invariant
            i <= found.vulnerabilities.len(),
            vs == found.vulnerabilities.deep_view(),
            ws == found.warnings.deep_view(),
            forall|k: int| 0 <= k < i ==> !matches_vuln(s.deep_view(), #[trigger] vs[k]),
        decreases found.vulnerabilities.len() - i,
    {
        assert(vs[i as int] == found.vulnerabilities[i as int].deep_view());
        if matches_vuln_in(s, &found.vulnerabilities[i]) {
            return true;
        }
        i += 1;
    }
    let mut k: usize = 0;
    while k < found.warnings.len()
        invariant
            k <= found.warnings.len(),
            vs == found.vulnerabilities.deep_view(),
            ws == found.warnings.deep_view(),
            forall|h: int| 0 <= h < vs.len() ==> !matches_vuln(s.deep_view(), #[trigger] vs[h]),
            forall|h: int| 0 <= h < k ==> !matches_warn(s.deep_view(), #[trigger] ws[h]),
        decreases found.warnings.len() - k,
    {
        assert(ws[k as int] == found.warnings[k as int].deep_view());
        let same: bool = match &found.warnings[k].advisory_id {
            Some(id) => s.id == *id,
            None => false,
        };
        if same && s.repo.is_none() {
            return true;
        }
        k += 1;
    }
    false
}

/// The names of the suppressions that apply to nothing, each once, in their order.
pub fn stale_suppressions(suppressions: &Vec<Suppression>, found: &Correlated) -> (r: Vec<String>)
    ensures
        r.deep_view() == stale(
            suppressions.deep_view(),
            found.vulnerabilities.deep_view(),
            found.warnings.deep_view(),
        ),
{
    let ghost sups = suppressions.deep_view();
    let ghost vs = found.vulnerabilities.deep_view();
    let ghost ws = found.warnings.deep_view();
    let mut unused: Vec<String> = Vec::new();
    let mut i: usize = 0;
    proof {
        assert(sups.take(0) =~= Seq::empty());
        assert(unused.deep_view() =~= Seq::empty());
    }
    while i < suppressions.len()
        invariant
            i <= suppressions.len(),
            sups == suppressions.deep_view(),
            vs == found.vulnerabilities.deep_view(),
            ws == found.warnings.deep_view(),
            unused.deep_view() == stale(sups.take(i as int), vs, ws),
        decreases suppressions.len() - i,
    {
        let s: &Suppression = &suppressions[i];
        proof {
            assert(sups.take(i + 1).drop_last() =~= sups.take(i as int));
            assert(sups.take(i + 1).last() == s.deep_view());
        }
        if !matches_anything(s, found) && !value::holds(&unused, &s.id) {
            let ghost before = unused.deep_view();
            let copy: String = s.id.clone();
            unused.push(copy);
            assert(unused.deep_view() =~= before.push(s.id@));
        }
        i += 1;
    }
    assert(sups.take(i as int) =~= sups);
    unused
}

/// A suppression is named as stale exactly where one of that name applies to nothing: none that
/// matched nothing is hidden by another of the same name.
pub proof fn stale_means_matched_nothing(
    sups: Seq<SuppressionM>,
    vulns: Seq<VulnFindingM>,
    warns: Seq<WarnFindingM>,
    id: Seq<char>,
)
    ensures
        stale(sups, vulns, warns).contains(id) == exists|i: int|
            0 <= i < sups.len() && (#[trigger] sups[i]).id == id && !matches_any(
                sups[i],
                vulns,
                warns,
            ),
        stale(sups, vulns, warns).no_duplicates(),
    decreases sups.len(),
{
    if sups.len() > 0 {
        let rest = sups.drop_last();
        let s = sups.last();
        stale_means_matched_nothing(rest, vulns, warns, id);
        stale_means_matched_nothing(rest, vulns, warns, s.id);
        let front = stale(rest, vulns, warns);
        lemma_push_contains(front, s.id, id);
        if exists|i: int|
            0 <= i < rest.len() && (#[trigger] rest[i]).id == id && !matches_any(
                rest[i],
                vulns,
                warns,
            ) {
            let i = choose|i: int|
                0 <= i < rest.len() && (#[trigger] rest[i]).id == id && !matches_any(
                    rest[i],
                    vulns,
                    warns,
                );
            assert(sups[i] == rest[i]);
        }
        if exists|i: int|
            0 <= i < sups.len() && (#[trigger] sups[i]).id == id && !matches_any(
                sups[i],
                vulns,
                warns,
            ) {
            let i = choose|i: int|
                0 <= i < sups.len() && (#[trigger] sups[i]).id == id && !matches_any(
                    sups[i],
                    vulns,
                    warns,
                );
            if i < rest.len() {
                assert(rest[i] == sups[i]);
            }
        }
        assert(sups[sups.len() - 1] == s);
    }
}

fn is_fleet_wide(sups: &Vec<Suppression>, id: &String) -> (r: bool)
    ensures
        r == fleet_wide(sups.deep_view(), id@),
{
    let mut i: usize = 0;
    while i < sups.len()
        invariant
            i <= sups.len(),
            forall|j: int|
                0 <= j < i ==> !((#[trigger] sups.deep_view()[j]).id == id@
                    && sups.deep_view()[j].repo is None),
        decreases sups.len() - i,
    {
        if sups[i].id == *id && sups[i].repo.is_none() {
            assert(sups.deep_view()[i as int].id == id@);
            return true;
        }
        i += 1;
    }
    false
}

/// What one vulnerability comes to: with what is left of it, and what was suppressed.
fn suppress_vuln(
    v: VulnFinding,
    suppressions: &Vec<Suppression>,
) -> (r: (VulnFinding, Vec<SuppressedOccurrence>))
    ensures
        r.0.deep_view() == unsuppressed_vuln(suppressions.deep_view(), v.deep_view()),
        r.1.deep_view() == suppressed_of(
            suppressions.deep_view(),
            v.deep_view(),
            v.deep_view().occurrences,
        ),
{
    let mut v = v;
    let ghost whole = v.deep_view();
    let ghost sups = suppressions.deep_view();
    let ghost all = v.occurrences.deep_view();
    let mut occurrences: Vec<Occurrence> = Vec::new();
    std::mem::swap(&mut occurrences, &mut v.occurrences);
    let mut kept: Vec<Occurrence> = Vec::new();
    let mut suppressed: Vec<SuppressedOccurrence> = Vec::new();
    let ghost mut n: int = 0;
    proof {
        assert(all.take(0) =~= Seq::empty());
        assert(kept.deep_view() =~= Seq::empty());
        assert(suppressed.deep_view() =~= Seq::empty());
    }
    for occ in it: occurrences
        invariant
            it.seq() == occurrences@,
            all == occurrences.deep_view(),
            sups == suppressions.deep_view(),
            v.advisory_id@ == whole.advisory_id,
            v.aliases.deep_view() == whole.aliases,
            n == it.index(),
            n <= all.len(),
            kept.deep_view() == not_suppressed(sups, whole.advisory_id, all.take(n)),
            suppressed.deep_view() == suppressed_of(sups, whole, all.take(n)),
    {
        proof {
            assert(all.take(n + 1).drop_last() =~= all.take(n));
            assert(all.take(n + 1).last() == occ.deep_view());
        }
        match matching_suppression(suppressions, &v.advisory_id, &occ) {
            Some(i) => {
                let s = &suppressions[i];
                let ghost o = occ.deep_view();
                let entry = SuppressedOccurrence {
                    advisory_id: v.advisory_id.clone(),
                    aliases: v.aliases.copy(),
                    occurrence: occ,
                    justification: s.justification.copy(),
                    impact_statement: s.reason.clone(),
                    approved_by: s.approved_by.copy(),
                };
                let ghost before = suppressed.deep_view();
                suppressed.push(entry);
                proof {
                    assert(suppressed.deep_view() =~= before.push(entry.deep_view()));
                    assert(entry.deep_view() == suppressed_as(whole, o, sups[i as int]));
                }
            },
            None => {
                let ghost before = kept.deep_view();
                kept.push(occ);
                assert(kept.deep_view() =~= before.push(occ.deep_view()));
            },
        }
        proof {
            n = n + 1;
        }
    }
    assert(all.take(n) =~= all);
    v.occurrences = kept;
    (v, suppressed)
}

/// Applies the suppressions occurrence by occurrence. Gives what is left, the names of the
/// suppressions that apply to nothing, and what was removed.
pub fn apply_suppressions(
    correlated: Correlated,
    suppressions: &Vec<Suppression>,
) -> (r: (Correlated, Vec<String>, Vec<SuppressedOccurrence>))
    ensures
        r.0.vulnerabilities.deep_view() == unsuppressed_vulns(
            suppressions.deep_view(),
            correlated.vulnerabilities.deep_view(),
        ),
        r.0.warnings.deep_view() == correlated.warnings.deep_view().filter(
            warn_stays(suppressions.deep_view()),
        ),
        r.1.deep_view() == stale(
            suppressions.deep_view(),
            correlated.vulnerabilities.deep_view(),
            correlated.warnings.deep_view(),
        ),
        r.2.deep_view() == all_suppressed(
            suppressions.deep_view(),
            correlated.vulnerabilities.deep_view(),
        ),
{
    let ghost sups = suppressions.deep_view();
    let ghost vs = correlated.vulnerabilities.deep_view();
    let ghost ws = correlated.warnings.deep_view();
    let unused: Vec<String> = stale_suppressions(suppressions, &correlated);
    let Correlated { vulnerabilities, warnings } = correlated;
    let mut suppressed: Vec<SuppressedOccurrence> = Vec::new();
    let mut kept: Vec<VulnFinding> = Vec::new();
    let ghost mut n: int = 0;
    proof {
        assert(vs.take(0) =~= Seq::empty());
        assert(ws.take(0) =~= Seq::empty());
        assert(kept.deep_view() =~= Seq::empty());
        assert(suppressed.deep_view() =~= Seq::empty());
    }
    for v in it: vulnerabilities
        invariant
            it.seq() == vulnerabilities@,
            vs == vulnerabilities.deep_view(),
            sups == suppressions.deep_view(),
            n == it.index(),
            n <= vs.len(),
            kept.deep_view() == unsuppressed_vulns(sups, vs.take(n)),
            suppressed.deep_view() == all_suppressed(sups, vs.take(n)),
    {
        let ghost m = v.deep_view();
        proof {
            assert(vs.take(n + 1).drop_last() =~= vs.take(n));
            assert(vs.take(n + 1).last() == m);
        }
        let (left, removed) = suppress_vuln(v, suppressions);
        value::append(&mut suppressed, removed);
        proof {
            assert(left.occurrences.deep_view().len() == left.occurrences.len());
        }
        if left.occurrences.len() > 0 {
            let ghost before = kept.deep_view();
            kept.push(left);
            assert(kept.deep_view() =~= before.push(left.deep_view()));
        }
        proof {
            n = n + 1;
        }
    }
    let mut kept_warns: Vec<WarnFinding> = Vec::new();
    let ghost mut k: int = 0;
    proof {
        reveal(Seq::filter);
        assert(vs.take(n) =~= vs);
        assert(kept_warns.deep_view() =~= ws.take(0).filter(warn_stays(sups)));
    }
    for w in it: warnings
        invariant
            it.seq() == warnings@,
            ws == warnings.deep_view(),
            sups == suppressions.deep_view(),
            k == it.index(),
            k <= ws.len(),
            kept_warns.deep_view() == ws.take(k).filter(warn_stays(sups)),
    {
        let ghost m = w.deep_view();
        proof {
            assert(ws.take(k + 1) =~= ws.take(k).push(m));
            ws.take(k).lemma_filter_push(m, warn_stays(sups));
        }
        let removed: bool = match &w.advisory_id {
            Some(id) => is_fleet_wide(suppressions, id),
            None => false,
        };
        if !removed {
            let ghost before = kept_warns.deep_view();
            kept_warns.push(w);
            assert(kept_warns.deep_view() =~= before.push(m));
        }
        proof {
            k = k + 1;
        }
    }
    assert(ws.take(k) =~= ws);
    (Correlated { vulnerabilities: kept, warnings: kept_warns }, unused, suppressed)
}

proof fn lemma_push_contains(s: Seq<Seq<char>>, x: Seq<char>, y: Seq<char>)
    ensures
        s.push(x).contains(y) == (s.contains(y) || x == y),
{
    if s.contains(y) {
        let i = choose|i: int| 0 <= i < s.len() && s[i] == y;
        assert(s.push(x)[i] == y);
    }
    assert(s.push(x)[s.len() as int] == x);
    if s.push(x).contains(y) {
        let i = choose|i: int| 0 <= i < s.push(x).len() && s.push(x)[i] == y;
        if i < s.len() {
            assert(s[i] == y);
        }
    }
}

// --- The report ---

pub open spec fn is_scanned() -> spec_fn(RepoOutcomeM) -> bool {
    |o: RepoOutcomeM| o.status is Scanned
}

pub open spec fn is_errored() -> spec_fn(RepoOutcomeM) -> bool {
    |o: RepoOutcomeM| o.status is Errored
}

pub open spec fn summary_of(
    vulns: Seq<VulnFindingM>,
    warns: Seq<WarnFindingM>,
    outcomes: Seq<RepoOutcomeM>,
    stale_ignores: Seq<Seq<char>>,
) -> SummaryM {
    SummaryM {
        repos_scanned: outcomes.filter(is_scanned()).len() as usize,
        repos_errored: outcomes.filter(is_errored()).len() as usize,
        vuln_count: vulns.len() as usize,
        warn_count: warns.len() as usize,
        max_severity: report::max_severity_m(vulns),
        stale_ignores,
    }
}

fn summarize(
    correlated: &Correlated,
    outcomes: &Vec<RepoOutcome>,
    stale_ignores: Vec<String>,
) -> (r: Summary)
    ensures
        r.deep_view() == summary_of(
            correlated.vulnerabilities.deep_view(),
            correlated.warnings.deep_view(),
            outcomes.deep_view(),
            stale_ignores.deep_view(),
        ),
{
    let ghost all = outcomes.deep_view();
    let mut scanned: usize = 0;
    let mut errored: usize = 0;
    let mut i: usize = 0;
    proof {
        reveal(Seq::filter);
        assert(all.take(0) =~= Seq::empty());
    }
    while i < outcomes.len()
        invariant
            i <= outcomes.len(),
            all == outcomes.deep_view(),
            scanned <= i,
            errored <= i,
            scanned == all.take(i as int).filter(is_scanned()).len(),
            errored == all.take(i as int).filter(is_errored()).len(),
        decreases outcomes.len() - i,
    {
        proof {
            let o = outcomes[i as int].deep_view();
            assert(all.take(i + 1) =~= all.take(i as int).push(o));
            all.take(i as int).lemma_filter_push(o, is_scanned());
            all.take(i as int).lemma_filter_push(o, is_errored());
        }
        match &outcomes[i].status {
            ScanStatus::Scanned { .. } => {
                scanned += 1;
            },
            ScanStatus::Errored { .. } => {
                errored += 1;
            },
        }
        i += 1;
    }
    proof {
        assert(all.take(i as int) =~= all);
        assert(correlated.vulnerabilities.deep_view().len() == correlated.vulnerabilities.len());
        assert(correlated.warnings.deep_view().len() == correlated.warnings.len());
    }
    Summary {
        repos_scanned: scanned,
        repos_errored: errored,
        vuln_count: correlated.vulnerabilities.len(),
        warn_count: correlated.warnings.len(),
        max_severity: report::max_severity_of(&correlated.vulnerabilities),
        stale_ignores,
    }
}

/// At or above a floor; an unknown severity counts as above every floor, because nothing
/// shows that it is below.
pub open spec fn reaches(s: Severity, floor: Severity) -> bool {
    s == Severity::Unknown || severity::severity_rank(s) >= severity::severity_rank(floor)
}

/// Whether a severity makes the scan fail.
pub fn gates(s: Severity, fail_on: Severity) -> (r: bool)
    ensures
        r == reaches(s, fail_on),
{
    s == Severity::Unknown || s.rank() >= fail_on.rank()
}

/// Whether a severity passes the display threshold.
pub fn passes_threshold(s: Severity, min: Severity) -> (r: bool)
    ensures
        r == reaches(s, min),
{
    s == Severity::Unknown || s.rank() >= min.rank()
}

pub open spec fn at_threshold(min: Option<Severity>) -> spec_fn(VulnFindingM) -> bool {
    |v: VulnFindingM|
        match min {
            Some(m) => reaches(v.severity, m),
            None => true,
        }
}

/// The vulnerabilities that a report shows: folded, unsuppressed, and at the threshold.
pub open spec fn shown_vulns(
    scan: ScanDataM,
    sups: Seq<SuppressionM>,
    min: Option<Severity>,
) -> Seq<VulnFindingM> {
    unsuppressed_vulns(sups, correlate::correlated_vulns(scan.vulnerabilities)).filter(
        at_threshold(min),
    )
}

/// The warnings that a report shows.
pub open spec fn shown_warns(scan: ScanDataM, sups: Seq<SuppressionM>) -> Seq<WarnFindingM> {
    correlate::correlated_warns(scan.warnings).filter(warn_stays(sups))
}

/// The report of a scan.
pub open spec fn report_of(
    scan: ScanDataM,
    sups: Seq<SuppressionM>,
    min: Option<Severity>,
    provenance: ProvenanceM,
) -> FleetReportM {
    FleetReportM {
        schema_version: report::SCHEMA_VERSION,
        provenance,
        summary: summary_of(
            shown_vulns(scan, sups, min),
            shown_warns(scan, sups),
            scan.outcomes,
            stale(
                sups,
                correlate::correlated_vulns(scan.vulnerabilities),
                correlate::correlated_warns(scan.warnings),
            ),
        ),
        vulnerabilities: shown_vulns(scan, sups, min),
        warnings: shown_warns(scan, sups),
        outcomes: scan.outcomes,
    }
}

fn keep_at_threshold(v: Vec<VulnFinding>, min: Option<Severity>) -> (out: Vec<VulnFinding>)
    ensures
        out.deep_view() == v.deep_view().filter(at_threshold(min)),
{
    let ghost all = v.deep_view();
    let mut out: Vec<VulnFinding> = Vec::new();
    let ghost mut n: int = 0;
    proof {
        reveal(Seq::filter);
        assert(all.take(0) =~= Seq::empty());
        assert(out.deep_view() =~= all.take(0).filter(at_threshold(min)));
    }
    for f in it: v
        invariant
            it.seq() == v@,
            all == v.deep_view(),
            n == it.index(),
            n <= all.len(),
            out.deep_view() == all.take(n).filter(at_threshold(min)),
    {
        proof {
            assert(all.take(n + 1) =~= all.take(n).push(f.deep_view()));
            all.take(n).lemma_filter_push(f.deep_view(), at_threshold(min));
        }
        let keep: bool = match min {
            Some(m) => passes_threshold(f.severity, m),
            None => true,
        };
        if keep {
            let ghost before = out.deep_view();
            out.push(f);
            assert(out.deep_view() =~= before.push(f.deep_view()));
        }
        proof {
            n = n + 1;
        }
    }
    assert(all.take(n) =~= all);
    out
}

/// Folds the findings, applies the suppressions and the threshold, and sums up. What was
/// suppressed is handed back beside the report.
pub fn assemble(
    scan: ScanData,
    suppressions: &Vec<Suppression>,
    min_severity: Option<Severity>,
    provenance: Provenance,
) -> (r: Assembled)
    ensures
        r.report.deep_view() == report_of(
            scan.deep_view(),
            suppressions.deep_view(),
            min_severity,
            provenance.deep_view(),
        ),
        r.suppressed.deep_view() == all_suppressed(
            suppressions.deep_view(),
            correlate::correlated_vulns(scan.deep_view().vulnerabilities),
        ),
{
    let correlated = correlate::correlate(scan.vulnerabilities, scan.warnings);
    let (left, stale_ignores, suppressed) = apply_suppressions(correlated, suppressions);
    let Correlated { vulnerabilities, warnings } = left;
    let correlated = Correlated {
        vulnerabilities: keep_at_threshold(vulnerabilities, min_severity),
        warnings,
    };
    let summary = summarize(&correlated, &scan.outcomes, stale_ignores);
    Assembled {
        report: FleetReport {
            schema_version: report::SCHEMA_VERSION,
            provenance,
            summary,
            vulnerabilities: correlated.vulnerabilities,
            warnings: correlated.warnings,
            outcomes: scan.outcomes,
        },
        suppressed,
    }
}

pub open spec fn ignore_suppressions(s: Seq<IgnoreM>) -> Seq<SuppressionM> {
    Seq::new(s.len(), |i: int| ignore_suppression(s[i]))
}

/// The report where every ignore is a suppression for the whole fleet.
pub fn build_report(
    scan: ScanData,
    ignores: &Vec<Ignore>,
    min_severity: Option<Severity>,
    provenance: Provenance,
) -> (r: FleetReport)
    ensures
        r.deep_view() == report_of(
            scan.deep_view(),
            ignore_suppressions(ignores.deep_view()),
            min_severity,
            provenance.deep_view(),
        ),
{
    let ghost want = ignore_suppressions(ignores.deep_view());
    let mut suppressions: Vec<Suppression> = Vec::new();
    let mut i: usize = 0;
    while i < ignores.len()
        invariant
            i <= ignores.len(),
            want == ignore_suppressions(ignores.deep_view()),
            suppressions.deep_view() == want.take(i as int),
        decreases ignores.len() - i,
    {
        let s = Suppression::from_ignore(&ignores[i]);
        let ghost before = suppressions.deep_view();
        suppressions.push(s);
        i += 1;
        assert(suppressions.deep_view() =~= before.push(s.deep_view()));
        assert(want.take(i as int) =~= want.take(i - 1).push(want[i - 1]));
    }
    assert(suppressions.deep_view() =~= want);
    let Assembled { report, suppressed: _ } = assemble(
        scan,
        &suppressions,
        min_severity,
        provenance,
    );
    report
}

/// Whether something in a report makes the scan fail.
pub open spec fn trips(r: FleetReportM, gate: GateConfig) -> bool {
    (exists|i: int|
        0 <= i < r.vulnerabilities.len() && reaches(
            (#[trigger] r.vulnerabilities[i]).severity,
            gate.fail_on,
        )) || (gate.fail_on_warnings && r.warnings.len() > 0)
}

/// The exit code of a report: `2` where a repository could not be read or none was, else `1`
/// where something makes the scan fail, else `0`.
pub open spec fn exit_code_m(r: FleetReportM, gate: GateConfig) -> u8 {
    if r.summary.repos_errored > 0 || r.summary.repos_scanned == 0 {
        2
    } else if trips(r, gate) {
        1
    } else {
        0
    }
}

/// The exit code of a report.
pub fn exit_code(report: &FleetReport, gate: &GateConfig) -> (r: u8)
    ensures
        r == exit_code_m(report.deep_view(), *gate),
{
    if report.summary.repos_errored > 0 || report.summary.repos_scanned == 0 {
        return 2;
    }
    let ghost vs = report.vulnerabilities.deep_view();
    let mut i: usize = 0;
    while i < report.vulnerabilities.len()
        invariant
            i <= report.vulnerabilities.len(),
            vs == report.vulnerabilities.deep_view(),
            forall|j: int| 0 <= j < i ==> !reaches((#[trigger] vs[j]).severity, gate.fail_on),
            !(report.summary.repos_errored > 0 || report.summary.repos_scanned == 0),
        decreases report.vulnerabilities.len() - i,
    {
        if gates(report.vulnerabilities[i].severity, gate.fail_on) {
            assert(reaches(vs[i as int].severity, gate.fail_on));
            return 1;
        }
        i += 1;
    }
    assert(report.warnings.deep_view().len() == report.warnings.len());
    if gate.fail_on_warnings && report.warnings.len() > 0 {
        1
    } else {
        0
    }
}

// --- Laws ---

/// An unknown severity trips every gate and passes every threshold.
pub proof fn unknown_severity_fails_closed(floor: Severity)
    ensures
        reaches(Severity::Unknown, floor),
{
}

/// A gap is never reported clean: with a repository that could not be read, or with none that
/// was, the exit code is `2` whatever was found.
pub proof fn gap_is_never_clean(
    scan: ScanDataM,
    sups: Seq<SuppressionM>,
    min: Option<Severity>,
    provenance: ProvenanceM,
    gate: GateConfig,
)
    requires
        scan.outcomes.len() <= usize::MAX,
        (exists|i: int| 0 <= i < scan.outcomes.len() && (#[trigger] scan.outcomes[i]).status
            is Errored) || (forall|i: int|
            0 <= i < scan.outcomes.len() ==> !((#[trigger] scan.outcomes[i]).status is Scanned)),
    ensures
        exit_code_m(report_of(scan, sups, min, provenance), gate) == 2,
{
    let s = scan.outcomes;
    s.lemma_filter_len(is_scanned());
    s.lemma_filter_len(is_errored());
    if exists|i: int| 0 <= i < s.len() && (#[trigger] s[i]).status is Errored {
        let i = choose|i: int| 0 <= i < s.len() && (#[trigger] s[i]).status is Errored;
        assert(is_errored()(s[i]));
        s.lemma_filter_contains(is_errored(), i);
        assert(s.filter(is_errored()).len() > 0);
    } else {
        crate::order::lemma_filter_none(s, is_scanned());
    }
}

/// Every repository counts once, as scanned or as errored, and the counts of findings are
/// those of the findings shown.
pub proof fn summary_matches_report(
    scan: ScanDataM,
    sups: Seq<SuppressionM>,
    min: Option<Severity>,
    provenance: ProvenanceM,
)
    requires
        scan.outcomes.len() <= usize::MAX,
        shown_vulns(scan, sups, min).len() <= usize::MAX,
        shown_warns(scan, sups).len() <= usize::MAX,
    ensures
        ({
            let r = report_of(scan, sups, min, provenance);
            &&& r.summary.vuln_count == r.vulnerabilities.len()
            &&& r.summary.warn_count == r.warnings.len()
            &&& r.summary.max_severity == report::max_severity_m(r.vulnerabilities)
            &&& r.summary.repos_scanned + r.summary.repos_errored == scan.outcomes.len()
        }),
{
    lemma_outcome_counts(scan.outcomes);
    scan.outcomes.lemma_filter_len(is_scanned());
    scan.outcomes.lemma_filter_len(is_errored());
}

proof fn lemma_outcome_counts(s: Seq<RepoOutcomeM>)
    ensures
        s.filter(is_scanned()).len() + s.filter(is_errored()).len() == s.len(),
    decreases s.len(),
{
    reveal(Seq::filter);
    if s.len() > 0 {
        lemma_outcome_counts(s.drop_last());
    }
}

/// Suppressing conserves: of the occurrences of a finding, each either stays or is handed back
/// as suppressed, and none does both.
pub proof fn suppressed_or_kept(sups: Seq<SuppressionM>, v: VulnFindingM, s: Seq<OccurrenceM>)
    ensures
        not_suppressed(sups, v.advisory_id, s).len() + suppressed_of(sups, v, s).len() == s.len(),
        forall|i: int|
            0 <= i < s.len() ==> (if first_applying(sups, v.advisory_id, #[trigger] s[i]) is None {
                not_suppressed(sups, v.advisory_id, s).contains(s[i])
            } else {
                exists|j: int|
                    0 <= j < suppressed_of(sups, v, s).len() && (#[trigger] suppressed_of(
                        sups,
                        v,
                        s,
                    )[j]).occurrence == s[i]
            }),
    decreases s.len(),
{
    if s.len() > 0 {
        let l = s.drop_last();
        suppressed_or_kept(sups, v, l);
        let kept = not_suppressed(sups, v.advisory_id, s);
        let gone = suppressed_of(sups, v, s);
        assert forall|i: int| 0 <= i < s.len() implies (if first_applying(
            sups,
            v.advisory_id,
            #[trigger] s[i],
        ) is None {
            kept.contains(s[i])
        } else {
            exists|j: int| 0 <= j < gone.len() && (#[trigger] gone[j]).occurrence == s[i]
        }) by {
            if i < l.len() {
                assert(l[i] == s[i]);
                if first_applying(sups, v.advisory_id, s[i]) is None {
                    let before = not_suppressed(sups, v.advisory_id, l);
                    let j = choose|j: int| 0 <= j < before.len() && before[j] == s[i];
                    assert(kept[j] == s[i]);
                } else {
                    let before = suppressed_of(sups, v, l);
                    let j = choose|j: int|
                        0 <= j < before.len() && (#[trigger] before[j]).occurrence == s[i];
                    assert(gone[j].occurrence == s[i]);
                }
            } else {
                if first_applying(sups, v.advisory_id, s[i]) is None {
                    assert(kept[kept.len() - 1] == s[i]);
                } else {
                    assert(gone[gone.len() - 1].occurrence == s[i]);
                }
            }
        }
    }
}

/// What is suppressed was named: the suppression is one of the list, names the advisory, and
/// if it is for one repository the occurrence is in that repository.
pub proof fn suppression_is_scoped(sups: Seq<SuppressionM>, id: Seq<char>, o: OccurrenceM)
    requires
        first_applying(sups, id, o) is Some,
    ensures
        sups.contains(first_applying(sups, id, o)->0),
        first_applying(sups, id, o)->0.id == id,
        first_applying(sups, id, o)->0.repo is Some ==> first_applying(sups, id, o)->0.repo
            == repo_of(o),
    decreases sups.len(),
{
    let l = sups.drop_last();
    if first_applying(l, id, o) is Some {
        suppression_is_scoped(l, id, o);
        let x = first_applying(l, id, o)->0;
        let i = choose|i: int| 0 <= i < l.len() && l[i] == x;
        assert(sups[i] == x);
    } else {
        assert(sups[sups.len() - 1] == sups.last());
    }
}

/// Without suppressions nothing is suppressed: every finding keeps every occurrence.
pub proof fn nothing_suppressed_by_default(s: Seq<VulnFindingM>)
    requires
        forall|i: int| 0 <= i < s.len() ==> (#[trigger] s[i]).occurrences.len() > 0,
    ensures
        unsuppressed_vulns(Seq::empty(), s) == s,
        all_suppressed(Seq::empty(), s) == Seq::<SuppressedOccurrenceM>::empty(),
    decreases s.len(),
{
    if s.len() > 0 {
        let l = s.drop_last();
        assert forall|i: int| 0 <= i < l.len() implies (#[trigger] l[i]).occurrences.len() > 0 by {
            assert(l[i] == s[i]);
        }
        nothing_suppressed_by_default(l);
        let v = s.last();
        assert(v == s[s.len() - 1]);
        lemma_none_suppressed(v, v.occurrences);
        assert(unsuppressed_vuln(Seq::empty(), v) == v);
        assert(unsuppressed_vulns(Seq::empty(), s) =~= s);
        assert(all_suppressed(Seq::empty(), s) =~= Seq::<SuppressedOccurrenceM>::empty());
    }
}

proof fn lemma_none_suppressed(v: VulnFindingM, s: Seq<OccurrenceM>)
    ensures
        not_suppressed(Seq::empty(), v.advisory_id, s) == s,
        suppressed_of(Seq::empty(), v, s) == Seq::<SuppressedOccurrenceM>::empty(),
    decreases s.len(),
{
    if s.len() > 0 {
        lemma_none_suppressed(v, s.drop_last());
        assert(not_suppressed(Seq::empty(), v.advisory_id, s) =~= s);
    }
}

/// Filters never drop what is not known: a finding whose reachability is not decided stays,
/// and so does one without a probability.
pub proof fn filters_keep_unknown(s: Seq<VulnFindingM>, i: int, min: Score)
    requires
        0 <= i < s.len(),
    ensures
        s[i].reachable is None ==> s.filter(may_be_reachable()).contains(s[i]),
        s[i].exploit.epss is None ==> s.filter(likely(min)).contains(s[i]),
{
    if s[i].reachable is None {
        assert(may_be_reachable()(s[i]));
        s.lemma_filter_contains(may_be_reachable(), i);
    }
    if s[i].exploit.epss is None {
        assert(likely(min)(s[i]));
        s.lemma_filter_contains(likely(min), i);
    }
}

/// An occurrence whose build status is not known is never dropped as a phantom.
pub proof fn unknown_build_status_stays(v: VulnFindingM, i: int)
    requires
        0 <= i < v.occurrences.len(),
        match v.occurrences[i] {
            OccurrenceM::InRepo { active, .. } => active is None,
            OccurrenceM::Toolchain { .. } => true,
        },
    ensures
        live_vuln(v).occurrences.contains(v.occurrences[i]),
{
    assert(is_live()(v.occurrences[i]));
    v.occurrences.lemma_filter_contains(is_live(), i);
}

/// Whether a severity is at or above a floor, band by band. One that is not known is above
/// every floor.
pub open spec fn at_or_above(s: Severity, floor: Severity) -> bool {
    match s {
        Severity::Unknown | Severity::Critical => true,
        Severity::High => floor != Severity::Critical,
        Severity::Medium => floor != Severity::Critical && floor != Severity::High,
        Severity::Low => floor == Severity::Low || floor == Severity::Unknown,
    }
}

/// A floor lets through its own band, every band above it, and what is not known, and nothing
/// else.
pub proof fn a_floor_is_where_it_says(s: Severity, floor: Severity)
    ensures
        reaches(s, floor) == at_or_above(s, floor),
{
}

/// The exit code of a report that can be trusted is `1` exactly where some vulnerability is at
/// or above the floor or of unknown severity, or warnings count and there is one; else it is
/// `0`.
pub proof fn the_floor_decides(r: FleetReportM, gate: GateConfig)
    requires
        r.summary.repos_errored == 0,
        r.summary.repos_scanned > 0,
    ensures
        exit_code_m(r, gate) == 1 <==> ((exists|i: int|
            0 <= i < r.vulnerabilities.len() && at_or_above(
                (#[trigger] r.vulnerabilities[i]).severity,
                gate.fail_on,
            )) || (gate.fail_on_warnings && r.warnings.len() > 0)),
        exit_code_m(r, gate) == 0 || exit_code_m(r, gate) == 1,
{
    if trips(r, gate) {
        if exists|i: int|
            0 <= i < r.vulnerabilities.len() && reaches(
                (#[trigger] r.vulnerabilities[i]).severity,
                gate.fail_on,
            ) {
            let i = choose|i: int|
                0 <= i < r.vulnerabilities.len() && reaches(
                    (#[trigger] r.vulnerabilities[i]).severity,
                    gate.fail_on,
                );
            assert(at_or_above(r.vulnerabilities[i].severity, gate.fail_on));
        }
    }
    if exists|i: int|
        0 <= i < r.vulnerabilities.len() && at_or_above(
            (#[trigger] r.vulnerabilities[i]).severity,
            gate.fail_on,
        ) {
        let i = choose|i: int|
            0 <= i < r.vulnerabilities.len() && at_or_above(
                (#[trigger] r.vulnerabilities[i]).severity,
                gate.fail_on,
            );
        assert(reaches(r.vulnerabilities[i].severity, gate.fail_on));
    }
}

/// Whether a suppression names the advisory and covers the place of the occurrence: one without
/// a repository covers the whole fleet, one with a repository covers what is in it.
pub open spec fn covers_place(s: SuppressionM, id: Seq<char>, o: OccurrenceM) -> bool {
    s.id == id && (match s.repo {
        None => true,
        Some(only) => match o {
            OccurrenceM::InRepo { repo, .. } => repo == only,
            OccurrenceM::Toolchain { .. } => false,
        },
    })
}

/// Whether any of the suppressions does so.
pub open spec fn covered_place(sups: Seq<SuppressionM>, id: Seq<char>, o: OccurrenceM) -> bool {
    exists|k: int| 0 <= k < sups.len() && covers_place(#[trigger] sups[k], id, o)
}

/// An occurrence is suppressed exactly where some suppression names its advisory and covers its
/// place, and by the first that does.
pub proof fn the_first_that_covers_suppresses(
    sups: Seq<SuppressionM>,
    id: Seq<char>,
    o: OccurrenceM,
)
    ensures
        first_applying(sups, id, o) is Some <==> covered_place(sups, id, o),
        forall|k: int|
            0 <= k < sups.len() && covers_place(#[trigger] sups[k], id, o) && (forall|m: int|
                0 <= m < k ==> !covers_place(#[trigger] sups[m], id, o)) ==> first_applying(
                sups,
                id,
                o,
            ) == Some(sups[k]),
    decreases sups.len(),
{
    if sups.len() > 0 {
        let l = sups.drop_last();
        let n = l.len() as int;
        the_first_that_covers_suppresses(l, id, o);
        assert forall|k: int| 0 <= k < l.len() implies #[trigger] sups[k] == l[k] by {}
        assert(sups[n] == sups.last());
        assert(applies(sups.last(), id, o) == covers_place(sups.last(), id, o));
        if covered_place(l, id, o) {
            let k = choose|k: int| 0 <= k < l.len() && covers_place(#[trigger] l[k], id, o);
            assert(covers_place(sups[k], id, o));
        }
        if covered_place(sups, id, o) && !covered_place(l, id, o) {
            let k = choose|k: int| 0 <= k < sups.len() && covers_place(#[trigger] sups[k], id, o);
            if k < n {
                assert(covers_place(l[k], id, o));
            }
        }
        assert forall|k: int|
            0 <= k < sups.len() && covers_place(#[trigger] sups[k], id, o) && (forall|m: int|
                0 <= m < k ==> !covers_place(#[trigger] sups[m], id, o)) implies first_applying(
            sups,
            id,
            o,
        ) == Some(sups[k]) by {
            if k < n {
                assert(covers_place(l[k], id, o));
                assert forall|m: int| 0 <= m < k implies !covers_place(#[trigger] l[m], id, o) by {
                    assert(sups[m] == l[m]);
                }
            } else {
                assert(!covered_place(l, id, o)) by {
                    if covered_place(l, id, o) {
                        let m = choose|m: int|
                            0 <= m < l.len() && covers_place(#[trigger] l[m], id, o);
                        assert(sups[m] == l[m]);
                    }
                }
            }
        }
    }
}

/// A vulnerability with the occurrences that no suppression covers.
pub open spec fn uncovered(sups: Seq<SuppressionM>) -> spec_fn(VulnFindingM) -> VulnFindingM {
    |v: VulnFindingM|
        VulnFindingM {
            occurrences: v.occurrences.filter(
                |o: OccurrenceM| !covered_place(sups, v.advisory_id, o),
            ),
            ..v
        }
}

/// A vulnerability that is somewhere.
pub open spec fn is_somewhere() -> spec_fn(VulnFindingM) -> bool {
    |v: VulnFindingM| v.occurrences.len() > 0
}

proof fn lemma_not_suppressed(sups: Seq<SuppressionM>, id: Seq<char>, s: Seq<OccurrenceM>)
    ensures
        not_suppressed(sups, id, s) == s.filter(|o: OccurrenceM| !covered_place(sups, id, o)),
    decreases s.len(),
{
    reveal(Seq::filter);
    if s.len() > 0 {
        lemma_not_suppressed(sups, id, s.drop_last());
        the_first_that_covers_suppresses(sups, id, s.last());
    }
}

/// Suppressing takes from each vulnerability the occurrences that a suppression covers and no
/// others, drops a vulnerability that has none left, and changes nothing else.
pub proof fn only_what_is_covered_goes(sups: Seq<SuppressionM>, s: Seq<VulnFindingM>)
    ensures
        unsuppressed_vulns(sups, s) == s.map_values(uncovered(sups)).filter(is_somewhere()),
    decreases s.len(),
{
    reveal(Seq::filter);
    let m = s.map_values(uncovered(sups));
    if s.len() > 0 {
        let l = s.drop_last();
        only_what_is_covered_goes(sups, l);
        lemma_not_suppressed(sups, s.last().advisory_id, s.last().occurrences);
        assert(m.drop_last() =~= l.map_values(uncovered(sups)));
        assert(m.last() == uncovered(sups)(s.last()));
    } else {
        assert(m =~= Seq::empty());
    }
}

/// A warning is suppressed exactly where a suppression for the whole fleet names its advisory.
pub proof fn warnings_go_fleet_wide_only(sups: Seq<SuppressionM>, s: Seq<WarnFindingM>)
    ensures
        s.filter(warn_stays(sups)) == s.filter(
            |w: WarnFindingM|
                !(exists|k: int|
                    0 <= k < sups.len() && (#[trigger] sups[k]).repo is None && w.advisory_id
                        == Some(sups[k].id)),
        ),
    decreases s.len(),
{
    reveal(Seq::filter);
    let q = |w: WarnFindingM|
        !(exists|k: int|
            0 <= k < sups.len() && (#[trigger] sups[k]).repo is None && w.advisory_id == Some(
                sups[k].id,
            ));
    if s.len() > 0 {
        warnings_go_fleet_wide_only(sups, s.drop_last());
        let w = s.last();
        if let Some(id) = w.advisory_id {
            if fleet_wide(sups, id) {
                let k = choose|k: int|
                    0 <= k < sups.len() && (#[trigger] sups[k]).id == id && sups[k].repo is None;
                assert(sups[k].repo is None && w.advisory_id == Some(sups[k].id));
            }
        }
        assert(warn_stays(sups)(w) == q(w));
    }
}

/// A vulnerability with the occurrences that are not known to be left out of the build.
pub open spec fn with_built() -> spec_fn(VulnFindingM) -> VulnFindingM {
    |v: VulnFindingM|
        VulnFindingM {
            occurrences: v.occurrences.filter(
                |o: OccurrenceM|
                    match o {
                        OccurrenceM::InRepo { active, .. } => match active {
                            Some(built) => built,
                            None => true,
                        },
                        OccurrenceM::Toolchain { .. } => true,
                    },
            ),
            ..v
        }
}

/// Dropping what is not built takes from each vulnerability the occurrences that are known not
/// to be built and no others, and drops one that has none left.
pub proof fn only_what_is_not_built_goes(s: Seq<VulnFindingM>)
    ensures
        live_vulns(s) == s.map_values(with_built()).filter(is_somewhere()),
    decreases s.len(),
{
    reveal(Seq::filter);
    let m = s.map_values(with_built());
    if s.len() > 0 {
        let l = s.drop_last();
        only_what_is_not_built_goes(l);
        assert(m.drop_last() =~= l.map_values(with_built()));
        assert(m.last() == with_built()(s.last()));
        let q = |o: OccurrenceM|
            match o {
                OccurrenceM::InRepo { active, .. } => match active {
                    Some(built) => built,
                    None => true,
                },
                OccurrenceM::Toolchain { .. } => true,
            };
        lemma_filters_alike(s.last().occurrences, is_live(), q);
        assert(live_vuln(s.last()) == m.last());
    } else {
        assert(m =~= Seq::empty());
    }
}

proof fn lemma_filters_alike<A>(s: Seq<A>, p: spec_fn(A) -> bool, q: spec_fn(A) -> bool)
    requires
        forall|x: A| #[trigger] p(x) == q(x),
    ensures
        s.filter(p) == s.filter(q),
    decreases s.len(),
{
    reveal(Seq::filter);
    if s.len() > 0 {
        lemma_filters_alike(s.drop_last(), p, q);
        assert(p(s.last()) == q(s.last()));
    }
}

/// What a filter leaves: exactly the vulnerabilities of which `p` holds, in their order, with
/// the counts that follow; warnings and outcomes stay as they are.
pub open spec fn leaves(
    before: FleetReportM,
    after: FleetReportM,
    p: spec_fn(VulnFindingM) -> bool,
) -> bool {
    &&& after.vulnerabilities == before.vulnerabilities.filter(p)
    &&& after.warnings == before.warnings
    &&& after.outcomes == before.outcomes
    &&& after.provenance == before.provenance
    &&& after.summary.vuln_count == after.vulnerabilities.len() as usize
    &&& after.summary.repos_scanned == before.summary.repos_scanned
    &&& after.summary.repos_errored == before.summary.repos_errored
}

/// Filtering by reachability drops exactly what is shown not to be reachable; filtering by
/// probability drops exactly what has a probability that is not at least the one asked for.
pub proof fn filters_drop_only_what_they_say(r: FleetReportM, min: Score)
    ensures
        leaves(
            r,
            retained(r, may_be_reachable()),
            |v: VulnFindingM|
                match v.reachable {
                    Some(reached) => reached,
                    None => true,
                },
        ),
        leaves(
            r,
            retained(r, likely(min)),
            |v: VulnFindingM|
                v.exploit.epss is None || (!score::is_nan(v.exploit.epss->0) && !score::is_nan(min)
                    && score::level(v.exploit.epss->0) >= score::level(min)),
        ),
{
    lemma_filters_alike(
        r.vulnerabilities,
        may_be_reachable(),
        |v: VulnFindingM|
            match v.reachable {
                Some(reached) => reached,
                None => true,
            },
    );
    lemma_filters_alike(
        r.vulnerabilities,
        likely(min),
        |v: VulnFindingM|
            v.exploit.epss is None || (!score::is_nan(v.exploit.epss->0) && !score::is_nan(min)
                && score::level(v.exploit.epss->0) >= score::level(min)),
    );
}

/// Since a baseline exactly those vulnerabilities and warnings stay whose advisory is not in it;
/// a warning without an advisory stays.
pub proof fn a_baseline_drops_only_its_own(r: FleetReportM, ids: Seq<Seq<char>>)
    ensures
        leaves(
            FleetReportM { warnings: new_since(r, ids).warnings, ..r },
            new_since(r, ids),
            |v: VulnFindingM| !ids.contains(v.advisory_id),
        ),
        new_since(r, ids).warnings == r.warnings.filter(
            |w: WarnFindingM| w.advisory_id is None || !ids.contains(w.advisory_id->0),
        ),
        new_since(r, ids).summary.warn_count == new_since(r, ids).warnings.len() as usize,
{
    lemma_filters_alike(
        r.vulnerabilities,
        is_new_vuln(ids),
        |v: VulnFindingM| !ids.contains(v.advisory_id),
    );
    lemma_filters_alike(
        r.warnings,
        is_new_warn(ids),
        |w: WarnFindingM| w.advisory_id is None || !ids.contains(w.advisory_id->0),
    );
}

/// A report shows the folded vulnerabilities that are somewhere not covered by a suppression and
/// are at or above the threshold, the folded warnings that no suppression for the whole fleet
/// names, and the outcomes of the scan; its counts are those of what it shows.
pub proof fn what_a_report_shows(
    scan: ScanDataM,
    sups: Seq<SuppressionM>,
    min: Option<Severity>,
    provenance: ProvenanceM,
)
    ensures
        ({
            let r = report_of(scan, sups, min, provenance);
            &&& r.vulnerabilities == correlate::correlated_vulns(scan.vulnerabilities).map_values(
                uncovered(sups),
            ).filter(is_somewhere()).filter(
                |v: VulnFindingM| min is None || at_or_above(v.severity, min->0),
            )
            &&& r.outcomes == scan.outcomes
            &&& r.provenance == provenance
            &&& r.summary.vuln_count == r.vulnerabilities.len() as usize
            &&& r.summary.warn_count == r.warnings.len() as usize
            &&& r.summary.repos_scanned == scan.outcomes.filter(
                |o: RepoOutcomeM| o.status is Scanned,
            ).len() as usize
            &&& r.summary.repos_errored == scan.outcomes.filter(
                |o: RepoOutcomeM| o.status is Errored,
            ).len() as usize
        }),
{
    only_what_is_covered_goes(sups, correlate::correlated_vulns(scan.vulnerabilities));
    lemma_filters_alike(
        unsuppressed_vulns(sups, correlate::correlated_vulns(scan.vulnerabilities)),
        at_threshold(min),
        |v: VulnFindingM| min is None || at_or_above(v.severity, min->0),
    );
    lemma_filters_alike(scan.outcomes, is_scanned(), |o: RepoOutcomeM| o.status is Scanned);
    lemma_filters_alike(scan.outcomes, is_errored(), |o: RepoOutcomeM| o.status is Errored);
}

/// An ignore covers an advisory wherever it is; an assertion covers it where it says, and
/// carries its justification, its reason and who approved it to what it suppresses.
pub proof fn what_a_suppression_carries(i: IgnoreM, a: VexAssertionM, v: VulnFindingM, o: OccurrenceM)
    ensures
        covers_place(ignore_suppression(i), i.id, o),
        !(ignore_suppression(i).approved_by is Some),
        ignore_suppression(i).reason == i.reason,
        covers_place(assertion_suppression(a), a.id, o) <==> (a.repo is None || (
        o matches OccurrenceM::InRepo { repo, .. } && a.repo == Some(repo))),
        ({
            let x = suppressed_as(v, o, assertion_suppression(a));
            &&& x.advisory_id == v.advisory_id
            &&& x.aliases == v.aliases
            &&& x.occurrence == o
            &&& x.justification == a.justification
            &&& x.impact_statement == a.reason
            &&& x.approved_by == Some(a.approved_by)
        }),
{
}

/// Dropping what is not built does the same to warnings.
pub proof fn only_warnings_of_what_is_not_built_go(s: Seq<WarnFindingM>)
    ensures
        live_warns(s) == s.map_values(
            |w: WarnFindingM|
                WarnFindingM {
                    occurrences: w.occurrences.filter(
                        |o: OccurrenceM|
                            !(o matches OccurrenceM::InRepo { active, .. } && active == Some(
                                false,
                            )),
                    ),
                    ..w
                },
        ).filter(|w: WarnFindingM| w.occurrences.len() > 0),
    decreases s.len(),
{
    reveal(Seq::filter);
    let q = |o: OccurrenceM|
        !(o matches OccurrenceM::InRepo { active, .. } && active == Some(false));
    let f = |w: WarnFindingM|
        WarnFindingM {
            occurrences: w.occurrences.filter(
                |o: OccurrenceM|
                    !(o matches OccurrenceM::InRepo { active, .. } && active == Some(false)),
            ),
            ..w
        };
    let p = |w: WarnFindingM| w.occurrences.len() > 0;
    let m = s.map_values(f);
    if s.len() > 0 {
        let l = s.drop_last();
        only_warnings_of_what_is_not_built_go(l);
        assert(m.drop_last() =~= l.map_values(f));
        assert(m.last() == f(s.last()));
        lemma_filters_alike(s.last().occurrences, is_live(), q);
        assert(live_warn(s.last()) == m.last());
    } else {
        assert(m =~= Seq::empty());
    }
}

/// What is suppressed is told exactly where a suppression covers it: with its advisory, its place
/// and what the first such suppression says.
pub proof fn everything_covered_is_told(
    sups: Seq<SuppressionM>,
    v: VulnFindingM,
    s: Seq<OccurrenceM>,
)
    ensures
        suppressed_of(sups, v, s) == s.filter(
            |o: OccurrenceM| covered_place(sups, v.advisory_id, o),
        ).map_values(
            |o: OccurrenceM| suppressed_as(v, o, first_applying(sups, v.advisory_id, o)->0),
        ),
    decreases s.len(),
{
    reveal(Seq::filter);
    let p = |o: OccurrenceM| covered_place(sups, v.advisory_id, o);
    let f = |o: OccurrenceM| suppressed_as(v, o, first_applying(sups, v.advisory_id, o)->0);
    if s.len() > 0 {
        let l = s.drop_last();
        everything_covered_is_told(sups, v, l);
        the_first_that_covers_suppresses(sups, v.advisory_id, s.last());
        if p(s.last()) {
            assert(s.filter(p).map_values(f) =~= l.filter(p).map_values(f).push(f(s.last())));
        }
    } else {
        assert(s.filter(p).map_values(f) =~= Seq::empty());
    }
}

} // verus!
