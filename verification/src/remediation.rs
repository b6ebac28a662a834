//! From a report to a queue of actions: which dependency to bring to which version.
use vstd::prelude::*;
use crate::correlate;
use crate::finding;
use crate::finding::{
    Ecosystem, Occurrence, OccurrenceM, ReachVerdict, ReachVerdictM, VulnFinding, VulnFindingM,
};
use crate::order;
use crate::order::{Order, Rel};
use crate::report;
use crate::report::FleetReport;
use crate::score;
use crate::score::Score;
use crate::severity;
use crate::severity::Severity;
use crate::text;
use crate::value;
use crate::value::Plain;
use crate::version;
use crate::version::{ByVersion, Comparator, ComparatorM, Op, Version, VersionM, VersionReq};

verus! {

/// Where an action stands relative to the queue of work.
#[derive(Debug, Clone, Copy, PartialEq, Eq, Structural)]
pub enum ReachTier {
    /// Some advisory of the group can be reached.
    Reachable,
    /// Not decided for some advisory of the group.
    Unknown,
    /// Every advisory of the group is proved unreachable.
    NotReachable,
}

impl ReachTier {
    /// Whether the action is work, and not mere information.
    pub fn is_actionable(self) -> (r: bool)
        ensures
            r == (self != ReachTier::NotReachable),
    {
        self != ReachTier::NotReachable
    }
}

/// What a [`Action`] stands for.
#[verifier::ext_equal]
pub enum ActionM {
    Upgrade {
        to: VersionM,
        breaking: bool,
    },
    NoFixAvailable,
}

/// What to do about a group of advisories on one package.
#[derive(Debug, PartialEq)]
pub enum Action {
    /// Bring the package to `to`; `breaking` where that crosses a compatibility boundary.
    Upgrade {
        to: Version,
        breaking: bool,
    },
    /// No fix is published.
    NoFixAvailable,
}

impl DeepView for Action {
    type V = ActionM;

    open spec fn deep_view(&self) -> ActionM {
        match self {
            Action::Upgrade { to, breaking } => ActionM::Upgrade {
                to: to.deep_view(),
                breaking: *breaking,
            },
            Action::NoFixAvailable => ActionM::NoFixAvailable,
        }
    }
}

impl Plain for Action {
    fn copy(&self) -> (r: Action) {
        match self {
            Action::Upgrade { to, breaking } => Action::Upgrade {
                to: to.copy(),
                breaking: *breaking,
            },
            Action::NoFixAvailable => Action::NoFixAvailable,
        }
    }

    fn same(&self, other: &Action) -> (r: bool) {
        match self {
            Action::Upgrade { to, breaking } => match other {
                Action::Upgrade { to: other_to, breaking: other_breaking } => to.same(other_to)
                    && *breaking == *other_breaking,
                _ => false,
            },
            Action::NoFixAvailable => match other {
                Action::NoFixAvailable => true,
                _ => false,
            },
        }
    }
}

impl Clone for Action {
    fn clone(&self) -> (r: Action)
        ensures
            r.deep_view() == self.deep_view(),
    {
        self.copy()
    }
}

/// What a [`RemediationItem`] stands for.
#[verifier::ext_equal]
pub struct RemediationItemM {
    pub package: Seq<char>,
    pub ecosystem: Ecosystem,
    pub current: Seq<VersionM>,
    pub advisories: Seq<Seq<char>>,
    pub action: ActionM,
    pub reach: ReachTier,
    pub repos: usize,
    pub occurrences: usize,
    pub max_severity: Severity,
    pub kev: bool,
    pub max_epss: Option<Score>,
    pub max_cvss: Option<Score>,
}

/// One action, and what it resolves.
#[derive(Debug, PartialEq)]
pub struct RemediationItem {
    pub package: String,
    pub ecosystem: Ecosystem,
    /// The vulnerable versions in the fleet, ascending, each once.
    pub current: Vec<Version>,
    /// The advisories that the action resolves, in order.
    pub advisories: Vec<String>,
    pub action: Action,
    pub reach: ReachTier,
    /// How many repositories have a vulnerable occurrence.
    pub repos: usize,
    /// How many vulnerable occurrences there are.
    pub occurrences: usize,
    pub max_severity: Severity,
    pub kev: bool,
    pub max_epss: Option<Score>,
    pub max_cvss: Option<Score>,
}

impl DeepView for RemediationItem {
    type V = RemediationItemM;

    open spec fn deep_view(&self) -> RemediationItemM {
        RemediationItemM {
            package: self.package@,
            ecosystem: self.ecosystem,
            current: self.current.deep_view(),
            advisories: self.advisories.deep_view(),
            action: self.action.deep_view(),
            reach: self.reach,
            repos: self.repos,
            occurrences: self.occurrences,
            max_severity: self.max_severity,
            kev: self.kev,
            max_epss: self.max_epss,
            max_cvss: self.max_cvss,
        }
    }
}

impl Plain for RemediationItem {
    fn copy(&self) -> (r: RemediationItem) {
        RemediationItem {
            package: self.package.clone(),
            ecosystem: self.ecosystem,
            current: self.current.copy(),
            advisories: self.advisories.copy(),
            action: self.action.copy(),
            reach: self.reach,
            repos: self.repos,
            occurrences: self.occurrences,
            max_severity: self.max_severity,
            kev: self.kev,
            max_epss: self.max_epss,
            max_cvss: self.max_cvss,
        }
    }

    fn same(&self, other: &RemediationItem) -> (r: bool) {
        self.package == other.package
            && self.ecosystem == other.ecosystem
            && self.current.same(&other.current)
            && self.advisories.same(&other.advisories)
            && self.action.same(&other.action)
            && self.reach == other.reach
            && self.repos == other.repos
            && self.occurrences == other.occurrences
            && self.max_severity == other.max_severity
            && self.kev == other.kev
            && self.max_epss == other.max_epss
            && self.max_cvss == other.max_cvss
    }
}

impl Clone for RemediationItem {
    fn clone(&self) -> (r: RemediationItem)
        ensures
            r.deep_view() == self.deep_view(),
    {
        self.copy()
    }
}

// --- What is known of one finding ---

/// How many of the occurrences are vulnerable.
pub open spec fn vuln_count(s: Seq<OccurrenceM>) -> nat
    decreases s.len(),
{
    if s.len() == 0 {
        0
    } else {
        vuln_count(s.drop_last()) + (if finding::vulnerable(s.last()) {
            1nat
        } else {
            0nat
        })
    }
}

fn vuln_occ_count(f: &VulnFinding) -> (r: usize)
    ensures
        r == vuln_count(f.deep_view().occurrences),
        r <= f.occurrences.len(),
{
    let ghost all = f.occurrences.deep_view();
    let mut r: usize = 0;
    let mut i: usize = 0;
    assert(all.take(0) =~= Seq::empty());
    while i < f.occurrences.len()
        invariant
            i <= f.occurrences.len(),
            all == f.occurrences.deep_view(),
            r <= i,
            r == vuln_count(all.take(i as int)),
        decreases f.occurrences.len() - i,
    {
        proof {
            assert(all.take(i + 1).drop_last() =~= all.take(i as int));
        }
        if f.occurrences[i].is_vulnerable() {
            r += 1;
        }
        i += 1;
    }
    assert(all.take(i as int) =~= all);
    r
}

/// What an occurrence is about: a package, or a toolchain channel.
pub open spec fn target_name(o: OccurrenceM) -> Seq<char> {
    match o {
        OccurrenceM::InRepo { package, .. } => package,
        OccurrenceM::Toolchain { channel, .. } => channel,
    }
}

/// What a finding is about, by its first occurrence.
pub open spec fn package_of(f: VulnFindingM) -> Option<Seq<char>> {
    if f.occurrences.len() == 0 {
        None
    } else {
        Some(target_name(f.occurrences[0]))
    }
}

fn finding_package(f: &VulnFinding) -> (r: Option<String>)
    ensures
        r.deep_view() == package_of(f.deep_view()),
{
    if f.occurrences.len() == 0 {
        assert(f.occurrences.deep_view().len() == 0);
        return None;
    }
    assert(f.occurrences.deep_view()[0] == f.occurrences[0].deep_view());
    match &f.occurrences[0] {
        Occurrence::InRepo { package, .. } => Some(package.clone()),
        Occurrence::Toolchain { channel, .. } => Some(channel.clone()),
    }
}

pub open spec fn patched_at(o: OccurrenceM) -> Seq<Seq<ComparatorM>> {
    match o {
        OccurrenceM::InRepo { patched, .. } => patched,
        OccurrenceM::Toolchain { patched, .. } => patched,
    }
}

pub open spec fn patched_anywhere(s: Seq<OccurrenceM>) -> Seq<Seq<ComparatorM>>
    decreases s.len(),
{
    if s.len() == 0 {
        Seq::empty()
    } else {
        patched_anywhere(s.drop_last()) + patched_at(s.last())
    }
}

/// Requirements by how they are written.
pub struct ByReqText;

impl Order for ByReqText {
    type M = Seq<ComparatorM>;

    type Item = VersionReq;

    open spec fn key(m: Seq<ComparatorM>) -> Seq<int> {
        text::text_key(version::semver_requirement_text(m))
    }

    fn rel(a: &VersionReq, b: &VersionReq) -> (r: Rel) {
        text::rel_text(a.to_string().as_str(), b.to_string().as_str())
    }
}

/// The safe versions of a finding: the requirements of all its occurrences, those that are
/// written alike once.
pub open spec fn patched_of(f: VulnFindingM) -> Seq<Seq<ComparatorM>> {
    order::first_per_key::<ByReqText>(
        order::in_order::<ByReqText>(patched_anywhere(f.occurrences)),
    )
}

fn finding_patched(f: &VulnFinding) -> (r: Vec<VersionReq>)
    ensures
        r.deep_view() == patched_of(f.deep_view()),
{
    let ghost all = f.occurrences.deep_view();
    let mut reqs: Vec<VersionReq> = Vec::new();
    let mut i: usize = 0;
    proof {
        assert(all.take(0) =~= Seq::empty());
        assert(reqs.deep_view() =~= Seq::empty());
    }
    while i < f.occurrences.len()
        invariant
            i <= f.occurrences.len(),
            all == f.occurrences.deep_view(),
            reqs.deep_view() == patched_anywhere(all.take(i as int)),
        decreases f.occurrences.len() - i,
    {
        proof {
            assert(all.take(i + 1).drop_last() =~= all.take(i as int));
        }
        let more: Vec<VersionReq> = match &f.occurrences[i] {
            Occurrence::InRepo { patched, .. } => patched.copy(),
            Occurrence::Toolchain { patched, .. } => patched.copy(),
        };
        value::append(&mut reqs, more);
        i += 1;
    }
    assert(all.take(i as int) =~= all);
    order::dedup_keys::<ByReqText>(order::sort::<ByReqText>(reqs))
}

/// The number that a bound names, or zero.
pub open spec fn or_zero(n: Option<u64>) -> u64 {
    match n {
        Some(x) => x,
        None => 0,
    }
}

pub open spec fn next_major(major: u64) -> Option<VersionM> {
    if major == u64::MAX {
        None
    } else {
        Some(version::release((major + 1) as u64, 0, 0))
    }
}

pub open spec fn next_minor(major: u64, minor: u64) -> Option<VersionM> {
    if minor == u64::MAX {
        next_major(major)
    } else {
        Some(version::release(major, (minor + 1) as u64, 0))
    }
}

pub open spec fn next_patch(major: u64, minor: u64, patch: u64) -> Option<VersionM> {
    if patch == u64::MAX {
        next_minor(major, minor)
    } else {
        Some(version::release(major, minor, (patch + 1) as u64))
    }
}

/// The version that a bound names, what it leaves out being zero.
pub open spec fn named_by(c: ComparatorM) -> Option<VersionM> {
    version::version_of(c.major, or_zero(c.minor), or_zero(c.patch), c.pre)
}

/// The least version above all those that a bound names. After a pre-release that is the
/// pre-release with one more identifier, the lowest that there is.
pub open spec fn above(c: ComparatorM) -> Option<VersionM> {
    match c.minor {
        None => next_major(c.major),
        Some(minor) => match c.patch {
            None => next_minor(c.major, minor),
            Some(patch) => if c.pre.len() == 0 {
                next_patch(c.major, minor, patch)
            } else {
                version::version_of(c.major, minor, patch, c.pre + ".0"@)
            },
        },
    }
}

/// Where a bound starts: the least version that it lets through. A bound from above has none.
pub open spec fn start_of(c: ComparatorM) -> Option<VersionM> {
    match c.op {
        Op::Less | Op::LessEq => None,
        Op::Greater => above(c),
        Op::Exact | Op::GreaterEq | Op::Tilde | Op::Caret | Op::Wildcard => named_by(c),
    }
}

fn next_major_version(major: u64) -> (r: Option<Version>)
    ensures
        r.deep_view() == next_major(major),
{
    if major == u64::MAX {
        None
    } else {
        Some(Version::new(major + 1, 0, 0))
    }
}

fn next_minor_version(major: u64, minor: u64) -> (r: Option<Version>)
    ensures
        r.deep_view() == next_minor(major, minor),
{
    if minor == u64::MAX {
        next_major_version(major)
    } else {
        Some(Version::new(major, minor + 1, 0))
    }
}

fn next_patch_version(major: u64, minor: u64, patch: u64) -> (r: Option<Version>)
    ensures
        r.deep_view() == next_patch(major, minor, patch),
{
    if patch == u64::MAX {
        next_minor_version(major, minor)
    } else {
        Some(Version::new(major, minor, patch + 1))
    }
}

fn version_above(c: &Comparator) -> (r: Option<Version>)
    ensures
        r.deep_view() == above(c.deep_view()),
{
    match c.minor {
        None => next_major_version(c.major),
        Some(minor) => match c.patch {
            None => next_minor_version(c.major, minor),
            Some(patch) => if c.pre.as_str().is_empty() {
                next_patch_version(c.major, minor, patch)
            } else {
                Version::of(c.major, minor, patch, text::join(c.pre.as_str(), ".0").as_str())
            },
        },
    }
}

fn start_of_bound(c: &Comparator) -> (r: Option<Version>)
    ensures
        r.deep_view() == start_of(c.deep_view()),
{
    match c.op {
        Op::Less | Op::LessEq => None,
        Op::Greater => version_above(c),
        Op::Exact | Op::GreaterEq | Op::Tilde | Op::Caret | Op::Wildcard => {
            let minor: u64 = match c.minor {
                Some(m) => m,
                None => 0,
            };
            let patch: u64 = match c.patch {
                Some(p) => p,
                None => 0,
            };
            Version::of(c.major, minor, patch, c.pre.as_str())
        },
    }
}

/// Where the bounds of a requirement start.
pub open spec fn starts_of(req: Seq<ComparatorM>) -> Seq<VersionM>
    decreases req.len(),
{
    if req.len() == 0 {
        Seq::empty()
    } else {
        let front = starts_of(req.drop_last());
        match start_of(req.last()) {
            Some(v) => front.push(v),
            None => front,
        }
    }
}

fn starts(list: &Vec<Comparator>) -> (r: Vec<Version>)
    ensures
        r.deep_view() == starts_of(list.deep_view()),
{
    let ghost all = list.deep_view();
    let mut r: Vec<Version> = Vec::new();
    let mut i: usize = 0;
    proof {
        assert(all.take(0) =~= Seq::empty());
        assert(r.deep_view() =~= Seq::empty());
    }
    while i < list.len()
        invariant
            i <= list.len(),
            all == list.deep_view(),
            r.deep_view() == starts_of(all.take(i as int)),
        decreases list.len() - i,
    {
        proof {
            assert(all.take(i + 1).drop_last() =~= all.take(i as int));
        }
        if let Some(v) = start_of_bound(&list[i]) {
            let ghost before = r.deep_view();
            r.push(v);
            assert(r.deep_view() =~= before.push(v.deep_view()));
        }
        i += 1;
    }
    assert(all.take(i as int) =~= all);
    r
}

/// The first version of which `p` holds.
pub open spec fn first_where(s: Seq<VersionM>, p: spec_fn(VersionM) -> bool) -> Option<VersionM>
    decreases s.len(),
{
    if s.len() == 0 {
        None
    } else if p(s[0]) {
        Some(s[0])
    } else {
        first_where(s.drop_first(), p)
    }
}

/// The least version of which `p` holds.
pub open spec fn least_where(s: Seq<VersionM>, p: spec_fn(VersionM) -> bool) -> Option<VersionM> {
    first_where(order::in_order::<ByVersion>(s), p)
}

pub open spec fn permitted_by(req: Seq<ComparatorM>) -> spec_fn(VersionM) -> bool {
    |v: VersionM| version::semver_satisfies(req, v)
}

/// The floor of a requirement: the least version where a bound of it starts that it permits.
pub open spec fn req_floor_m(req: Seq<ComparatorM>) -> Option<VersionM> {
    least_where(starts_of(req), permitted_by(req))
}

fn req_floor(req: &VersionReq) -> (r: Option<Version>)
    ensures
        r.deep_view() == req_floor_m(req.deep_view()),
{
    let list: Vec<Version> = order::sort::<ByVersion>(starts(req.list()));
    let ghost p = permitted_by(req.deep_view());
    let ghost all = list.deep_view();
    let mut i: usize = 0;
    assert(all.skip(0) =~= all);
    while i < list.len()
        invariant
            i <= list.len(),
            all == list.deep_view(),
            all == order::in_order::<ByVersion>(starts_of(req.deep_view())),
            p == permitted_by(req.deep_view()),
            first_where(all, p) == first_where(all.skip(i as int), p),
        decreases list.len() - i,
    {
        proof {
            assert(all.skip(i as int)[0] == list[i as int].deep_view());
            assert(all.skip(i as int).drop_first() =~= all.skip(i + 1));
        }
        if req.matches(&list[i]) {
            return Some(list[i].clone());
        }
        i += 1;
    }
    None
}

/// The floors of those requirements that have one.
pub open spec fn floors_of(patched: Seq<Seq<ComparatorM>>) -> Seq<VersionM>
    decreases patched.len(),
{
    if patched.len() == 0 {
        Seq::empty()
    } else {
        let front = floors_of(patched.drop_last());
        match req_floor_m(patched.last()) {
            Some(v) => front.push(v),
            None => front,
        }
    }
}

fn floors(patched: &Vec<VersionReq>) -> (r: Vec<Version>)
    ensures
        r.deep_view() == floors_of(patched.deep_view()),
{
    let ghost all = patched.deep_view();
    let mut r: Vec<Version> = Vec::new();
    let mut i: usize = 0;
    proof {
        assert(all.take(0) =~= Seq::empty());
        assert(r.deep_view() =~= Seq::empty());
    }
    while i < patched.len()
        invariant
            i <= patched.len(),
            all == patched.deep_view(),
            r.deep_view() == floors_of(all.take(i as int)),
        decreases patched.len() - i,
    {
        proof {
            assert(all.take(i + 1).drop_last() =~= all.take(i as int));
        }
        if let Some(v) = req_floor(&patched[i]) {
            let ghost before = r.deep_view();
            r.push(v);
            assert(r.deep_view() =~= before.push(v.deep_view()));
        }
        i += 1;
    }
    assert(all.take(i as int) =~= all);
    r
}

/// Whether a fix can be named for a finding.
pub open spec fn fixable(f: VulnFindingM) -> bool {
    floors_of(patched_of(f)).len() > 0
}

fn is_fixable(f: &VulnFinding) -> (r: bool)
    ensures
        r == fixable(f.deep_view()),
{
    let v = floors(&finding_patched(f));
    assert(v.deep_view().len() == v.len());
    v.len() > 0
}

/// The installed versions of the vulnerable occurrences, where they are known.
pub open spec fn installed_of(s: Seq<OccurrenceM>) -> Seq<VersionM>
    decreases s.len(),
{
    if s.len() == 0 {
        Seq::empty()
    } else {
        let front = installed_of(s.drop_last());
        if finding::vulnerable(s.last()) {
            match s.last() {
                OccurrenceM::InRepo { installed, .. } => front.push(installed),
                OccurrenceM::Toolchain { installed, .. } => match installed {
                    Some(v) => front.push(v),
                    None => front,
                },
            }
        } else {
            front
        }
    }
}

fn installed_versions(f: &VulnFinding) -> (r: Vec<Version>)
    ensures
        r.deep_view() == installed_of(f.deep_view().occurrences),
{
    let ghost all = f.occurrences.deep_view();
    let mut r: Vec<Version> = Vec::new();
    let mut i: usize = 0;
    proof {
        assert(all.take(0) =~= Seq::empty());
        assert(r.deep_view() =~= Seq::empty());
    }
    while i < f.occurrences.len()
        invariant
            i <= f.occurrences.len(),
            all == f.occurrences.deep_view(),
            r.deep_view() == installed_of(all.take(i as int)),
        decreases f.occurrences.len() - i,
    {
        proof {
            assert(all.take(i + 1).drop_last() =~= all.take(i as int));
        }
        if f.occurrences[i].is_vulnerable() {
            let ghost before = r.deep_view();
            match &f.occurrences[i] {
                Occurrence::InRepo { installed, .. } => {
                    let v = installed.clone();
                    r.push(v);
                    assert(r.deep_view() =~= before.push(v.deep_view()));
                },
                Occurrence::Toolchain { installed, .. } => {
                    if let Some(x) = installed {
                        let v = x.clone();
                        r.push(v);
                        assert(r.deep_view() =~= before.push(v.deep_view()));
                    }
                },
            }
        }
        i += 1;
    }
    assert(all.take(i as int) =~= all);
    r
}

/// The repositories of the vulnerable occurrences.
pub open spec fn repos_of(s: Seq<OccurrenceM>) -> Seq<Seq<char>>
    decreases s.len(),
{
    if s.len() == 0 {
        Seq::empty()
    } else {
        let front = repos_of(s.drop_last());
        if finding::vulnerable(s.last()) {
            match s.last() {
                OccurrenceM::InRepo { repo, .. } => front.push(repo),
                OccurrenceM::Toolchain { .. } => front,
            }
        } else {
            front
        }
    }
}

fn repo_ids(f: &VulnFinding) -> (r: Vec<String>)
    ensures
        r.deep_view() == repos_of(f.deep_view().occurrences),
        r.len() <= f.occurrences.len(),
{
    let ghost all = f.occurrences.deep_view();
    let mut r: Vec<String> = Vec::new();
    let mut i: usize = 0;
    proof {
        assert(all.take(0) =~= Seq::empty());
        assert(r.deep_view() =~= Seq::empty());
    }
    while i < f.occurrences.len()
        invariant
            i <= f.occurrences.len(),
            all == f.occurrences.deep_view(),
            r.len() <= i,
            r.deep_view() == repos_of(all.take(i as int)),
        decreases f.occurrences.len() - i,
    {
        proof {
            assert(all.take(i + 1).drop_last() =~= all.take(i as int));
        }
        if f.occurrences[i].is_vulnerable() {
            match &f.occurrences[i] {
                Occurrence::InRepo { repo, .. } => {
                    let ghost before = r.deep_view();
                    let id = repo.0.clone();
                    r.push(id);
                    assert(r.deep_view() =~= before.push(id@));
                },
                Occurrence::Toolchain { .. } => {},
            }
        }
        i += 1;
    }
    assert(all.take(i as int) =~= all);
    r
}

pub open spec fn tier_of(f: VulnFindingM) -> ReachTier {
    match f.reachability {
        Some(r) => match r.verdict {
            ReachVerdictM::Reachable { .. } => ReachTier::Reachable,
            ReachVerdictM::NotReachable => ReachTier::NotReachable,
            ReachVerdictM::Unknown { .. } => ReachTier::Unknown,
        },
        None => ReachTier::Unknown,
    }
}

fn finding_reach(f: &VulnFinding) -> (r: ReachTier)
    ensures
        r == tier_of(f.deep_view()),
{
    match &f.reachability {
        Some(r) => match &r.verdict {
            ReachVerdict::Reachable { .. } => ReachTier::Reachable,
            ReachVerdict::NotReachable => ReachTier::NotReachable,
            ReachVerdict::Unknown { .. } => ReachTier::Unknown,
        },
        None => ReachTier::Unknown,
    }
}

// --- What is known of a group ---

/// Any that is reachable makes the group so; else any that is undecided leaves it undecided;
/// it is unreachable only where all are.
pub open spec fn tier_of_all(s: Seq<VulnFindingM>) -> ReachTier {
    if exists|i: int| 0 <= i < s.len() && tier_of(#[trigger] s[i]) == ReachTier::Reachable {
        ReachTier::Reachable
    } else if exists|i: int| 0 <= i < s.len() && tier_of(#[trigger] s[i]) == ReachTier::Unknown {
        ReachTier::Unknown
    } else {
        ReachTier::NotReachable
    }
}

fn collapse_reach(findings: &Vec<VulnFinding>) -> (r: ReachTier)
    ensures
        r == tier_of_all(findings.deep_view()),
{
    let ghost all = findings.deep_view();
    let mut tier: ReachTier = ReachTier::NotReachable;
    let mut i: usize = 0;
    while i < findings.len()
        invariant
            i <= findings.len(),
            all == findings.deep_view(),
            forall|j: int| 0 <= j < i ==> tier_of(#[trigger] all[j]) != ReachTier::Reachable,
            tier != ReachTier::Reachable,
            tier == ReachTier::Unknown ==> exists|j: int|
                0 <= j < i && tier_of(#[trigger] all[j]) == ReachTier::Unknown,
            tier == ReachTier::NotReachable ==> forall|j: int|
                0 <= j < i ==> tier_of(#[trigger] all[j]) == ReachTier::NotReachable,
        decreases findings.len() - i,
    {
        assert(all[i as int] == findings[i as int].deep_view());
        match finding_reach(&findings[i]) {
            ReachTier::Reachable => {
                assert(tier_of(all[i as int]) == ReachTier::Reachable);
                return ReachTier::Reachable;
            },
            ReachTier::Unknown => {
                assert(tier_of(all[i as int]) == ReachTier::Unknown);
                tier = ReachTier::Unknown;
            },
            ReachTier::NotReachable => {},
        }
        i += 1;
    }
    tier
}

pub open spec fn ids_of(s: Seq<VulnFindingM>) -> Seq<Seq<char>> {
    Seq::new(s.len(), |i: int| s[i].advisory_id)
}

pub open spec fn installed_of_all(s: Seq<VulnFindingM>) -> Seq<VersionM>
    decreases s.len(),
{
    if s.len() == 0 {
        Seq::empty()
    } else {
        installed_of_all(s.drop_last()) + installed_of(s.last().occurrences)
    }
}

pub open spec fn repos_of_all(s: Seq<VulnFindingM>) -> Seq<Seq<char>>
    decreases s.len(),
{
    if s.len() == 0 {
        Seq::empty()
    } else {
        repos_of_all(s.drop_last()) + repos_of(s.last().occurrences)
    }
}

pub open spec fn vuln_count_of_all(s: Seq<VulnFindingM>) -> nat
    decreases s.len(),
{
    if s.len() == 0 {
        0
    } else {
        vuln_count_of_all(s.drop_last()) + vuln_count(s.last().occurrences)
    }
}

/// The greater of two scores that may be missing.
pub open spec fn greater_opt(a: Option<Score>, b: Option<Score>) -> Option<Score> {
    match a {
        None => b,
        Some(x) => match b {
            None => a,
            Some(y) => Some(score::greater(x, y)),
        },
    }
}

pub open spec fn max_epss_of(s: Seq<VulnFindingM>) -> Option<Score>
    decreases s.len(),
{
    if s.len() == 0 {
        None
    } else {
        greater_opt(max_epss_of(s.drop_last()), s.last().exploit.epss)
    }
}

pub open spec fn max_cvss_of(s: Seq<VulnFindingM>) -> Option<Score>
    decreases s.len(),
{
    if s.len() == 0 {
        None
    } else {
        greater_opt(max_cvss_of(s.drop_last()), s.last().cvss_score)
    }
}

pub open spec fn any_kev(s: Seq<VulnFindingM>) -> bool {
    exists|i: int| 0 <= i < s.len() && (#[trigger] s[i]).exploit.kev
}

/// The distinct versions, ascending.
pub open spec fn version_set(s: Seq<VersionM>) -> Seq<VersionM> {
    order::without_repeats(order::in_order::<ByVersion>(s))
}

/// One action for a group of findings.
pub open spec fn item_of(
    ecosystem: Ecosystem,
    package: Seq<char>,
    s: Seq<VulnFindingM>,
    action: ActionM,
) -> RemediationItemM {
    RemediationItemM {
        package,
        ecosystem,
        current: version_set(installed_of_all(s)),
        advisories: value::text_set(ids_of(s)),
        action,
        reach: tier_of_all(s),
        repos: value::text_set(repos_of_all(s)).len() as usize,
        occurrences: vuln_count_of_all(s) as usize,
        max_severity: report::max_severity_m(s),
        kev: any_kev(s),
        max_epss: max_epss_of(s),
        max_cvss: max_cvss_of(s),
    }
}

fn join_scores(a: Option<Score>, b: Option<Score>) -> (r: Option<Score>)
    ensures
        r == greater_opt(a, b),
{
    match a {
        None => b,
        Some(x) => match b {
            None => a,
            Some(y) => Some(x.max_of(y)),
        },
    }
}

fn all_installed(s: &Vec<VulnFinding>) -> (r: Vec<Version>)
    ensures
        r.deep_view() == installed_of_all(s.deep_view()),
{
    let ghost all = s.deep_view();
    let mut r: Vec<Version> = Vec::new();
    let mut i: usize = 0;
    proof {
        assert(all.take(0) =~= Seq::empty());
        assert(r.deep_view() =~= Seq::empty());
    }
    while i < s.len()
        invariant
            i <= s.len(),
            all == s.deep_view(),
            r.deep_view() == installed_of_all(all.take(i as int)),
        decreases s.len() - i,
    {
        proof {
            assert(all.take(i + 1).drop_last() =~= all.take(i as int));
        }
        value::append(&mut r, installed_versions(&s[i]));
        i += 1;
    }
    assert(all.take(i as int) =~= all);
    r
}

proof fn lemma_vuln_count_grows(s: Seq<VulnFindingM>, i: int)
    requires
        0 <= i <= s.len(),
    ensures
        vuln_count_of_all(s.take(i)) <= vuln_count_of_all(s),
    decreases s.len() - i,
{
    if i < s.len() {
        lemma_vuln_count_grows(s, i + 1);
        assert(s.take(i + 1).drop_last() =~= s.take(i));
    } else {
        assert(s.take(i) =~= s);
    }
}

fn build_item(
    ecosystem: Ecosystem,
    package: &str,
    subset: &Vec<VulnFinding>,
    action: Action,
) -> (r: RemediationItem)
    requires
        vuln_count_of_all(subset.deep_view()) <= usize::MAX,
    ensures
        r.deep_view() == item_of(ecosystem, package@, subset.deep_view(), action.deep_view()),
{
    let ghost all = subset.deep_view();
    let mut ids: Vec<String> = Vec::new();
    let mut repos: Vec<String> = Vec::new();
    let mut occurrences: usize = 0;
    let mut kev: bool = false;
    let mut max_epss: Option<Score> = None;
    let mut max_cvss: Option<Score> = None;
    let mut i: usize = 0;
    proof {
        assert(all.take(0) =~= Seq::empty());
        assert(ids.deep_view() =~= ids_of(all.take(0)));
        assert(repos.deep_view() =~= Seq::empty());
    }
    while i < subset.len()
        invariant
            i <= subset.len(),
            all == subset.deep_view(),
            vuln_count_of_all(all) <= usize::MAX,
            ids.deep_view() == ids_of(all.take(i as int)),
            repos.deep_view() == repos_of_all(all.take(i as int)),
            occurrences == vuln_count_of_all(all.take(i as int)),
            kev == any_kev(all.take(i as int)),
            max_epss == max_epss_of(all.take(i as int)),
            max_cvss == max_cvss_of(all.take(i as int)),
        decreases subset.len() - i,
    {
        let f = &subset[i];
        let ghost now = all.take(i as int);
        let ghost next = all.take(i + 1);
        proof {
            assert(next.drop_last() =~= now);
            assert(next.last() == f.deep_view());
            lemma_vuln_count_grows(all, i + 1);
        }
        let ghost before = ids.deep_view();
        let id: String = f.advisory_id.clone();
        ids.push(id);
        proof {
            assert(ids.deep_view() =~= before.push(id@));
            assert(ids_of(next) =~= ids_of(now).push(id@));
        }
        value::append(&mut repos, repo_ids(f));
        occurrences = occurrences + vuln_occ_count(f);
        let had: bool = kev;
        kev = kev || f.exploit.kev;
        proof {
            if had {
                let j = choose|j: int| 0 <= j < now.len() && (#[trigger] now[j]).exploit.kev;
                assert(next[j].exploit.kev);
            }
            if f.exploit.kev {
                assert(next[i as int].exploit.kev);
            }
            if any_kev(next) {
                let j = choose|j: int| 0 <= j < next.len() && (#[trigger] next[j]).exploit.kev;
                if j < i {
                    assert(now[j].exploit.kev);
                }
            }
        }
        max_epss = join_scores(max_epss, f.exploit.epss);
        max_cvss = join_scores(max_cvss, f.cvss_score);
        i += 1;
    }
    assert(all.take(i as int) =~= all);
    let repo_set: Vec<String> = value::sort_texts(repos);
    assert(repo_set.deep_view().len() == repo_set.len());
    let current: Vec<Version> = value::dedup(order::sort::<ByVersion>(all_installed(subset)));
    RemediationItem {
        package: package.to_owned(),
        ecosystem,
        current,
        advisories: value::sort_texts(ids),
        action,
        reach: collapse_reach(subset),
        repos: repo_set.len(),
        occurrences,
        max_severity: report::max_severity_of(subset),
        kev,
        max_epss,
        max_cvss,
    }
}

/// The highest version.
pub open spec fn highest(s: Seq<VersionM>) -> Option<VersionM>
    decreases s.len(),
{
    if s.len() == 0 {
        None
    } else {
        match highest(s.drop_last()) {
            Some(h) => Some(
                if version::version_lt(s.last(), h) {
                    h
                } else {
                    s.last()
                },
            ),
            None => Some(s.last()),
        }
    }
}

fn highest_version(s: &Vec<Version>) -> (r: Option<Version>)
    ensures
        r.deep_view() == highest(s.deep_view()),
{
    let ghost all = s.deep_view();
    let mut r: Option<Version> = None;
    let mut i: usize = 0;
    assert(all.take(0) =~= Seq::empty());
    while i < s.len()
        invariant
            i <= s.len(),
            all == s.deep_view(),
            r.deep_view() == highest(all.take(i as int)),
        decreases s.len() - i,
    {
        proof {
            assert(all.take(i + 1).drop_last() =~= all.take(i as int));
        }
        let keep: bool = match &r {
            Some(h) => s[i].before(h),
            None => false,
        };
        if !keep {
            r = Some(s[i].clone());
        }
        i += 1;
    }
    assert(all.take(i as int) =~= all);
    r
}

/// Whether going from `from` to `to` crosses a compatibility boundary: another major number,
/// or another minor number below major one.
pub open spec fn crosses(from: VersionM, to: VersionM) -> bool {
    to.major != from.major || (to.major == 0 && to.minor != from.minor)
}

pub open spec fn upgrade_to(s: Seq<VulnFindingM>, to: VersionM) -> ActionM {
    ActionM::Upgrade {
        to,
        breaking: match highest(installed_of_all(s)) {
            Some(c) => crosses(c, to),
            None => false,
        },
    }
}

fn upgrade_action(subset: &Vec<VulnFinding>, to: &Version) -> (r: Action)
    ensures
        r.deep_view() == upgrade_to(subset.deep_view(), to.deep_view()),
{
    let breaking: bool = match highest_version(&all_installed(subset)) {
        Some(c) => to.major() != c.major() || (to.major() == 0 && to.minor() != c.minor()),
        None => false,
    };
    Action::Upgrade { to: to.clone(), breaking }
}

// --- The queue ---

/// The highest installed version of a group, or `0.0.0`.
pub open spec fn base_of(s: Seq<VulnFindingM>) -> VersionM {
    match highest(installed_of_all(s)) {
        Some(v) => v,
        None => version::release(0, 0, 0),
    }
}

/// The floors of all findings.
pub open spec fn floors_of_all(s: Seq<VulnFindingM>) -> Seq<VersionM>
    decreases s.len(),
{
    if s.len() == 0 {
        Seq::empty()
    } else {
        floors_of_all(s.drop_last()) + floors_of(patched_of(s.last()))
    }
}

/// Whether one version is safe for every finding.
pub open spec fn safe_for_all(s: Seq<VulnFindingM>, v: VersionM) -> bool {
    forall|i: int| 0 <= i < s.len() ==> finding::safe(patched_of(#[trigger] s[i]), v)
}

/// Whether a version clears every finding and is not below any version that they were found
/// at.
pub open spec fn forward_fix(s: Seq<VulnFindingM>) -> spec_fn(VersionM) -> bool {
    |v: VersionM| !version::version_lt(v, base_of(s)) && safe_for_all(s, v)
}

/// The version to go to for a group: the least floor that is safe for every finding and not
/// below what is installed, so that no downgrade is advised. Only where every floor is below
/// that is it the highest floor, if that one is safe for all. Where there is none the group
/// shares no fix.
pub open spec fn target_of(s: Seq<VulnFindingM>) -> Option<VersionM> {
    match highest(floors_of_all(s)) {
        None => None,
        Some(h) => if !version::version_lt(h, base_of(s)) {
            least_where(floors_of_all(s), forward_fix(s))
        } else if safe_for_all(s, h) {
            Some(h)
        } else {
            None
        },
    }
}

/// One action per finding.
pub open spec fn single_items(
    ecosystem: Ecosystem,
    package: Seq<char>,
    s: Seq<VulnFindingM>,
) -> Seq<RemediationItemM>
    decreases s.len(),
{
    if s.len() == 0 {
        Seq::empty()
    } else {
        let front = single_items(ecosystem, package, s.drop_last());
        let one = seq![s.last()];
        match target_of(one) {
            Some(t) => front.push(item_of(ecosystem, package, one, upgrade_to(one, t))),
            None => front,
        }
    }
}

/// The actions for findings with a fix: one for all where one version is safe for all, else
/// one each.
pub open spec fn fixable_items(
    ecosystem: Ecosystem,
    package: Seq<char>,
    s: Seq<VulnFindingM>,
) -> Seq<RemediationItemM> {
    match target_of(s) {
        Some(c) => seq![item_of(ecosystem, package, s, upgrade_to(s, c))],
        None => single_items(ecosystem, package, s),
    }
}

pub open spec fn is_fixable_m() -> spec_fn(VulnFindingM) -> bool {
    |f: VulnFindingM| fixable(f)
}

pub open spec fn is_unfixable_m() -> spec_fn(VulnFindingM) -> bool {
    |f: VulnFindingM| !fixable(f)
}

/// The actions for the findings on one package.
#[verifier::opaque]
pub open spec fn package_items(
    ecosystem: Ecosystem,
    package: Seq<char>,
    s: Seq<VulnFindingM>,
) -> Seq<RemediationItemM> {
    let with_fix = s.filter(is_fixable_m());
    let without = s.filter(is_unfixable_m());
    (if without.len() == 0 {
        Seq::empty()
    } else {
        seq![item_of(ecosystem, package, without, ActionM::NoFixAvailable)]
    }) + (if with_fix.len() == 0 {
        Seq::empty()
    } else {
        fixable_items(ecosystem, package, with_fix)
    })
}

/// Findings by ecosystem, then by package.
pub struct ByTarget;

impl Order for ByTarget {
    type M = VulnFindingM;

    type Item = VulnFinding;

    open spec fn key(m: VulnFindingM) -> Seq<int> {
        seq![finding::ecosystem_rank(m.ecosystem)] + correlate::opt_key(package_of(m))
    }

    fn rel(a: &VulnFinding, b: &VulnFinding) -> (r: Rel) {
        let x: u8 = a.ecosystem.rank();
        let y: u8 = b.ecosystem.rank();
        proof {
            correlate::lemma_number_first(
                x as int,
                y as int,
                correlate::opt_key(package_of(a.deep_view())),
                correlate::opt_key(package_of(b.deep_view())),
            );
            assert(a.deep_view().ecosystem == a.ecosystem);
            assert(b.deep_view().ecosystem == b.ecosystem);
        }
        if x < y {
            Rel::Less
        } else if x > y {
            Rel::Greater
        } else {
            correlate::rel_opt(&finding_package(a), &finding_package(b))
        }
    }
}

/// The key of a list of texts: text by text, a list before every longer one that starts with
/// it.
pub open spec fn texts_key(s: Seq<Seq<char>>) -> Seq<int>
    decreases s.len(),
{
    if s.len() == 0 {
        seq![0int]
    } else {
        seq![1int] + (text::text_key(s[0]) + texts_key(s.drop_first()))
    }
}

fn rel_texts(a: &Vec<String>, b: &Vec<String>) -> (r: Rel)
    ensures
        r == order::rel_of(texts_key(a.deep_view()), texts_key(b.deep_view())),
{
    let ghost x = a.deep_view();
    let ghost y = b.deep_view();
    let mut i: usize = 0;
    proof {
        assert(x.skip(0) =~= x);
        assert(y.skip(0) =~= y);
    }
    while i < a.len() && i < b.len()
        invariant
            i <= a.len(),
            i <= b.len(),
            x == a.deep_view(),
            y == b.deep_view(),
            order::rel_of(texts_key(x), texts_key(y)) == order::rel_of(
                texts_key(x.skip(i as int)),
                texts_key(y.skip(i as int)),
            ),
        decreases a.len() - i,
    {
        proof {
            let s = x.skip(i as int);
            let t = y.skip(i as int);
            assert(s.drop_first() =~= x.skip(i + 1));
            assert(t.drop_first() =~= y.skip(i + 1));
            assert(s[0] == a[i as int]@ && t[0] == b[i as int]@);
            correlate::lemma_number_first(
                1,
                1,
                text::text_key(s[0]) + texts_key(s.drop_first()),
                text::text_key(t[0]) + texts_key(t.drop_first()),
            );
            correlate::lemma_text_first(
                s[0],
                t[0],
                texts_key(s.drop_first()),
                texts_key(t.drop_first()),
            );
        }
        match text::rel_text(a[i].as_str(), b[i].as_str()) {
            Rel::Equal => {},
            r => {
                return r;
            },
        }
        i += 1;
    }
    proof {
        let s = x.skip(i as int);
        let t = y.skip(i as int);
        let e = Seq::<int>::empty();
        assert(seq![0int] =~= seq![0int] + e);
        if s.len() == 0 && t.len() == 0 {
            correlate::lemma_number_first(0, 0, e, e);
        } else if s.len() == 0 {
            correlate::lemma_number_first(
                0,
                1,
                e,
                text::text_key(t[0]) + texts_key(t.drop_first()),
            );
        } else {
            correlate::lemma_number_first(
                1,
                0,
                text::text_key(s[0]) + texts_key(s.drop_first()),
                e,
            );
        }
    }
    if i < b.len() {
        Rel::Less
    } else if i < a.len() {
        Rel::Greater
    } else {
        Rel::Equal
    }
}

/// Actions by package, then by ecosystem, then by what they resolve.
pub struct ByAction;

impl Order for ByAction {
    type M = RemediationItemM;

    type Item = RemediationItem;

    open spec fn key(m: RemediationItemM) -> Seq<int> {
        text::text_key(m.package) + (seq![finding::ecosystem_rank(m.ecosystem)] + texts_key(
            m.advisories,
        ))
    }

    fn rel(a: &RemediationItem, b: &RemediationItem) -> (r: Rel) {
        let x: u8 = a.ecosystem.rank();
        let y: u8 = b.ecosystem.rank();
        proof {
            let am = a.deep_view();
            let bm = b.deep_view();
            correlate::lemma_text_first(
                am.package,
                bm.package,
                seq![x as int] + texts_key(am.advisories),
                seq![y as int] + texts_key(bm.advisories),
            );
            correlate::lemma_number_first(
                x as int,
                y as int,
                texts_key(am.advisories),
                texts_key(bm.advisories),
            );
            assert(am.ecosystem == a.ecosystem && bm.ecosystem == b.ecosystem);
        }
        match text::rel_text(a.package.as_str(), b.package.as_str()) {
            Rel::Equal => if x < y {
                Rel::Less
            } else if x > y {
                Rel::Greater
            } else {
                rel_texts(&a.advisories, &b.advisories)
            },
            r => r,
        }
    }
}

pub open spec fn needs_work() -> spec_fn(VulnFindingM) -> bool {
    |f: VulnFindingM| vuln_count(f.occurrences) > 0
}

/// The actions of all groups.
pub open spec fn items_of_groups(groups: Seq<Seq<VulnFindingM>>) -> Seq<RemediationItemM>
    decreases groups.len(),
{
    if groups.len() == 0 {
        Seq::empty()
    } else {
        let g = groups.last();
        items_of_groups(groups.drop_last()) + package_items(
            g[0].ecosystem,
            package_of(g[0])->0,
            g,
        )
    }
}

/// The queue of actions: the findings with a vulnerable occurrence, by ecosystem and package,
/// each group with its actions, in the order of the actions.
pub open spec fn remediations_m(vulns: Seq<VulnFindingM>) -> Seq<RemediationItemM> {
    order::in_order::<ByAction>(
        items_of_groups(order::groups::<ByTarget>(vulns.filter(needs_work()))),
    )
}

fn single(f: &VulnFinding) -> (r: Vec<VulnFinding>)
    ensures
        r.deep_view() == seq![f.deep_view()],
{
    let mut r: Vec<VulnFinding> = Vec::new();
    let c = f.copy();
    r.push(c);
    assert(r.deep_view() =~= seq![f.deep_view()]);
    r
}

fn base_version(s: &Vec<VulnFinding>) -> (r: Version)
    ensures
        r.deep_view() == base_of(s.deep_view()),
{
    match highest_version(&all_installed(s)) {
        Some(v) => v,
        None => Version::new(0, 0, 0),
    }
}

fn all_floors(s: &Vec<VulnFinding>) -> (r: Vec<Version>)
    ensures
        r.deep_view() == floors_of_all(s.deep_view()),
{
    let ghost all = s.deep_view();
    let mut r: Vec<Version> = Vec::new();
    let mut i: usize = 0;
    proof {
        assert(all.take(0) =~= Seq::empty());
        assert(r.deep_view() =~= Seq::empty());
    }
    while i < s.len()
        invariant
            i <= s.len(),
            all == s.deep_view(),
            r.deep_view() == floors_of_all(all.take(i as int)),
        decreases s.len() - i,
    {
        proof {
            assert(all.take(i + 1).drop_last() =~= all.take(i as int));
        }
        value::append(&mut r, floors(&finding_patched(&s[i])));
        i += 1;
    }
    assert(all.take(i as int) =~= all);
    r
}

fn is_safe_for_all(s: &Vec<VulnFinding>, v: &Version) -> (r: bool)
    ensures
        r == safe_for_all(s.deep_view(), v.deep_view()),
{
    let ghost all = s.deep_view();
    let mut i: usize = 0;
    while i < s.len()
        invariant
            i <= s.len(),
            all == s.deep_view(),
            forall|j: int|
                0 <= j < i ==> finding::safe(patched_of(#[trigger] all[j]), v.deep_view()),
        decreases s.len() - i,
    {
        if !finding::is_safe(&finding_patched(&s[i]), v) {
            assert(!finding::safe(patched_of(all[i as int]), v.deep_view()));
            return false;
        }
        i += 1;
    }
    true
}

fn group_target(s: &Vec<VulnFinding>) -> (r: Option<Version>)
    ensures
        r.deep_view() == target_of(s.deep_view()),
{
    let base: Version = base_version(s);
    let all: Vec<Version> = all_floors(s);
    let top: Version = match highest_version(&all) {
        Some(h) => h,
        None => {
            return None;
        },
    };
    if top.before(&base) {
        return if is_safe_for_all(s, &top) {
            Some(top)
        } else {
            None
        };
    }
    let list: Vec<Version> = order::sort::<ByVersion>(all);
    let ghost p = forward_fix(s.deep_view());
    let ghost m = list.deep_view();
    let mut i: usize = 0;
    assert(m.skip(0) =~= m);
    while i < list.len()
        invariant
            i <= list.len(),
            m == list.deep_view(),
            m == order::in_order::<ByVersion>(floors_of_all(s.deep_view())),
            p == forward_fix(s.deep_view()),
            base.deep_view() == base_of(s.deep_view()),
            target_of(s.deep_view()) == first_where(m, p),
            first_where(m, p) == first_where(m.skip(i as int), p),
        decreases list.len() - i,
    {
        proof {
            assert(m.skip(i as int)[0] == list[i as int].deep_view());
            assert(m.skip(i as int).drop_first() =~= m.skip(i + 1));
        }
        if !list[i].before(&base) && is_safe_for_all(s, &list[i]) {
            return Some(list[i].clone());
        }
        i += 1;
    }
    None
}

fn plan_single(
    ecosystem: Ecosystem,
    package: &str,
    s: &Vec<VulnFinding>,
) -> (r: Vec<RemediationItem>)
    requires
        vuln_count_of_all(s.deep_view()) <= usize::MAX,
    ensures
        r.deep_view() == single_items(ecosystem, package@, s.deep_view()),
{
    let ghost all = s.deep_view();
    let mut r: Vec<RemediationItem> = Vec::new();
    let mut i: usize = 0;
    proof {
        assert(all.take(0) =~= Seq::empty());
        assert(r.deep_view() =~= Seq::empty());
    }
    while i < s.len()
        invariant
            i <= s.len(),
            all == s.deep_view(),
            vuln_count_of_all(all) <= usize::MAX,
            r.deep_view() == single_items(ecosystem, package@, all.take(i as int)),
        decreases s.len() - i,
    {
        proof {
            assert(all.take(i + 1).drop_last() =~= all.take(i as int));
            lemma_vuln_count_grows(all, i + 1);
        }
        let one: Vec<VulnFinding> = single(&s[i]);
        proof {
            assert(seq![all[i as int]].drop_last() =~= Seq::empty());
            assert(vuln_count_of_all(seq![all[i as int]]) == vuln_count(
                all[i as int].occurrences,
            )) by {
                reveal_with_fuel(vuln_count_of_all, 2);
            }
        }
        if let Some(t) = group_target(&one) {
            let action = upgrade_action(&one, &t);
            let item = build_item(ecosystem, package, &one, action);
            let ghost before = r.deep_view();
            r.push(item);
            assert(r.deep_view() =~= before.push(item.deep_view()));
        }
        i += 1;
    }
    assert(all.take(i as int) =~= all);
    r
}

fn plan_package(
    ecosystem: Ecosystem,
    package: &str,
    findings: Vec<VulnFinding>,
) -> (r: Vec<RemediationItem>)
    requires
        vuln_count_of_all(findings.deep_view()) <= usize::MAX,
    ensures
        r.deep_view() == package_items(ecosystem, package@, findings.deep_view()),
{
    let ghost all = findings.deep_view();
    let mut with_fix: Vec<VulnFinding> = Vec::new();
    let mut without: Vec<VulnFinding> = Vec::new();
    let ghost mut n: int = 0;
    proof {
        reveal(Seq::filter);
        reveal(package_items);
        assert(all.take(0) =~= Seq::empty());
        assert(with_fix.deep_view() =~= all.take(0).filter(is_fixable_m()));
        assert(without.deep_view() =~= all.take(0).filter(is_unfixable_m()));
    }
    for f in it: findings
        invariant
            it.seq() == findings@,
            all == findings.deep_view(),
            n == it.index(),
            n <= all.len(),
            with_fix.deep_view() == all.take(n).filter(is_fixable_m()),
            without.deep_view() == all.take(n).filter(is_unfixable_m()),
    {
        proof {
            assert(all.take(n + 1) =~= all.take(n).push(f.deep_view()));
            all.take(n).lemma_filter_push(f.deep_view(), is_fixable_m());
            all.take(n).lemma_filter_push(f.deep_view(), is_unfixable_m());
        }
        if is_fixable(&f) {
            let ghost before = with_fix.deep_view();
            with_fix.push(f);
            assert(with_fix.deep_view() =~= before.push(f.deep_view()));
        } else {
            let ghost before = without.deep_view();
            without.push(f);
            assert(without.deep_view() =~= before.push(f.deep_view()));
        }
        proof {
            n = n + 1;
        }
    }
    proof {
        assert(all.take(n) =~= all);
        lemma_filter_count(all, is_fixable_m());
        lemma_filter_count(all, is_unfixable_m());
        assert(with_fix.deep_view().len() == with_fix.len());
        assert(without.deep_view().len() == without.len());
    }
    let mut items: Vec<RemediationItem> = Vec::new();
    if without.len() > 0 {
        let item = build_item(ecosystem, package, &without, Action::NoFixAvailable);
        items.push(item);
        assert(items.deep_view() =~= seq![item.deep_view()]);
    } else {
        assert(items.deep_view() =~= Seq::empty());
    }
    if with_fix.len() == 0 {
        assert(items.deep_view() =~= package_items(ecosystem, package@, all));
        return items;
    }
    match group_target(&with_fix) {
        Some(c) => {
            let action = upgrade_action(&with_fix, &c);
            let item = build_item(ecosystem, package, &with_fix, action);
            let ghost before = items.deep_view();
            items.push(item);
            assert(items.deep_view() =~= before + seq![item.deep_view()]);
        },
        None => {
            value::append(&mut items, plan_single(ecosystem, package, &with_fix));
        },
    }
    items
}

proof fn lemma_filter_count(s: Seq<VulnFindingM>, p: spec_fn(VulnFindingM) -> bool)
    ensures
        vuln_count_of_all(s.filter(p)) <= vuln_count_of_all(s),
    decreases s.len(),
{
    reveal(Seq::filter);
    if s.len() > 0 {
        lemma_filter_count(s.drop_last(), p);
        if p(s.last()) {
            let t = s.drop_last().filter(p).push(s.last());
            assert(t.drop_last() =~= s.drop_last().filter(p));
        }
    }
}

proof fn lemma_count_concat(a: Seq<VulnFindingM>, b: Seq<VulnFindingM>)
    ensures
        vuln_count_of_all(a + b) == vuln_count_of_all(a) + vuln_count_of_all(b),
    decreases b.len(),
{
    if b.len() == 0 {
        assert(a + b =~= a);
    } else {
        assert((a + b).drop_last() =~= a + b.drop_last());
        lemma_count_concat(a, b.drop_last());
    }
}

proof fn lemma_count_of_group(s: Seq<VulnFindingM>, k: Seq<int>)
    ensures
        vuln_count_of_all(order::with_key::<ByTarget>(s, k)) <= vuln_count_of_all(s),
{
    lemma_filter_count(s, order::key_is::<ByTarget>(k));
}

/// The queue of actions for a report: findings on one package share one action where one
/// version is safe for all of them.
pub fn remediations(report: &FleetReport) -> (r: Vec<RemediationItem>)
    requires
        vuln_count_of_all(report.deep_view().vulnerabilities) <= usize::MAX,
    ensures
        r.deep_view() == remediations_m(report.deep_view().vulnerabilities),
{
    let ghost all = report.vulnerabilities.deep_view();
    let mut work: Vec<VulnFinding> = Vec::new();
    let mut i: usize = 0;
    proof {
        reveal(Seq::filter);
        assert(all.take(0) =~= Seq::empty());
        assert(work.deep_view() =~= all.take(0).filter(needs_work()));
    }
    while i < report.vulnerabilities.len()
        invariant
            i <= report.vulnerabilities.len(),
            all == report.vulnerabilities.deep_view(),
            work.deep_view() == all.take(i as int).filter(needs_work()),
        decreases report.vulnerabilities.len() - i,
    {
        let f = &report.vulnerabilities[i];
        proof {
            assert(all.take(i + 1) =~= all.take(i as int).push(f.deep_view()));
            all.take(i as int).lemma_filter_push(f.deep_view(), needs_work());
        }
        if vuln_occ_count(f) > 0 {
            let ghost before = work.deep_view();
            let c = f.copy();
            work.push(c);
            assert(work.deep_view() =~= before.push(c.deep_view()));
        }
        i += 1;
    }
    let ghost todo = work.deep_view();
    proof {
        assert(all.take(i as int) =~= all);
        lemma_filter_count(all, needs_work());
        order::lemma_groups::<ByTarget>(todo);
    }
    let groups: Vec<Vec<VulnFinding>> = order::group::<ByTarget>(work);
    let ghost gs = groups.deep_view();
    let mut items: Vec<RemediationItem> = Vec::new();
    let ghost mut n: int = 0;
    proof {
        assert(gs.take(0) =~= Seq::empty());
        assert(items.deep_view() =~= Seq::empty());
    }
    for g in it: groups
        invariant
            it.seq() == groups@,
            gs == groups.deep_view(),
            gs == order::groups::<ByTarget>(todo),
            todo == all.filter(needs_work()),
            vuln_count_of_all(todo) <= usize::MAX,
            forall|i: int|
                0 <= i < gs.len() ==> order::one_key::<ByTarget>(#[trigger] gs[i]) && gs[i]
                    == order::with_key::<ByTarget>(todo, order::group_key::<ByTarget>(gs[i])),
            n == it.index(),
            n <= gs.len(),
            items.deep_view() == items_of_groups(gs.take(n)),
    {
        proof {
            assert(gs.take(n + 1).drop_last() =~= gs.take(n));
            assert(gs.take(n + 1).last() == g.deep_view());
            assert(gs[n] == g.deep_view());
            assert(order::one_key::<ByTarget>(gs[n]));
            assert(g.deep_view().len() == g.len());
            lemma_count_of_group(todo, order::group_key::<ByTarget>(gs[n]));
            assert(g.deep_view()[0] == g[0].deep_view());
            lemma_work_has_package(all, gs[n], order::group_key::<ByTarget>(gs[n]));
        }
        let ecosystem: Ecosystem = g[0].ecosystem;
        let package: Option<String> = finding_package(&g[0]);
        match package {
            Some(p) => {
                value::append(&mut items, plan_package(ecosystem, p.as_str(), g));
            },
            None => {
                assert(false);
            },
        }
        proof {
            n = n + 1;
        }
    }
    assert(gs.take(n) =~= gs);
    order::sort::<ByAction>(items)
}

proof fn lemma_work_has_package(all: Seq<VulnFindingM>, g: Seq<VulnFindingM>, k: Seq<int>)
    requires
        g == order::with_key::<ByTarget>(all.filter(needs_work()), k),
        g.len() > 0,
    ensures
        package_of(g[0]) is Some,
        vuln_count(g[0].occurrences) > 0,
{
    let todo = all.filter(needs_work());
    assert(g.contains(g[0]));
    todo.lemma_filter_contains_rev(order::key_is::<ByTarget>(k), g[0]);
    let i = choose|i: int| 0 <= i < todo.len() && todo[i] == g[0];
    all.lemma_filter_pred(needs_work(), i);
    assert(needs_work()(g[0]));
}

// --- Laws ---

proof fn lemma_first_where(s: Seq<VersionM>, p: spec_fn(VersionM) -> bool)
    requires
        order::sorted::<ByVersion>(s),
    ensures
        first_where(s, p) matches Some(t) ==> p(t) && s.contains(t),
        forall|j: int|
            0 <= j < s.len() && p(#[trigger] s[j]) ==> (first_where(s, p) matches Some(t)
                && !version::version_lt(s[j], t)),
    decreases s.len(),
{
    if s.len() == 0 {
    } else if p(s[0]) {
        assert(s.contains(s[0]));
        assert forall|j: int| 0 <= j < s.len() implies !version::version_lt(#[trigger] s[j], s[0]) by {
            order::lemma_lex_total(version::version_key(s[j]), version::version_key(s[0]));
            if j > 0 {
                assert(order::lex_le(ByVersion::key(s[0]), ByVersion::key(s[j])));
            }
        }
    } else {
        let r = s.drop_first();
        assert forall|i: int, j: int| 0 <= i < j < r.len() implies order::lex_le(
            #[trigger] ByVersion::key(r[i]),
            #[trigger] ByVersion::key(r[j]),
        ) by {
            assert(order::lex_le(ByVersion::key(s[i + 1]), ByVersion::key(s[j + 1])));
        }
        lemma_first_where(r, p);
        if let Some(t) = first_where(r, p) {
            let i = choose|i: int| 0 <= i < r.len() && r[i] == t;
            assert(s[i + 1] == t);
        }
        assert forall|j: int| 0 <= j < s.len() && p(#[trigger] s[j]) implies (first_where(
            s,
            p,
        ) matches Some(t) && !version::version_lt(s[j], t)) by {
            assert(r[j - 1] == s[j]);
        }
    }
}

proof fn lemma_least_where(s: Seq<VersionM>, p: spec_fn(VersionM) -> bool)
    ensures
        least_where(s, p) matches Some(t) ==> p(t) && s.contains(t),
        forall|j: int|
            0 <= j < s.len() && p(#[trigger] s[j]) ==> (least_where(s, p) matches Some(t)
                && !version::version_lt(s[j], t)),
{
    let o = order::in_order::<ByVersion>(s);
    order::lemma_in_order::<ByVersion>(s);
    lemma_first_where(o, p);
    if let Some(t) = least_where(s, p) {
        order::lemma_in_order_contains::<ByVersion>(s, t);
    }
    assert forall|j: int| 0 <= j < s.len() && p(#[trigger] s[j]) implies (least_where(
        s,
        p,
    ) matches Some(t) && !version::version_lt(s[j], t)) by {
        order::lemma_in_order_contains::<ByVersion>(s, s[j]);
        assert(s.contains(s[j]));
        let h = choose|h: int| 0 <= h < o.len() && o[h] == s[j];
        assert(p(o[h]));
    }
}

/// The floor of a requirement is a version that it permits, and no bound of it starts at a
/// smaller one that it permits.
pub proof fn floor_is_the_least_permitted(req: Seq<ComparatorM>)
    ensures
        req_floor_m(req) matches Some(v) ==> version::semver_satisfies(req, v) && starts_of(
            req,
        ).contains(v),
        forall|i: int|
            0 <= i < starts_of(req).len() && version::semver_satisfies(
                req,
                #[trigger] starts_of(req)[i],
            ) ==> (req_floor_m(req) matches Some(v) && !version::version_lt(starts_of(req)[i], v)),
{
    let p = permitted_by(req);
    lemma_least_where(starts_of(req), p);
    assert forall|i: int|
        0 <= i < starts_of(req).len() && version::semver_satisfies(
            req,
            #[trigger] starts_of(req)[i],
        ) implies (req_floor_m(req) matches Some(v) && !version::version_lt(
        starts_of(req)[i],
        v,
    )) by {
        assert(p(starts_of(req)[i]));
    }
}

/// Every floor of a finding is a version that clears it.
pub proof fn every_floor_is_safe(patched: Seq<Seq<ComparatorM>>, v: VersionM)
    requires
        floors_of(patched).contains(v),
    ensures
        finding::safe(patched, v),
    decreases patched.len(),
{
    if patched.len() > 0 {
        let l = patched.drop_last();
        let front = floors_of(l);
        let fs = floors_of(patched);
        let i = choose|i: int| 0 <= i < fs.len() && fs[i] == v;
        if i < front.len() {
            assert(front[i] == v);
            every_floor_is_safe(l, v);
            let j = choose|j: int|
                0 <= j < l.len() && version::semver_satisfies(#[trigger] l[j], v);
            assert(version::semver_satisfies(patched[j], v));
        } else {
            floor_is_the_least_permitted(patched.last());
            assert(version::semver_satisfies(patched[patched.len() - 1], v));
        }
    }
}

/// The highest version is one of them, and none is above it.
pub proof fn highest_is_highest(s: Seq<VersionM>)
    requires
        s.len() > 0,
    ensures
        highest(s) matches Some(h) && s.contains(h) && forall|i: int|
            0 <= i < s.len() ==> !version::version_lt(h, #[trigger] s[i]),
    decreases s.len(),
{
    let l = s.drop_last();
    let x = s.last();
    order::lemma_lex_irreflexive(version::version_key(x));
    if l.len() == 0 {
        assert(s[0] == x);
    } else {
        highest_is_highest(l);
        let p = highest(l)->0;
        let h = highest(s)->0;
        if h == p {
            let i = choose|i: int| 0 <= i < l.len() && l[i] == p;
            assert(s[i] == p);
        } else {
            assert(s[s.len() - 1] == x);
        }
        order::lemma_lex_total(version::version_key(x), version::version_key(p));
        assert forall|i: int| 0 <= i < s.len() implies !version::version_lt(
            h,
            #[trigger] s[i],
        ) by {
            if i < l.len() {
                assert(l[i] == s[i]);
                order::lemma_lex_total(version::version_key(p), version::version_key(l[i]));
                if h == x && version::version_lt(x, s[i]) {
                    if version::version_lt(p, x) {
                        order::lemma_lex_transitive(
                            version::version_key(p),
                            version::version_key(x),
                            version::version_key(s[i]),
                        );
                    } else {
                        assert(version::version_key(p) == version::version_key(x));
                    }
                }
            }
        }
    }
}

/// A batch clears every advisory in it: the version to go to is safe for each finding, and is
/// the floor of one of them.
pub proof fn batch_clears_every_advisory(s: Seq<VulnFindingM>)
    ensures
        target_of(s) matches Some(t) ==> safe_for_all(s, t) && floors_of_all(s).contains(t),
{
    let fs = floors_of_all(s);
    lemma_least_where(fs, forward_fix(s));
    if fs.len() > 0 {
        highest_is_highest(fs);
    }
}

/// A batch goes no further than it must: where a floor clears every finding and is not below
/// what is installed, the version to go to is such a floor, and none of those is smaller.
pub proof fn batch_is_the_least(s: Seq<VulnFindingM>, k: int)
    requires
        0 <= k < floors_of_all(s).len(),
        !version::version_lt(floors_of_all(s)[k], base_of(s)),
        safe_for_all(s, floors_of_all(s)[k]),
    ensures
        target_of(s) matches Some(t) && !version::version_lt(t, base_of(s)) && safe_for_all(s, t)
            && floors_of_all(s).contains(t) && !version::version_lt(floors_of_all(s)[k], t),
{
    let fs = floors_of_all(s);
    lemma_forward(s, k);
    lemma_least_where(fs, forward_fix(s));
    assert(forward_fix(s)(fs[k]));
}

/// The highest floor is at or above the base where any is.
proof fn lemma_forward(s: Seq<VulnFindingM>, k: int)
    requires
        0 <= k < floors_of_all(s).len(),
        !version::version_lt(floors_of_all(s)[k], base_of(s)),
    ensures
        highest(floors_of_all(s)) matches Some(h) && !version::version_lt(h, base_of(s)),
{
    let fs = floors_of_all(s);
    highest_is_highest(fs);
    let h = highest(fs)->0;
    assert(!version::version_lt(h, fs[k]));
    let a = version::version_key(h);
    let b = version::version_key(fs[k]);
    let c = version::version_key(base_of(s));
    order::lemma_lex_total(a, b);
    order::lemma_lex_total(b, c);
    order::lemma_lex_total(a, c);
    order::lemma_lex_le_transitive(c, b, a);
}

/// No downgrade: the version to go to is not below any that a finding of the batch was found
/// at, as long as one of them has a floor that is not below those.
pub proof fn batch_is_no_downgrade(s: Seq<VulnFindingM>, k: int)
    requires
        0 <= k < floors_of_all(s).len(),
        !version::version_lt(floors_of_all(s)[k], base_of(s)),
    ensures
        target_of(s) matches Some(t) ==> forall|i: int|
            0 <= i < installed_of_all(s).len() ==> !version::version_lt(
                t,
                #[trigger] installed_of_all(s)[i],
            ),
{
    let fs = floors_of_all(s);
    let inst = installed_of_all(s);
    lemma_forward(s, k);
    lemma_least_where(fs, forward_fix(s));
    if let Some(t) = target_of(s) {
        assert(forward_fix(s)(t));
        assert forall|i: int| 0 <= i < inst.len() implies !version::version_lt(
            t,
            #[trigger] inst[i],
        ) by {
            highest_is_highest(inst);
            let a = version::version_key(inst[i]);
            let b = version::version_key(base_of(s));
            let d = version::version_key(t);
            assert(!version::version_lt(base_of(s), inst[i]));
            order::lemma_lex_total(a, b);
            order::lemma_lex_total(b, d);
            order::lemma_lex_total(a, d);
            order::lemma_lex_le_transitive(a, b, d);
        }
    }
}

/// A finding with a fix has a version to go to on its own.
pub proof fn a_fixable_finding_has_a_target(f: VulnFindingM)
    requires
        fixable(f),
    ensures
        target_of(seq![f]) matches Some(t) && finding::safe(patched_of(f), t),
{
    let one = seq![f];
    let fs = floors_of_all(one);
    assert(one.drop_last() =~= Seq::empty());
    assert(fs =~= floors_of(patched_of(f))) by {
        reveal_with_fuel(floors_of_all, 2);
    }
    highest_is_highest(fs);
    let h = highest(fs)->0;
    every_floor_is_safe(patched_of(f), h);
    assert(safe_for_all(one, h));
    lemma_least_where(fs, forward_fix(one));
    let k = choose|k: int| 0 <= k < fs.len() && fs[k] == h;
    if !version::version_lt(h, base_of(one)) {
        assert(forward_fix(one)(fs[k]));
    }
    batch_clears_every_advisory(one);
    assert(one[0] == f);
}

/// An action is demoted to information only where every advisory in it is proved unreachable.
pub proof fn demoted_only_when_all_unreachable(s: Seq<VulnFindingM>)
    ensures
        tier_of_all(s) == ReachTier::NotReachable <==> forall|i: int|
            0 <= i < s.len() ==> tier_of(#[trigger] s[i]) == ReachTier::NotReachable,
        tier_of_all(s) == ReachTier::Reachable <==> exists|i: int|
            0 <= i < s.len() && tier_of(#[trigger] s[i]) == ReachTier::Reachable,
{
}

/// Whether a finding belongs to an action: same ecosystem and package, still vulnerable
/// somewhere, and its advisory among those of the action.
pub open spec fn belongs(f: VulnFindingM, item: RemediationItemM) -> bool {
    &&& f.ecosystem == item.ecosystem
    &&& package_of(f) == Some(item.package)
    &&& vuln_count(f.occurrences) > 0
    &&& item.advisories.contains(f.advisory_id)
}

/// Whether an action is the one for a finding: it belongs to it, there is a fix to name or
/// there is none for both, and a version to go to clears it.
pub open spec fn serves(item: RemediationItemM, f: VulnFindingM) -> bool {
    &&& belongs(f, item)
    &&& item.action is NoFixAvailable <==> !fixable(f)
    &&& item.action matches ActionM::Upgrade { to, .. } ==> finding::safe(patched_of(f), to)
}

/// Whether an action is made for a group of findings of the report, each of which it serves.
pub open spec fn made_for(
    vulns: Seq<VulnFindingM>,
    s: Seq<VulnFindingM>,
    item: RemediationItemM,
) -> bool {
    &&& s.len() > 0
    &&& item == item_of(item.ecosystem, item.package, s, item.action)
    &&& item.action matches ActionM::Upgrade { to, .. } ==> target_of(s) == Some(to) && item.action
        == upgrade_to(s, to)
    &&& forall|x: VulnFindingM| #[trigger] s.contains(x) ==> vulns.contains(x) && serves(item, x)
}

/// Every action of the queue is made for findings of the report that it serves, and resolves
/// their advisories and no others: distinct ecosystems never batch, what is fully patched needs
/// no action, an action without a fix is only for findings without one, and an upgrade clears
/// every finding that it is made for.
pub proof fn every_action_is_justified(vulns: Seq<VulnFindingM>, j: int)
    requires
        0 <= j < remediations_m(vulns).len(),
    ensures
        exists|s: Seq<VulnFindingM>| #[trigger] made_for(vulns, s, remediations_m(vulns)[j]),
{
    let todo = vulns.filter(needs_work());
    let gs = order::groups::<ByTarget>(todo);
    let items = items_of_groups(gs);
    let out = remediations_m(vulns);
    order::lemma_in_order_contains::<ByAction>(items, out[j]);
    assert(out.contains(out[j]));
    order::lemma_groups::<ByTarget>(todo);
    lemma_group_items(vulns, gs, out[j]);
}

/// An upgrade clears every finding that it speaks of: where a report holds an advisory once for
/// each package, the version to go to is safe for every finding whose advisory the action
/// names.
pub proof fn an_upgrade_clears_what_it_names(vulns: Seq<VulnFindingM>, j: int, i: int)
    requires
        0 <= j < remediations_m(vulns).len(),
        0 <= i < vulns.len(),
        belongs(vulns[i], remediations_m(vulns)[j]),
        forall|k: int|
            0 <= k < vulns.len() && (#[trigger] vulns[k]).advisory_id == vulns[i].advisory_id
                && vulns[k].ecosystem == vulns[i].ecosystem && package_of(vulns[k]) == package_of(
                vulns[i],
            ) ==> k == i,
    ensures
        remediations_m(vulns)[j].action matches ActionM::Upgrade { to, .. } ==> finding::safe(
            patched_of(vulns[i]),
            to,
        ),
{
    let item = remediations_m(vulns)[j];
    every_action_is_justified(vulns, j);
    let s = choose|s: Seq<VulnFindingM>| #[trigger] made_for(vulns, s, item);
    value::lemma_text_set(ids_of(s));
    let id = vulns[i].advisory_id;
    assert(ids_of(s).contains(id));
    let q = choose|q: int| 0 <= q < ids_of(s).len() && ids_of(s)[q] == id;
    assert(s.contains(s[q]));
    let k = choose|k: int| 0 <= k < vulns.len() && vulns[k] == s[q];
    assert(vulns[k].advisory_id == id);
}

proof fn lemma_group_items(
    vulns: Seq<VulnFindingM>,
    gs: Seq<Seq<VulnFindingM>>,
    item: RemediationItemM,
)
    requires
        items_of_groups(gs).contains(item),
        forall|i: int|
            0 <= i < gs.len() ==> order::one_key::<ByTarget>(#[trigger] gs[i]) && gs[i]
                == order::with_key::<ByTarget>(
                vulns.filter(needs_work()),
                order::group_key::<ByTarget>(gs[i]),
            ),
    ensures
        exists|s: Seq<VulnFindingM>| #[trigger] made_for(vulns, s, item),
    decreases gs.len(),
{
    if gs.len() > 0 {
        let l = gs.drop_last();
        let g = gs.last();
        assert forall|i: int| 0 <= i < l.len() implies #[trigger] l[i] == gs[i] by {}
        assert(g == gs[gs.len() - 1]);
        let eco = g[0].ecosystem;
        let pkg = package_of(g[0])->0;
        let a = items_of_groups(l);
        let b = package_items(eco, pkg, g);
        let i = choose|i: int| 0 <= i < (a + b).len() && (a + b)[i] == item;
        if i < a.len() {
            assert(a[i] == item);
            lemma_group_items(vulns, l, item);
        } else {
            assert(b[i - a.len()] == item);
            assert forall|x: VulnFindingM| #[trigger] g.contains(x) implies vulns.contains(x)
                && x.ecosystem == eco && package_of(x) == Some(pkg) && vuln_count(x.occurrences)
                > 0 by {
                let todo = vulns.filter(needs_work());
                let k = order::group_key::<ByTarget>(g);
                todo.lemma_filter_contains_rev(order::key_is::<ByTarget>(k), x);
                vulns.lemma_filter_contains_rev(needs_work(), x);
                let h = choose|h: int| 0 <= h < todo.len() && todo[h] == x;
                vulns.lemma_filter_pred(needs_work(), h);
                assert(needs_work()(x));
                let q = choose|q: int| 0 <= q < g.len() && g[q] == x;
                assert(ByTarget::key(g[q]) == k);
                lemma_work_has_package(vulns, g, k);
                lemma_target_key(x, g[0]);
            }
            lemma_package_items(vulns, eco, pkg, g, item);
        }
    }
}

proof fn lemma_target_key(a: VulnFindingM, b: VulnFindingM)
    requires
        ByTarget::key(a) == ByTarget::key(b),
        package_of(a) is Some,
        package_of(b) is Some,
    ensures
        a.ecosystem == b.ecosystem,
        package_of(a) == package_of(b),
{
    correlate::lemma_number_first(
        finding::ecosystem_rank(a.ecosystem),
        finding::ecosystem_rank(b.ecosystem),
        correlate::opt_key(package_of(a)),
        correlate::opt_key(package_of(b)),
    );
    let x = package_of(a)->0;
    let y = package_of(b)->0;
    correlate::lemma_number_first(1, 1, text::text_key(x), text::text_key(y));
    text::lemma_text_key_apart(x, y);
}

proof fn lemma_item_of(
    vulns: Seq<VulnFindingM>,
    eco: Ecosystem,
    pkg: Seq<char>,
    s: Seq<VulnFindingM>,
    action: ActionM,
)
    requires
        s.len() > 0,
        forall|x: VulnFindingM| #[trigger]
            s.contains(x) ==> vulns.contains(x) && x.ecosystem == eco && package_of(x) == Some(pkg)
                && vuln_count(x.occurrences) > 0 && (action is NoFixAvailable <==> !fixable(x)),
        action matches ActionM::Upgrade { to, .. } ==> safe_for_all(s, to) && target_of(s) == Some(
            to,
        ) && action == upgrade_to(s, to),
    ensures
        made_for(vulns, s, item_of(eco, pkg, s, action)),
{
    assert forall|x: VulnFindingM| #[trigger] s.contains(x) implies serves(
        item_of(eco, pkg, s, action),
        x,
    ) by {
        let q = choose|q: int| 0 <= q < s.len() && s[q] == x;
        assert(s[q] == x);
        lemma_item_serves(eco, pkg, s, action, x);
    }
}

proof fn lemma_package_items(
    vulns: Seq<VulnFindingM>,
    eco: Ecosystem,
    pkg: Seq<char>,
    g: Seq<VulnFindingM>,
    item: RemediationItemM,
)
    requires
        package_items(eco, pkg, g).contains(item),
        forall|x: VulnFindingM| #[trigger]
            g.contains(x) ==> vulns.contains(x) && x.ecosystem == eco && package_of(x) == Some(pkg)
                && vuln_count(x.occurrences) > 0,
    ensures
        exists|s: Seq<VulnFindingM>| #[trigger] made_for(vulns, s, item),
{
    reveal(package_items);
    let with_fix = g.filter(is_fixable_m());
    let without = g.filter(is_unfixable_m());
    assert forall|x: VulnFindingM| #[trigger] with_fix.contains(x) implies g.contains(x)
        && fixable(x) by {
        g.lemma_filter_contains_rev(is_fixable_m(), x);
        let h = choose|h: int| 0 <= h < with_fix.len() && with_fix[h] == x;
        g.lemma_filter_pred(is_fixable_m(), h);
    }
    assert forall|x: VulnFindingM| #[trigger] without.contains(x) implies g.contains(x)
        && !fixable(x) by {
        g.lemma_filter_contains_rev(is_unfixable_m(), x);
        let h = choose|h: int| 0 <= h < without.len() && without[h] == x;
        g.lemma_filter_pred(is_unfixable_m(), h);
    }
    if without.len() > 0 {
        lemma_item_of(vulns, eco, pkg, without, ActionM::NoFixAvailable);
    }
    let a: Seq<RemediationItemM> = if without.len() == 0 {
        Seq::empty()
    } else {
        seq![item_of(eco, pkg, without, ActionM::NoFixAvailable)]
    };
    let b: Seq<RemediationItemM> = if with_fix.len() == 0 {
        Seq::empty()
    } else {
        fixable_items(eco, pkg, with_fix)
    };
    let i = choose|i: int| 0 <= i < (a + b).len() && (a + b)[i] == item;
    if i >= a.len() {
        assert(b[i - a.len()] == item);
        batch_clears_every_advisory(with_fix);
        match target_of(with_fix) {
            Some(c) => {
                lemma_item_of(vulns, eco, pkg, with_fix, upgrade_to(with_fix, c));
            },
            None => {
                lemma_single_items(vulns, eco, pkg, with_fix, item);
            },
        }
    }
}

proof fn lemma_single_items(
    vulns: Seq<VulnFindingM>,
    eco: Ecosystem,
    pkg: Seq<char>,
    s: Seq<VulnFindingM>,
    item: RemediationItemM,
)
    requires
        single_items(eco, pkg, s).contains(item),
        forall|x: VulnFindingM| #[trigger]
            s.contains(x) ==> vulns.contains(x) && x.ecosystem == eco && package_of(x) == Some(pkg)
                && vuln_count(x.occurrences) > 0 && fixable(x),
    ensures
        exists|s: Seq<VulnFindingM>| #[trigger] made_for(vulns, s, item),
    decreases s.len(),
{
    if s.len() > 0 {
        let l = s.drop_last();
        let all = single_items(eco, pkg, s);
        let front = single_items(eco, pkg, l);
        let i = choose|i: int| 0 <= i < all.len() && all[i] == item;
        assert(s.contains(s[s.len() - 1]));
        if i < front.len() {
            assert(front[i] == item);
            assert forall|x: VulnFindingM| #[trigger] l.contains(x) implies s.contains(x) by {
                let h = choose|h: int| 0 <= h < l.len() && l[h] == x;
                assert(s[h] == x);
            }
            lemma_single_items(vulns, eco, pkg, l, item);
        } else {
            let one = seq![s.last()];
            let t = target_of(one)->0;
            assert forall|x: VulnFindingM| #[trigger] one.contains(x) implies x == s.last() by {}
            batch_clears_every_advisory(one);
            lemma_item_of(vulns, eco, pkg, one, upgrade_to(one, t));
        }
    }
}

/// Nothing is left out: every finding that is still vulnerable somewhere has an action in the
/// queue, an upgrade where a fix can be named and only then.
pub proof fn every_finding_gets_an_action(vulns: Seq<VulnFindingM>, i: int)
    requires
        0 <= i < vulns.len(),
        vuln_count(vulns[i].occurrences) > 0,
    ensures
        exists|j: int|
            0 <= j < remediations_m(vulns).len() && serves(
                #[trigger] remediations_m(vulns)[j],
                vulns[i],
            ),
{
    let f = vulns[i];
    let todo = vulns.filter(needs_work());
    let gs = order::groups::<ByTarget>(todo);
    let k = ByTarget::key(f);
    assert(needs_work()(f));
    assert(vulns.contains(f));
    vulns.lemma_filter_contains(needs_work(), i);
    let h = choose|h: int| 0 <= h < todo.len() && todo[h] == f;
    order::lemma_groups::<ByTarget>(todo);
    assert(order::has_group::<ByTarget>(gs, ByTarget::key(todo[h])));
    let n = choose|n: int|
        0 <= n < gs.len() && order::group_key::<ByTarget>(#[trigger] gs[n]) == k;
    let g = gs[n];
    assert(order::key_is::<ByTarget>(k)(f));
    todo.lemma_filter_contains(order::key_is::<ByTarget>(k), h);
    lemma_work_has_package(vulns, g, k);
    let eco = g[0].ecosystem;
    let pkg = package_of(g[0])->0;
    assert(f.occurrences.len() > 0);
    assert(ByTarget::key(g[0]) == k);
    lemma_target_key(f, g[0]);
    lemma_package_serves(eco, pkg, g, f);
    let item = choose|item: RemediationItemM|
        package_items(eco, pkg, g).contains(item) && serves(item, f);
    lemma_group_has(gs, n, item);
    let items = items_of_groups(gs);
    order::lemma_in_order_contains::<ByAction>(items, item);
    let out = remediations_m(vulns);
    let j = choose|j: int| 0 <= j < out.len() && out[j] == item;
    assert(serves(out[j], f));
}

proof fn lemma_joined_contains(
    a: Seq<RemediationItemM>,
    b: Seq<RemediationItemM>,
    item: RemediationItemM,
)
    requires
        a.contains(item) || b.contains(item),
    ensures
        (a + b).contains(item),
{
    if a.contains(item) {
        let j = choose|j: int| 0 <= j < a.len() && a[j] == item;
        assert((a + b)[j] == item);
    } else {
        let j = choose|j: int| 0 <= j < b.len() && b[j] == item;
        assert((a + b)[a.len() + j] == item);
    }
}

proof fn lemma_group_has(gs: Seq<Seq<VulnFindingM>>, n: int, item: RemediationItemM)
    requires
        0 <= n < gs.len(),
        package_items(gs[n][0].ecosystem, package_of(gs[n][0])->0, gs[n]).contains(item),
    ensures
        items_of_groups(gs).contains(item),
    decreases gs.len(),
{
    let l = gs.drop_last();
    let g = gs.last();
    if n < l.len() {
        assert(l[n] == gs[n]);
        lemma_group_has(l, n, item);
    }
    lemma_joined_contains(
        items_of_groups(l),
        package_items(g[0].ecosystem, package_of(g[0])->0, g),
        item,
    );
}

/// A group holds an action for each of its findings.
proof fn lemma_package_serves(
    eco: Ecosystem,
    pkg: Seq<char>,
    g: Seq<VulnFindingM>,
    f: VulnFindingM,
)
    requires
        g.contains(f),
        f.ecosystem == eco,
        package_of(f) == Some(pkg),
        vuln_count(f.occurrences) > 0,
    ensures
        exists|item: RemediationItemM|
            package_items(eco, pkg, g).contains(item) && serves(item, f),
{
    reveal(package_items);
    let with_fix = g.filter(is_fixable_m());
    let without = g.filter(is_unfixable_m());
    let q = choose|q: int| 0 <= q < g.len() && g[q] == f;
    let a: Seq<RemediationItemM> = if without.len() == 0 {
        Seq::empty()
    } else {
        seq![item_of(eco, pkg, without, ActionM::NoFixAvailable)]
    };
    let b: Seq<RemediationItemM> = if with_fix.len() == 0 {
        Seq::empty()
    } else {
        fixable_items(eco, pkg, with_fix)
    };
    let all = package_items(eco, pkg, g);
    assert(all == a + b);
    if !fixable(f) {
        assert(is_unfixable_m()(f));
        g.lemma_filter_contains(is_unfixable_m(), q);
        let item = item_of(eco, pkg, without, ActionM::NoFixAvailable);
        lemma_item_serves(eco, pkg, without, ActionM::NoFixAvailable, f);
        assert(all[0] == item);
        assert(all.contains(item) && serves(item, f));
    } else {
        assert(is_fixable_m()(f));
        g.lemma_filter_contains(is_fixable_m(), q);
        let p = choose|p: int| 0 <= p < with_fix.len() && with_fix[p] == f;
        batch_clears_every_advisory(with_fix);
        if let Some(c) = target_of(with_fix) {
            assert(finding::safe(patched_of(with_fix[p]), c));
            let item = item_of(eco, pkg, with_fix, upgrade_to(with_fix, c));
            lemma_item_serves(eco, pkg, with_fix, upgrade_to(with_fix, c), f);
            assert(b[0] == item);
            assert(all[a.len() as int] == item);
            assert(all.contains(item) && serves(item, f));
        } else {
            lemma_single_serves(eco, pkg, with_fix, p);
            let item = choose|item: RemediationItemM|
                single_items(eco, pkg, with_fix).contains(item) && serves(item, f);
            let j = choose|j: int| 0 <= j < b.len() && b[j] == item;
            assert(all[a.len() + j] == item);
            assert(all.contains(item) && serves(item, f));
        }
    }
}

proof fn lemma_item_serves(
    eco: Ecosystem,
    pkg: Seq<char>,
    s: Seq<VulnFindingM>,
    action: ActionM,
    f: VulnFindingM,
)
    requires
        s.contains(f),
        f.ecosystem == eco,
        package_of(f) == Some(pkg),
        vuln_count(f.occurrences) > 0,
        action is NoFixAvailable <==> !fixable(f),
        action matches ActionM::Upgrade { to, .. } ==> finding::safe(patched_of(f), to),
    ensures
        serves(item_of(eco, pkg, s, action), f),
{
    value::lemma_text_set(ids_of(s));
    let q = choose|q: int| 0 <= q < s.len() && s[q] == f;
    assert(ids_of(s)[q] == f.advisory_id);
    assert(ids_of(s).contains(f.advisory_id));
}

proof fn lemma_single_serves(eco: Ecosystem, pkg: Seq<char>, s: Seq<VulnFindingM>, p: int)
    requires
        0 <= p < s.len(),
        s[p].ecosystem == eco,
        package_of(s[p]) == Some(pkg),
        vuln_count(s[p].occurrences) > 0,
        fixable(s[p]),
    ensures
        exists|item: RemediationItemM|
            single_items(eco, pkg, s).contains(item) && serves(item, s[p]),
    decreases s.len(),
{
    let l = s.drop_last();
    let all = single_items(eco, pkg, s);
    let front = single_items(eco, pkg, l);
    if p < l.len() {
        lemma_single_serves(eco, pkg, l, p);
        let item = choose|item: RemediationItemM| front.contains(item) && serves(item, l[p]);
        let j = choose|j: int| 0 <= j < front.len() && front[j] == item;
        assert(all[j] == item);
        assert(all.contains(item) && serves(item, s[p]));
    } else {
        let one = seq![s.last()];
        a_fixable_finding_has_a_target(s.last());
        let t = target_of(one)->0;
        let item = item_of(eco, pkg, one, upgrade_to(one, t));
        assert(one[0] == s[p]);
        assert(one.contains(s[p]));
        lemma_item_serves(eco, pkg, one, upgrade_to(one, t), s[p]);
        assert(all[all.len() - 1] == item);
        assert(all.contains(item) && serves(item, s[p]));
    }
}

/// Whether a vulnerable occurrence is at a version.
pub open spec fn found_at(o: OccurrenceM, v: VersionM) -> bool {
    finding::vulnerable(o) && (match o {
        OccurrenceM::InRepo { installed, .. } => installed == v,
        OccurrenceM::Toolchain { installed, .. } => installed == Some(v),
    })
}

/// Whether a vulnerable occurrence is in a repository.
pub open spec fn found_in(o: OccurrenceM, name: Seq<char>) -> bool {
    finding::vulnerable(o) && (o matches OccurrenceM::InRepo { repo, .. } && repo == name)
}

/// Whether some finding has an occurrence of which `p` holds.
pub open spec fn somewhere(s: Seq<VulnFindingM>, p: spec_fn(OccurrenceM) -> bool) -> bool {
    exists|i: int, k: int|
        0 <= i < s.len() && 0 <= k < s[i].occurrences.len() && p(#[trigger] s[i].occurrences[k])
}

proof fn lemma_installed_of(s: Seq<OccurrenceM>, v: VersionM)
    ensures
        installed_of(s).contains(v) <==> exists|k: int| 0 <= k < s.len() && found_at(#[trigger] s[k], v),
    decreases s.len(),
{
    if s.len() > 0 {
        let l = s.drop_last();
        let n = l.len() as int;
        lemma_installed_of(l, v);
        let front = installed_of(l);
        let all = installed_of(s);
        assert(s[n] == s.last());
        if front.contains(v) {
            let j = choose|j: int| 0 <= j < front.len() && front[j] == v;
            assert(all[j] == v);
            let k = choose|k: int| 0 <= k < l.len() && found_at(#[trigger] l[k], v);
            assert(found_at(s[k], v));
        }
        if found_at(s[n], v) {
            assert(all.last() == v);
            assert(all[all.len() - 1] == v);
        }
        if all.contains(v) && !front.contains(v) {
            let j = choose|j: int| 0 <= j < all.len() && all[j] == v;
            if j < front.len() {
                assert(front[j] == v);
            }
            assert(found_at(s[n], v));
        }
        if exists|k: int| 0 <= k < s.len() && found_at(#[trigger] s[k], v) {
            let k = choose|k: int| 0 <= k < s.len() && found_at(#[trigger] s[k], v);
            if k < n {
                assert(found_at(l[k], v));
            }
        }
    }
}

proof fn lemma_repos_of(s: Seq<OccurrenceM>, v: Seq<char>)
    ensures
        repos_of(s).contains(v) <==> exists|k: int| 0 <= k < s.len() && found_in(#[trigger] s[k], v),
    decreases s.len(),
{
    if s.len() > 0 {
        let l = s.drop_last();
        let n = l.len() as int;
        lemma_repos_of(l, v);
        let front = repos_of(l);
        let all = repos_of(s);
        assert(s[n] == s.last());
        if front.contains(v) {
            let j = choose|j: int| 0 <= j < front.len() && front[j] == v;
            assert(all[j] == v);
            let k = choose|k: int| 0 <= k < l.len() && found_in(#[trigger] l[k], v);
            assert(found_in(s[k], v));
        }
        if found_in(s[n], v) {
            assert(all.last() == v);
            assert(all[all.len() - 1] == v);
        }
        if all.contains(v) && !front.contains(v) {
            let j = choose|j: int| 0 <= j < all.len() && all[j] == v;
            if j < front.len() {
                assert(front[j] == v);
            }
            assert(found_in(s[n], v));
        }
        if exists|k: int| 0 <= k < s.len() && found_in(#[trigger] s[k], v) {
            let k = choose|k: int| 0 <= k < s.len() && found_in(#[trigger] s[k], v);
            if k < n {
                assert(found_in(l[k], v));
            }
        }
    }
}

proof fn lemma_somewhere(s: Seq<VulnFindingM>, p: spec_fn(OccurrenceM) -> bool)
    requires
        s.len() > 0,
    ensures
        somewhere(s, p) <==> somewhere(s.drop_last(), p) || exists|k: int|
            0 <= k < s.last().occurrences.len() && p(#[trigger] s.last().occurrences[k]),
{
    let l = s.drop_last();
    let n = l.len() as int;
    assert(s[n] == s.last());
    if somewhere(s, p) {
        let (i, k) = choose|i: int, k: int|
            0 <= i < s.len() && 0 <= k < s[i].occurrences.len() && p(#[trigger] s[i].occurrences[k]);
        if i < n {
            assert(p(l[i].occurrences[k]));
        } else {
            assert(p(s.last().occurrences[k]));
        }
    }
    if somewhere(l, p) {
        let (i, k) = choose|i: int, k: int|
            0 <= i < l.len() && 0 <= k < l[i].occurrences.len() && p(#[trigger] l[i].occurrences[k]);
        assert(p(s[i].occurrences[k]));
    }
    if exists|k: int| 0 <= k < s.last().occurrences.len() && p(#[trigger] s.last().occurrences[k]) {
        let k = choose|k: int|
            0 <= k < s.last().occurrences.len() && p(#[trigger] s.last().occurrences[k]);
        assert(p(s[n].occurrences[k]));
    }
}

proof fn lemma_concat_contains<A>(a: Seq<A>, b: Seq<A>, x: A)
    ensures
        (a + b).contains(x) <==> a.contains(x) || b.contains(x),
{
    let c = a + b;
    if a.contains(x) {
        let i = choose|i: int| 0 <= i < a.len() && a[i] == x;
        assert(c[i] == x);
    }
    if b.contains(x) {
        let i = choose|i: int| 0 <= i < b.len() && b[i] == x;
        assert(c[a.len() + i] == x);
    }
    if c.contains(x) {
        let i = choose|i: int| 0 <= i < c.len() && c[i] == x;
        if i < a.len() {
            assert(a[i] == x);
        } else {
            assert(b[i - a.len()] == x);
        }
    }
}

proof fn lemma_installed_of_all(s: Seq<VulnFindingM>, v: VersionM)
    ensures
        installed_of_all(s).contains(v) <==> somewhere(s, |o: OccurrenceM| found_at(o, v)),
    decreases s.len(),
{
    let p = |o: OccurrenceM| found_at(o, v);
    if s.len() > 0 {
        lemma_installed_of_all(s.drop_last(), v);
        lemma_installed_of(s.last().occurrences, v);
        lemma_somewhere(s, p);
        lemma_concat_contains(
            installed_of_all(s.drop_last()),
            installed_of(s.last().occurrences),
            v,
        );
        if exists|k: int|
            0 <= k < s.last().occurrences.len() && found_at(#[trigger] s.last().occurrences[k], v) {
            let k = choose|k: int|
                0 <= k < s.last().occurrences.len() && found_at(
                    #[trigger] s.last().occurrences[k],
                    v,
                );
            assert(p(s.last().occurrences[k]));
        }
    }
}

proof fn lemma_repos_of_all(s: Seq<VulnFindingM>, v: Seq<char>)
    ensures
        repos_of_all(s).contains(v) <==> somewhere(s, |o: OccurrenceM| found_in(o, v)),
    decreases s.len(),
{
    let p = |o: OccurrenceM| found_in(o, v);
    if s.len() > 0 {
        lemma_repos_of_all(s.drop_last(), v);
        lemma_repos_of(s.last().occurrences, v);
        lemma_somewhere(s, p);
        lemma_concat_contains(repos_of_all(s.drop_last()), repos_of(s.last().occurrences), v);
        if exists|k: int|
            0 <= k < s.last().occurrences.len() && found_in(#[trigger] s.last().occurrences[k], v) {
            let k = choose|k: int|
                0 <= k < s.last().occurrences.len() && found_in(
                    #[trigger] s.last().occurrences[k],
                    v,
                );
            assert(p(s.last().occurrences[k]));
        }
    }
}

/// What an action shows of the findings that it is made for: the versions that are those of
/// their vulnerable occurrences, the advisories that are theirs, the repositories that hold a
/// vulnerable occurrence, each counted once, the worst of their severities, and whether one is
/// known to be exploited.
pub open spec fn sums_up(item: RemediationItemM, s: Seq<VulnFindingM>) -> bool {
    &&& forall|v: VersionM| #[trigger]
        item.current.contains(v) <==> somewhere(s, |o: OccurrenceM| found_at(o, v))
    &&& forall|id: Seq<char>| #[trigger]
        item.advisories.contains(id) <==> exists|i: int|
            0 <= i < s.len() && (#[trigger] s[i]).advisory_id == id
    &&& exists|names: Seq<Seq<char>>| #[trigger]
        names.no_duplicates() && item.repos == names.len() as usize && forall|r: Seq<char>|
            #[trigger] names.contains(r) <==> somewhere(s, |o: OccurrenceM| found_in(o, r))
    &&& exists|i: int| 0 <= i < s.len() && (#[trigger] s[i]).severity == item.max_severity
    &&& forall|i: int|
        0 <= i < s.len() ==> severity::severity_rank((#[trigger] s[i]).severity)
            <= severity::severity_rank(item.max_severity)
    &&& item.kev <==> exists|i: int| 0 <= i < s.len() && (#[trigger] s[i]).exploit.kev
}

/// An action sums up the findings that it is made for.
pub proof fn an_action_sums_up_its_findings(
    vulns: Seq<VulnFindingM>,
    s: Seq<VulnFindingM>,
    item: RemediationItemM,
)
    requires
        made_for(vulns, s, item),
    ensures
        sums_up(item, s),
{
    let inst = installed_of_all(s);
    let sorted = order::in_order::<ByVersion>(inst);
    order::lemma_without_repeats(sorted);
    assert forall|v: VersionM| #[trigger] item.current.contains(v) <==> somewhere(
        s,
        |o: OccurrenceM| found_at(o, v),
    ) by {
        order::lemma_in_order_contains::<ByVersion>(inst, v);
        lemma_installed_of_all(s, v);
        assert(order::without_repeats(sorted).contains(v) == sorted.contains(v));
    }
    value::lemma_text_set(ids_of(s));
    assert forall|id: Seq<char>| #[trigger] item.advisories.contains(id) <==> exists|i: int|
        0 <= i < s.len() && (#[trigger] s[i]).advisory_id == id by {
        assert(item.advisories.contains(id) <==> ids_of(s).contains(id));
        if ids_of(s).contains(id) {
            let i = choose|i: int| 0 <= i < ids_of(s).len() && ids_of(s)[i] == id;
            assert(s[i].advisory_id == id);
        }
        if exists|i: int| 0 <= i < s.len() && (#[trigger] s[i]).advisory_id == id {
            let i = choose|i: int| 0 <= i < s.len() && (#[trigger] s[i]).advisory_id == id;
            assert(ids_of(s)[i] == id);
        }
    }
    let names = value::text_set(repos_of_all(s));
    value::lemma_text_set(repos_of_all(s));
    assert forall|r: Seq<char>| #[trigger] names.contains(r) <==> somewhere(
        s,
        |o: OccurrenceM| found_in(o, r),
    ) by {
        lemma_repos_of_all(s, r);
    }
    assert(names.no_duplicates());
    report::max_severity_is_highest(s);
    assert forall|i: int| 0 <= i < s.len() implies severity::severity_rank(
        (#[trigger] s[i]).severity,
    ) <= severity::severity_rank(item.max_severity) by {}
    let i = choose|i: int| 0 <= i < s.len() && #[trigger] s[i].severity == report::max_severity_m(s);
    assert(s[i].severity == item.max_severity);
}

/// An upgrade is breaking exactly where its version is not compatible with the highest one that
/// is installed: another major number always breaks; below major one another minor number does;
/// the same major number from one on never does, nor do the same major and minor numbers. Where
/// no installed version is known nothing breaks.
pub proof fn an_upgrade_breaks_only_across_a_boundary(vulns: Seq<VulnFindingM>, j: int)
    requires
        0 <= j < remediations_m(vulns).len(),
    ensures
        remediations_m(vulns)[j].action matches ActionM::Upgrade { to, breaking } ==> {
            &&& remediations_m(vulns)[j].current.len() == 0 ==> !breaking
            &&& forall|k: int|
                0 <= k < remediations_m(vulns)[j].current.len() && (forall|i: int|
                    0 <= i < remediations_m(vulns)[j].current.len() ==> !version::version_lt(
                        remediations_m(vulns)[j].current[k],
                        #[trigger] remediations_m(vulns)[j].current[i],
                    )) ==> {
                    let from = #[trigger] remediations_m(vulns)[j].current[k];
                    &&& to.major == from.major && to.minor == from.minor ==> !breaking
                    &&& to.major == from.major && from.major >= 1 ==> !breaking
                    &&& to.major != from.major ==> breaking
                    &&& from.major == 0 && to.minor != from.minor ==> breaking
                }
        },
{
    let item = remediations_m(vulns)[j];
    every_action_is_justified(vulns, j);
    let s = choose|s: Seq<VulnFindingM>| #[trigger] made_for(vulns, s, item);
    let inst = installed_of_all(s);
    let sorted = order::in_order::<ByVersion>(inst);
    order::lemma_in_order::<ByVersion>(inst);
    order::lemma_without_repeats(sorted);
    if let ActionM::Upgrade { to, breaking } = item.action {
        if inst.len() > 0 {
            highest_is_highest(inst);
            let h = highest(inst)->0;
            assert(item.current.contains(h)) by {
                order::lemma_in_order_contains::<ByVersion>(inst, h);
                assert(order::without_repeats(sorted).contains(h) == sorted.contains(h));
            }
            let m = choose|m: int| 0 <= m < item.current.len() && item.current[m] == h;
            assert forall|k: int|
                0 <= k < item.current.len() && (forall|i: int|
                    0 <= i < item.current.len() ==> !version::version_lt(
                        item.current[k],
                        #[trigger] item.current[i],
                    )) implies ({
                let from = #[trigger] item.current[k];
                &&& to.major == from.major && to.minor == from.minor ==> !breaking
                &&& to.major == from.major && from.major >= 1 ==> !breaking
                &&& to.major != from.major ==> breaking
                &&& from.major == 0 && to.minor != from.minor ==> breaking
            }) by {
                let from = item.current[k];
                assert(!version::version_lt(from, item.current[m]));
                assert(inst.contains(from)) by {
                    order::lemma_in_order_contains::<ByVersion>(inst, from);
                    assert(item.current.contains(from));
                    assert(order::without_repeats(sorted).contains(from) == sorted.contains(from));
                }
                let q = choose|q: int| 0 <= q < inst.len() && inst[q] == from;
                assert(!version::version_lt(h, inst[q]));
                let a = version::version_key(from);
                let b = version::version_key(h);
                order::lemma_lex_total(a, b);
                assert(a == b);
                assert(a[0] == from.major && b[0] == h.major);
                assert(a[1] == from.minor && b[1] == h.minor);
            }
        }
    }
}

/// An upgrade goes forward where it can: where some fix of a finding that it is made for is not
/// below what is installed, the version to go to is not below any version that the action
/// shows.
pub proof fn an_upgrade_is_no_downgrade(
    vulns: Seq<VulnFindingM>,
    s: Seq<VulnFindingM>,
    item: RemediationItemM,
    k: int,
)
    requires
        made_for(vulns, s, item),
        0 <= k < floors_of_all(s).len(),
        forall|i: int|
            0 <= i < item.current.len() ==> !version::version_lt(
                floors_of_all(s)[k],
                #[trigger] item.current[i],
            ),
        !version::version_lt(floors_of_all(s)[k], version::release(0, 0, 0)),
    ensures
        item.action matches ActionM::Upgrade { to, .. } ==> forall|i: int|
            0 <= i < item.current.len() ==> !version::version_lt(to, #[trigger] item.current[i]),
{
    let inst = installed_of_all(s);
    let sorted = order::in_order::<ByVersion>(inst);
    order::lemma_in_order::<ByVersion>(inst);
    order::lemma_without_repeats(sorted);
    if inst.len() > 0 {
        highest_is_highest(inst);
        let h = highest(inst)->0;
        assert(item.current.contains(h)) by {
            order::lemma_in_order_contains::<ByVersion>(inst, h);
            assert(order::without_repeats(sorted).contains(h) == sorted.contains(h));
        }
        let m = choose|m: int| 0 <= m < item.current.len() && item.current[m] == h;
        assert(!version::version_lt(floors_of_all(s)[k], item.current[m]));
    }
    batch_is_no_downgrade(s, k);
    if let ActionM::Upgrade { to, .. } = item.action {
        assert forall|i: int| 0 <= i < item.current.len() implies !version::version_lt(
            to,
            #[trigger] item.current[i],
        ) by {
            let v = item.current[i];
            assert(item.current.contains(v));
            assert(order::without_repeats(sorted).contains(v) == sorted.contains(v));
            order::lemma_in_order_contains::<ByVersion>(inst, v);
            let q = choose|q: int| 0 <= q < inst.len() && inst[q] == v;
            assert(!version::version_lt(to, inst[q]));
        }
    }
}

/// A bound starts where it lets releases through: one that says "above" starts after everything
/// that it names, be that a version, a minor line or a major line; one from above starts
/// nowhere; and every other starts with the least version that it names.
pub proof fn a_bound_starts_where_it_lets_through(c: ComparatorM, w: VersionM)
    requires
        c.pre.len() == 0,
    ensures
        start_of(c) matches Some(v) ==> (!version::numbers_below(w, v) <==> match c.op {
            Op::Greater => w.major > c.major || (w.major == c.major && c.minor is Some && (w.minor
                > c.minor->0 || (w.minor == c.minor->0 && c.patch is Some && w.patch
                > c.patch->0))),
            _ => w.major > c.major || (w.major == c.major && (match c.minor {
                None => true,
                Some(minor) => w.minor > minor || (w.minor == minor && (match c.patch {
                    None => true,
                    Some(patch) => w.patch >= patch,
                })),
            }) && (c.minor is None && c.patch is Some ==> w.minor > 0 || w.patch >= c.patch->0)),
        }),
        start_of(c) is None ==> c.op == Op::Less || c.op == Op::LessEq || (c.op == Op::Greater
            && c.major == u64::MAX),
        c.op == Op::Less || c.op == Op::LessEq ==> start_of(c) is None,
{
}

/// The occurrences that are counted are those that are vulnerable, of each finding.
pub proof fn only_vulnerable_occurrences_count(
    s: Seq<OccurrenceM>,
    all: Seq<VulnFindingM>,
    f: VulnFindingM,
)
    ensures
        vuln_count(s) == s.filter(|o: OccurrenceM| finding::vulnerable(o)).len(),
        vuln_count_of_all(Seq::empty()) == 0,
        vuln_count_of_all(all.push(f)) == vuln_count_of_all(all) + vuln_count(f.occurrences),
    decreases s.len(),
{
    reveal(Seq::filter);
    assert(all.push(f).drop_last() =~= all);
    if s.len() > 0 {
        only_vulnerable_occurrences_count(s.drop_last(), all, f);
    }
}

/// The greatest probability of a group is one that a finding of it has, and none that is a number
/// is above it; there is none exactly where no finding has one.
pub proof fn the_greatest_probability_is_shown(s: Seq<VulnFindingM>)
    ensures
        max_epss_of(s) is None <==> forall|i: int|
            0 <= i < s.len() ==> (#[trigger] s[i]).exploit.epss is None,
        max_epss_of(s) is Some ==> exists|i: int|
            0 <= i < s.len() && (#[trigger] s[i]).exploit.epss == max_epss_of(s),
        forall|i: int|
            0 <= i < s.len() && (#[trigger] s[i]).exploit.epss is Some && !score::is_nan(
                s[i].exploit.epss->0,
            ) ==> !score::is_nan(max_epss_of(s)->0) && !score::below(
                max_epss_of(s)->0,
                s[i].exploit.epss->0,
            ),
    decreases s.len(),
{
    if s.len() > 0 {
        let l = s.drop_last();
        let n = l.len() as int;
        the_greatest_probability_is_shown(l);
        assert(s[n] == s.last());
        assert forall|i: int| 0 <= i < n implies #[trigger] s[i] == l[i] by {}
        let m = max_epss_of(s);
        if m is Some {
            if m == max_epss_of(l) {
                let i = choose|i: int|
                    0 <= i < l.len() && (#[trigger] l[i]).exploit.epss == max_epss_of(l);
                assert(s[i].exploit.epss == m);
            } else {
                assert(s[n].exploit.epss == m);
            }
        } else {
            assert forall|i: int| 0 <= i < s.len() implies (#[trigger] s[i]).exploit.epss is None by {
                if i < n {
                    assert(l[i].exploit.epss is None);
                }
            }
        }
        if forall|i: int| 0 <= i < s.len() ==> (#[trigger] s[i]).exploit.epss is None {
            assert forall|i: int| 0 <= i < l.len() implies (#[trigger] l[i]).exploit.epss is None by {
                assert(s[i].exploit.epss is None);
            }
            assert(s[n].exploit.epss is None);
        }
        assert forall|i: int|
            0 <= i < s.len() && (#[trigger] s[i]).exploit.epss is Some && !score::is_nan(
                s[i].exploit.epss->0,
            ) implies !score::is_nan(m->0) && !score::below(m->0, s[i].exploit.epss->0) by {
            if i < n {
                assert(l[i].exploit.epss is Some);
            }
        }
    }
}

/// The greatest base score of a group is one that a finding of it has, and none that is a number
/// is above it; there is none exactly where no finding has one.
pub proof fn the_greatest_base_score_is_shown(s: Seq<VulnFindingM>)
    ensures
        max_cvss_of(s) is None <==> forall|i: int|
            0 <= i < s.len() ==> (#[trigger] s[i]).cvss_score is None,
        max_cvss_of(s) is Some ==> exists|i: int|
            0 <= i < s.len() && (#[trigger] s[i]).cvss_score == max_cvss_of(s),
        forall|i: int|
            0 <= i < s.len() && (#[trigger] s[i]).cvss_score is Some && !score::is_nan(
                s[i].cvss_score->0,
            ) ==> !score::is_nan(max_cvss_of(s)->0) && !score::below(
                max_cvss_of(s)->0,
                s[i].cvss_score->0,
            ),
    decreases s.len(),
{
    if s.len() > 0 {
        let l = s.drop_last();
        let n = l.len() as int;
        the_greatest_base_score_is_shown(l);
        assert(s[n] == s.last());
        assert forall|i: int| 0 <= i < n implies #[trigger] s[i] == l[i] by {}
        let m = max_cvss_of(s);
        if m is Some {
            if m == max_cvss_of(l) {
                let i = choose|i: int|
                    0 <= i < l.len() && (#[trigger] l[i]).cvss_score == max_cvss_of(l);
                assert(s[i].cvss_score == m);
            } else {
                assert(s[n].cvss_score == m);
            }
        } else {
            assert forall|i: int| 0 <= i < s.len() implies (#[trigger] s[i]).cvss_score is None by {
                if i < n {
                    assert(l[i].cvss_score is None);
                }
            }
        }
        if forall|i: int| 0 <= i < s.len() ==> (#[trigger] s[i]).cvss_score is None {
            assert forall|i: int| 0 <= i < l.len() implies (#[trigger] l[i]).cvss_score is None by {
                assert(s[i].cvss_score is None);
            }
            assert(s[n].cvss_score is None);
        }
        assert forall|i: int|
            0 <= i < s.len() && (#[trigger] s[i]).cvss_score is Some && !score::is_nan(
                s[i].cvss_score->0,
            ) implies !score::is_nan(m->0) && !score::below(m->0, s[i].cvss_score->0) by {
            if i < n {
                assert(l[i].cvss_score is Some);
            }
        }
    }
}

/// The queue is in the order of the packages.
pub proof fn the_queue_goes_by_package(vulns: Seq<VulnFindingM>, i: int, j: int)
    requires
        0 <= i < j < remediations_m(vulns).len(),
    ensures
        !order::lex_lt(
            text::text_key(remediations_m(vulns)[j].package),
            text::text_key(remediations_m(vulns)[i].package),
        ),
{
    let todo = vulns.filter(needs_work());
    let items = items_of_groups(order::groups::<ByTarget>(todo));
    order::lemma_in_order::<ByAction>(items);
    let a = remediations_m(vulns)[i];
    let b = remediations_m(vulns)[j];
    assert(order::lex_le(ByAction::key(a), ByAction::key(b)));
    let x = seq![finding::ecosystem_rank(a.ecosystem)] + texts_key(a.advisories);
    let y = seq![finding::ecosystem_rank(b.ecosystem)] + texts_key(b.advisories);
    correlate::lemma_text_first(a.package, b.package, x, y);
    order::lemma_lex_total(text::text_key(a.package), text::text_key(b.package));
    order::lemma_lex_irreflexive(ByAction::key(a));
}

/// What is safe for a finding is what its occurrences say: every requirement is one of theirs,
/// and each of theirs is there as it is written.
pub proof fn what_is_safe_comes_from_the_occurrences(f: VulnFindingM)
    ensures
        forall|k: int|
            0 <= k < patched_of(f).len() ==> patched_anywhere(f.occurrences).contains(
                #[trigger] patched_of(f)[k],
            ),
        forall|k: int|
            0 <= k < patched_anywhere(f.occurrences).len() ==> order::has_key::<ByReqText>(
                patched_of(f),
                ByReqText::key(#[trigger] patched_anywhere(f.occurrences)[k]),
            ),
{
    let s = patched_anywhere(f.occurrences);
    let t = order::in_order::<ByReqText>(s);
    let u = patched_of(f);
    order::lemma_in_order::<ByReqText>(s);
    order::lemma_first_per_key_strict::<ByReqText>(t);
    assert forall|k: int| 0 <= k < u.len() implies s.contains(#[trigger] u[k]) by {
        assert(t.contains(u[k]));
        order::lemma_in_order_contains::<ByReqText>(s, u[k]);
    }
    assert forall|k: int| 0 <= k < s.len() implies order::has_key::<ByReqText>(
        u,
        ByReqText::key(#[trigger] s[k]),
    ) by {
        order::lemma_in_order_contains::<ByReqText>(s, s[k]);
        assert(s.contains(s[k]));
        let h = choose|h: int| 0 <= h < t.len() && t[h] == s[k];
        assert(order::has_key::<ByReqText>(u, ByReqText::key(t[h])));
    }
}

/// Findings on one package that one version can clear share one upgrade: where a fix of one of
/// them is not below what is installed and is safe for all that have a fix, the package has one
/// upgrade, for all of them. Those without a fix share one action of their own.
pub proof fn a_shared_fix_is_one_action(
    ecosystem: Ecosystem,
    package: Seq<char>,
    s: Seq<VulnFindingM>,
    with_fix: Seq<VulnFindingM>,
    without: Seq<VulnFindingM>,
    k: int,
)
    requires
        with_fix == s.filter(|f: VulnFindingM| fixable(f)),
        without == s.filter(|f: VulnFindingM| !fixable(f)),
        0 <= k < floors_of_all(with_fix).len(),
        !version::version_lt(floors_of_all(with_fix)[k], base_of(with_fix)),
        safe_for_all(with_fix, floors_of_all(with_fix)[k]),
    ensures
        ({
            let items = package_items(ecosystem, package, s);
            let last = items.last();
            &&& items.len() == (if without.len() > 0 {
                2nat
            } else {
                1nat
            })
            &&& last.action is Upgrade
            &&& last.package == package
            &&& last.ecosystem == ecosystem
            &&& forall|i: int|
                0 <= i < with_fix.len() ==> last.advisories.contains(
                    (#[trigger] with_fix[i]).advisory_id,
                )
            &&& without.len() > 0 ==> items[0].action is NoFixAvailable && forall|i: int|
                0 <= i < without.len() ==> items[0].advisories.contains(
                    (#[trigger] without[i]).advisory_id,
                )
        }),
{
    reveal(package_items);
    assert(is_fixable_m() =~= (|f: VulnFindingM| fixable(f)));
    assert(is_unfixable_m() =~= (|f: VulnFindingM| !fixable(f)));
    batch_is_the_least(with_fix, k);
    value::lemma_text_set(ids_of(with_fix));
    value::lemma_text_set(ids_of(without));
    let items = package_items(ecosystem, package, s);
    assert forall|i: int| 0 <= i < with_fix.len() implies items.last().advisories.contains(
        (#[trigger] with_fix[i]).advisory_id,
    ) by {
        assert(ids_of(with_fix)[i] == with_fix[i].advisory_id);
        assert(ids_of(with_fix).contains(with_fix[i].advisory_id));
    }
    assert forall|i: int| 0 <= i < without.len() implies items[0].advisories.contains(
        (#[trigger] without[i]).advisory_id,
    ) by {
        assert(ids_of(without)[i] == without[i].advisory_id);
        assert(ids_of(without).contains(without[i].advisory_id));
    }
    if with_fix.len() == 0 {
        assert(floors_of_all(with_fix).len() == 0);
    }
}

} // verus!
