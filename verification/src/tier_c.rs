//! Matching an installed version against an advisory, shared by the feeders that build nothing.
use vstd::prelude::*;
use crate::finding::{OccurrenceM, VulnFindingM};
use crate::order::{Order, Rel};
use crate::osv;
use crate::osv::{Advisory, AdvisoryM, Match, Scheme};
use crate::version;
use crate::version::{ComparatorM, Op, Version, VersionM, VersionReq};

verus! {

/// Whether the version is among those that an advisory lists.
pub open spec fn listed<S: Order>(versions: Seq<S::M>, v: S::M) -> bool {
    exists|i: int| 0 <= i < versions.len() && S::key(#[trigger] versions[i]) == S::key(v)
}

/// Whether an advisory affects a version, and what fixes it: its ranges decide, then the
/// versions that it lists, which name no fix.
pub open spec fn hit<S: Scheme>(adv: AdvisoryM<S::M>, v: S::M) -> Option<Option<S::M>> {
    match osv::match_of::<S>(v, adv.ranges) {
        Match::Affected { fixed } => Some(fixed),
        Match::NotAffected => if listed::<S>(adv.versions, v) {
            Some(None)
        } else {
            None
        },
    }
}

fn is_listed<S: Scheme>(versions: &Vec<S::Item>, v: &S::Item) -> (r: bool)
    ensures
        r == listed::<S>(versions.deep_view(), v.deep_view()),
{
    let ghost all = versions.deep_view();
    let mut i: usize = 0;
    while i < versions.len()
        invariant
            i <= versions.len(),
            all == versions.deep_view(),
            forall|j: int| 0 <= j < i ==> S::key(#[trigger] all[j]) != S::key(v.deep_view()),
        decreases versions.len() - i,
    {
        assert(versions[i as int].deep_view() == all[i as int]);
        proof {
            crate::order::lemma_lex_total(S::key(all[i as int]), S::key(v.deep_view()));
        }
        match S::rel(&versions[i], v) {
            Rel::Equal => {
                return true;
            },
            _ => {},
        }
        i += 1;
    }
    false
}

/// Whether an advisory affects a version, and what fixes it.
pub fn match_version<S: Scheme>(adv: &Advisory<S::Item>, v: &S::Item) -> (r: Option<Option<S::Item>>)
    ensures
        r.deep_view() == hit::<S>(adv.deep_view(), v.deep_view()),
{
    match osv::affected_fixed_parsed::<S>(v, &adv.ranges) {
        Match::Affected { fixed } => Some(fixed),
        Match::NotAffected => if is_listed::<S>(&adv.versions, v) {
            Some(None)
        } else {
            None
        },
    }
}

/// What is safe: at least the fix, where there is one.
pub open spec fn patched_from(fixed: Option<VersionM>) -> Seq<Seq<ComparatorM>> {
    match fixed {
        Some(f) => version::at_least_version(f),
        None => Seq::empty(),
    }
}

/// What is safe: at least the fix, where there is one.
pub fn patched_by(fixed: &Option<Version>) -> (r: Vec<VersionReq>)
    ensures
        r.deep_view() == patched_from(fixed.deep_view()),
        fixed.deep_view() matches Some(f) ==> version::starts_at(r.deep_view()[0], f),
{
    match fixed {
        Some(f) => version::require_version(f),
        None => {
            let none: Vec<VersionReq> = Vec::new();
            assert(none.deep_view() =~= Seq::empty());
            none
        },
    }
}

/// An advisory affects a version exactly where one of its ranges covers it or its list names
/// it.
pub proof fn hit_iff_covered_or_listed<S: Scheme>(adv: AdvisoryM<S::M>, v: S::M)
    ensures
        hit::<S>(adv, v) is Some == ((exists|i: int|
            0 <= i < adv.ranges.len() && osv::covers::<S>(v, #[trigger] adv.ranges[i]))
            || listed::<S>(adv.versions, v)),
{
    osv::affected_iff_covered::<S>(v, adv.ranges);
}

/// Whether what is safe is exactly one bound, from the fix on.
pub open spec fn only_from(patched: Seq<Seq<ComparatorM>>, fix: VersionM) -> bool {
    &&& patched.len() == 1
    &&& patched[0].len() == 1
    &&& patched[0][0].op == Op::GreaterEq
    &&& patched[0][0].major == fix.major
    &&& patched[0][0].minor == Some(fix.minor)
    &&& patched[0][0].patch == Some(fix.patch)
    &&& patched[0][0].pre == fix.pre
}

/// What a fix makes safe is one bound, from the fix on; without a fix nothing is safe.
pub proof fn a_fix_is_the_only_bound(fixed: Option<VersionM>)
    ensures
        fixed matches Some(f) ==> only_from(patched_from(fixed), f),
        fixed is None ==> patched_from(fixed).len() == 0,
{
}

/// The fix that a hit names is above the version that was hit, and closes a range that covers
/// it.
pub proof fn a_hit_is_below_its_fix<S: Scheme>(adv: AdvisoryM<S::M>, v: S::M)
    ensures
        hit::<S>(adv, v) matches Some(Some(f)) ==> osv::lt::<S>(v, f) && exists|i: int, k: int|
            0 <= i < adv.ranges.len() && osv::covers::<S>(v, adv.ranges[i]) && 0 <= k
                < adv.ranges[i].events.len() && (#[trigger] adv.ranges[i].events[k]).fixed == Some(
                f,
            ),
{
    osv::a_named_fix_is_above::<S>(v, adv.ranges);
}

/// Whether an occurrence is at a release whose numbers come before those of every fix.
pub open spec fn before_fix(v: VersionM, fixed: Option<VersionM>) -> bool {
    v.pre.len() == 0 && (fixed matches Some(f) ==> version::numbers_below(v, f))
}

/// Whether a finding tells what an advisory says of a package at a version: the advisory and how
/// bad it is, and one occurrence, at that version, for which nothing is safe but what the fix
/// makes so.
pub open spec fn tells(
    x: VulnFindingM,
    adv: AdvisoryM<VersionM>,
    fixed: Option<VersionM>,
    name: Seq<char>,
    v: VersionM,
) -> bool {
    &&& x.advisory_id == adv.id
    &&& x.aliases == adv.aliases
    &&& x.severity == adv.severity
    &&& x.cvss_score == adv.cvss_score
    &&& adv.summary matches Some(s) ==> x.title == s
    &&& adv.summary is None ==> x.title == adv.id
    &&& x.url == Some("https://osv.dev/vulnerability/"@ + adv.id)
    &&& !x.exploit.kev
    &&& x.exploit.epss is None
    &&& x.affected_functions.len() == 0
    &&& x.occurrences.len() == 1
    &&& x.occurrences[0] matches OccurrenceM::InRepo {
        package,
        installed,
        patched,
        active,
        ..
    } && package == name && installed == v && active is None && (match fixed {
        Some(f) => only_from(patched, f),
        None => patched.len() == 0,
    })
}

} // verus!
