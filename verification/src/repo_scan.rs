//! Scanning one repository: which way it is scanned, and what matching it comes to.

use vstd::prelude::*;
use crate::finding::{Ecosystem, RepoId};
use crate::ghactions;
use crate::ghactions::GhActionsDb;
use crate::go;
use crate::go_offline;
use crate::go_offline::{GoDb, Unmatchable, UnmatchableM};
use crate::hex;
use crate::hex::HexDb;
use crate::orchestrate;
use crate::orchestrate::{
    Feeder, GoScanned, GoScannedM, MirrorScan, MirrorScanM, RepoResult,
};

verus! {

/// What has to be done to scan a repository.
#[derive(Debug, Clone, Copy, PartialEq, Eq, Structural)]
pub enum Task {
    /// Reading its Cargo lockfiles.
    Lockfiles,
    /// Running the checker of Go, which builds the module.
    Checker,
    /// Matching its manifest against the mirror of Go.
    GoMirror,
    /// Matching its lockfile against the mirror of its ecosystem.
    Mirror(Feeder),
}

/// How a repository of the ecosystem is scanned: Cargo by its lockfiles, Go by its checker where
/// there is one, everything else by a mirror.
pub open spec fn task_for(e: Ecosystem, has_govulncheck: bool) -> Task {
    match orchestrate::feeder_for(e) {
        Some(f) => Task::Mirror(f),
        None => if e != Ecosystem::Go {
            Task::Lockfiles
        } else if has_govulncheck {
            Task::Checker
        } else {
            Task::GoMirror
        },
    }
}

/// How a repository of the ecosystem is scanned.
pub fn task_of(e: Ecosystem, has_govulncheck: bool) -> (r: Task)
    ensures
        r == task_for(e, has_govulncheck),
{
    match orchestrate::feeder_of(e) {
        Some(f) => Task::Mirror(f),
        None => match e {
            Ecosystem::Go => if has_govulncheck {
                Task::Checker
            } else {
                Task::GoMirror
            },
            _ => Task::Lockfiles,
        },
    }
}

/// Nothing of a repository is built unless it is one of Go and the checker is there.
pub proof fn only_the_checker_builds(e: Ecosystem, has_govulncheck: bool)
    ensures
        task_for(e, has_govulncheck) == Task::Checker <==> e == Ecosystem::Go && has_govulncheck,
{
}

/// A repository is matched against the mirror that is loaded for its ecosystem, and a mirror is
/// loaded wherever one is matched against.
pub proof fn matched_mirrors_are_loaded(ecosystems: Seq<Ecosystem>, i: int, has_govulncheck: bool)
    requires
        0 <= i < ecosystems.len(),
    ensures
        orchestrate::mirror_needed(ecosystems, ecosystems[i], has_govulncheck) <==> (task_for(
            ecosystems[i],
            has_govulncheck,
        ) is Mirror || task_for(ecosystems[i], has_govulncheck) is GoMirror),
{
    assert(ecosystems.contains(ecosystems[i]));
}

// --- Elixir ---

/// Why a repository is not matched where what was skipped cannot be counted.
pub open spec fn uncountable() -> Seq<char> {
    "too many versions that cannot be read"@
}

/// How matching a lockfile of Elixir went, given its mirror and its text.
pub open spec fn hex_scan(
    db: Option<Result<HexDb, String>>,
    mix_lock: Result<String, String>,
    repo: Seq<char>,
) -> MirrorScanM {
    match (db, mix_lock) {
        (None, _) => MirrorScanM::NoMirror,
        (Some(Err(e)), _) => MirrorScanM::BadMirror(e@),
        (Some(Ok(_)), Err(e)) => MirrorScanM::Failed(e@),
        (Some(Ok(d)), Ok(t)) => if hex::unreadable_in(hex::pinned(t@)) <= u32::MAX {
            MirrorScanM::Found(hex::scanned(d.0.deep_view(), t@, repo))
        } else {
            MirrorScanM::Failed(uncountable())
        },
    }
}

/// The result for a repository of Elixir, given its mirror and the text of its lockfile.
pub fn scan_hex_repo(
    repo: &RepoId,
    db: &Option<Result<HexDb, String>>,
    mix_lock: &Result<String, String>,
) -> (r: RepoResult)
    ensures
        r.deep_view() == orchestrate::mirror_result(
            Feeder::Hex,
            repo.deep_view(),
            hex_scan(*db, *mix_lock, repo.deep_view()),
        ),
{
    let s: MirrorScan = match db {
        None => MirrorScan::NoMirror,
        Some(Err(e)) => MirrorScan::BadMirror(e.clone()),
        Some(Ok(d)) => match mix_lock {
            Err(e) => MirrorScan::Failed(e.clone()),
            Ok(t) => match hex::try_scan_offline(t.as_str(), d, repo) {
                Some(s) => MirrorScan::Found(s),
                None => MirrorScan::Failed("too many versions that cannot be read".to_owned()),
            },
        },
    };
    orchestrate::scan_mirror_repo(Feeder::Hex, repo, s)
}

// --- GitHub Actions ---

/// How matching workflows went, given their mirror and their texts.
pub open spec fn ghactions_scan(
    db: Option<Result<GhActionsDb, String>>,
    workflows: Result<Vec<String>, String>,
    repo: Seq<char>,
) -> MirrorScanM {
    match (db, workflows) {
        (None, _) => MirrorScanM::NoMirror,
        (Some(Err(e)), _) => MirrorScanM::BadMirror(e@),
        (Some(Ok(_)), Err(e)) => MirrorScanM::Failed(e@),
        (Some(Ok(d)), Ok(t)) => if ghactions::unversioned_in(
            ghactions::action_set(ghactions::all_actions(t.deep_view())),
        ) <= u32::MAX {
            MirrorScanM::Found(ghactions::scanned(d.0.deep_view(), t.deep_view(), repo))
        } else {
            MirrorScanM::Failed(uncountable())
        },
    }
}

/// The result for a repository with workflows, given their mirror and their texts.
pub fn scan_ghactions_repo(
    repo: &RepoId,
    db: &Option<Result<GhActionsDb, String>>,
    workflows: &Result<Vec<String>, String>,
) -> (r: RepoResult)
    ensures
        r.deep_view() == orchestrate::mirror_result(
            Feeder::GitHubActions,
            repo.deep_view(),
            ghactions_scan(*db, *workflows, repo.deep_view()),
        ),
{
    let s: MirrorScan = match db {
        None => MirrorScan::NoMirror,
        Some(Err(e)) => MirrorScan::BadMirror(e.clone()),
        Some(Ok(d)) => match workflows {
            Err(e) => MirrorScan::Failed(e.clone()),
            Ok(t) => match ghactions::try_scan_offline(t, d, repo) {
                Some(s) => MirrorScan::Found(s),
                None => MirrorScan::Failed("too many versions that cannot be read".to_owned()),
            },
        },
    };
    orchestrate::scan_mirror_repo(Feeder::GitHubActions, repo, s)
}

// --- Go without its checker ---

/// How matching a manifest of Go went, given its mirror and its text.
pub open spec fn go_scan(
    db: Option<Result<GoDb, String>>,
    go_mod: Result<String, String>,
    repo: Seq<char>,
) -> GoScannedM {
    match (db, go_mod) {
        (None, _) => GoScannedM::NoMirror,
        (Some(Err(e)), _) => GoScannedM::BadMirror(e@),
        (Some(Ok(_)), Err(e)) => GoScannedM::MatchFailed(e@),
        (Some(Ok(d)), Ok(t)) => GoScannedM::Matched(
            go_offline::offline_findings(d.deep_view(), t@, repo),
        ),
    }
}

/// The modules of a manifest that could not be matched; none where nothing was.
pub open spec fn go_unmatched(
    db: Option<Result<GoDb, String>>,
    go_mod: Result<String, String>,
) -> Seq<UnmatchableM> {
    match (db, go_mod) {
        (Some(Ok(_)), Ok(t)) => go_offline::unmatchable_in(
            go::requires_in(t@),
            go::replaces_in(t@),
        ),
        _ => Seq::empty(),
    }
}

/// The result for a repository of Go without its checker, given its mirror and the text of its
/// manifest, and the modules that could not be matched.
pub fn match_go_repo(
    repo: &RepoId,
    db: &Option<Result<GoDb, String>>,
    go_mod: &Result<String, String>,
) -> (r: (RepoResult, Vec<Unmatchable>))
    ensures
        r.0.deep_view() == orchestrate::go_result(
            repo.deep_view(),
            go_scan(*db, *go_mod, repo.deep_view()),
        ),
        r.1.deep_view() == go_unmatched(*db, *go_mod),
{
    let mut unmatched: Vec<Unmatchable> = Vec::new();
    assert(unmatched.deep_view() =~= Seq::empty());
    let s: GoScanned = match db {
        None => GoScanned::NoMirror,
        Some(Err(e)) => GoScanned::BadMirror(e.clone()),
        Some(Ok(d)) => match go_mod {
            Err(e) => GoScanned::MatchFailed(e.clone()),
            Ok(t) => {
                let (found, rest) = go_offline::scan_offline(t.as_str(), d, repo);
                unmatched = rest;
                GoScanned::Matched(found)
            },
        },
    };
    (orchestrate::scan_go_repo(repo, s), unmatched)
}

/// A repository counts as read exactly where its mirror was loaded, its own files were read and
/// what was skipped can be counted; else it is a gap.
pub proof fn read_means_matched(
    repo: Seq<char>,
    hex_db: Option<Result<HexDb, String>>,
    mix_lock: Result<String, String>,
    gha_db: Option<Result<GhActionsDb, String>>,
    workflows: Result<Vec<String>, String>,
    go_db: Option<Result<GoDb, String>>,
    go_mod: Result<String, String>,
)
    ensures
        orchestrate::mirror_result(
            Feeder::Hex,
            repo,
            hex_scan(hex_db, mix_lock, repo),
        ).outcome.status is Scanned <==> (hex_db matches Some(Ok(_)) && mix_lock matches Ok(t)
            && hex::unreadable_in(hex::pinned(t@)) <= u32::MAX),
        orchestrate::mirror_result(
            Feeder::GitHubActions,
            repo,
            ghactions_scan(gha_db, workflows, repo),
        ).outcome.status is Scanned <==> (gha_db matches Some(Ok(_)) && workflows matches Ok(t)
            && ghactions::unversioned_in(
            ghactions::action_set(ghactions::all_actions(t.deep_view())),
        ) <= u32::MAX),
        orchestrate::go_result(repo, go_scan(go_db, go_mod, repo)).outcome.status is Scanned
            <==> (go_db matches Some(Ok(_)) && go_mod is Ok),
{
}

} // verus!
