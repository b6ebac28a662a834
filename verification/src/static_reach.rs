//! What a call-graph analysis of each repository says of the findings in it. Only where every
//! occurrence is shown to be unreachable is a finding unreachable.
use vstd::prelude::*;
use vstd::string::*;
use vstd::utf8::*;
use sha2::Digest;
use crate::cut;
use crate::finding;
use crate::finding::{
    Occurrence, OccurrenceM, ReachVerdict, ReachVerdictM, Reachability, ReachabilityM, VulnFinding,
    VulnFindingM,
};
use crate::report::{FleetReport, FleetReportM};
use crate::text;
use crate::textmap::TextMap;
use crate::value;
use crate::value::Plain;

verus! {

/// The toolchain that the analysis is made with. Verdicts hold for it.
pub const TOOLCHAIN: &'static str = "nightly-2026-06-27";

// --- Outcomes ---

/// What the analysis says of one function in one repository.
#[verifier::ext_equal]
pub enum VerdictM {
    Reachable { witness: Seq<Seq<char>> },
    NotReachable,
    Unknown { reason: Seq<char> },
}

/// What the analysis says of one function in one repository.
#[derive(Debug)]
pub enum Verdict {
    Reachable { witness: Vec<String> },
    NotReachable,
    Unknown { reason: String },
}

impl DeepView for Verdict {
    type V = VerdictM;

    open spec fn deep_view(&self) -> VerdictM {
        match self {
            Verdict::Reachable { witness } => VerdictM::Reachable { witness: witness.deep_view() },
            Verdict::NotReachable => VerdictM::NotReachable,
            Verdict::Unknown { reason } => VerdictM::Unknown { reason: reason@ },
        }
    }
}

/// The analysis of one repository: a verdict for each function by its path, and the key of
/// what was analyzed.
#[derive(Debug)]
pub struct RepoData {
    pub verdicts: TextMap<Verdict>,
    pub cache_key: Option<String>,
}

#[verifier::ext_equal]
pub struct RepoDataM {
    pub verdicts: Map<Seq<char>, VerdictM>,
    pub cache_key: Option<Seq<char>>,
}

impl DeepView for RepoData {
    type V = RepoDataM;

    open spec fn deep_view(&self) -> RepoDataM {
        RepoDataM {
            verdicts: self.verdicts.deep_view(),
            cache_key: self.cache_key.deep_view(),
        }
    }
}

/// How the analysis of one repository ended.
#[derive(Debug)]
pub enum RepoOutcome {
    Analyzed(RepoData),
    Failed(String),
}

#[verifier::ext_equal]
pub enum RepoOutcomeM {
    Analyzed(RepoDataM),
    Failed(Seq<char>),
}

impl DeepView for RepoOutcome {
    type V = RepoOutcomeM;

    open spec fn deep_view(&self) -> RepoOutcomeM {
        match self {
            RepoOutcome::Analyzed(d) => RepoOutcomeM::Analyzed(d.deep_view()),
            RepoOutcome::Failed(e) => RepoOutcomeM::Failed(e@),
        }
    }
}

/// The analysis of a repository, where it was made.
pub open spec fn data_of(outcomes: Map<Seq<char>, RepoOutcomeM>, repo: Seq<char>) -> Option<
    RepoDataM,
> {
    if outcomes.dom().contains(repo) {
        match outcomes[repo] {
            RepoOutcomeM::Analyzed(d) => Some(d),
            RepoOutcomeM::Failed(_) => None,
        }
    } else {
        None
    }
}

fn find_data<'a>(outcomes: &'a TextMap<RepoOutcome>, repo: &str) -> (r: Option<&'a RepoData>)
    ensures
        match r {
            Some(d) => data_of(outcomes.deep_view(), repo@) == Some(d.deep_view()),
            None => data_of(outcomes.deep_view(), repo@) is None,
        },
{
    match outcomes.get(repo) {
        Some(RepoOutcome::Analyzed(d)) => Some(d),
        _ => None,
    }
}

// --- What to analyze ---

/// The repositories that a finding is in, in order.
pub open spec fn repos_in(occurrences: Seq<OccurrenceM>) -> Seq<Seq<char>>
    decreases occurrences.len(),
{
    if occurrences.len() == 0 {
        Seq::empty()
    } else {
        let front = repos_in(occurrences.drop_last());
        match occurrences.last() {
            OccurrenceM::InRepo { repo, .. } => front.push(repo),
            OccurrenceM::Toolchain { .. } => front,
        }
    }
}

/// The repositories that a finding is in, in order.
pub fn repos_of(v: &VulnFinding) -> (r: Vec<String>)
    ensures
        r.deep_view() == repos_in(v.deep_view().occurrences),
{
    let ghost all = v.occurrences.deep_view();
    let mut r: Vec<String> = Vec::new();
    let mut i: usize = 0;
    proof {
        assert(all.take(0) =~= Seq::empty());
        assert(r.deep_view() =~= Seq::empty());
    }
    while i < v.occurrences.len()
        invariant
            i <= v.occurrences.len(),
            all == v.occurrences.deep_view(),
            r.deep_view() == repos_in(all.take(i as int)),
        decreases v.occurrences.len() - i,
    {
        proof {
            assert(all.take(i + 1).drop_last() =~= all.take(i as int));
            assert(all.take(i + 1).last() == v.occurrences[i as int].deep_view());
        }
        if let Occurrence::InRepo { repo, .. } = &v.occurrences[i] {
            let ghost before = r.deep_view();
            let name: String = repo.0.clone();
            r.push(name);
            assert(r.deep_view() =~= before.push(name@));
        }
        i += 1;
    }
    assert(all.take(i as int) =~= all);
    r
}

/// The functions to look for, with those of one more finding in the repositories.
pub open spec fn with_sinks(
    m: Map<Seq<char>, Seq<Seq<char>>>,
    repos: Seq<Seq<char>>,
    functions: Seq<Seq<char>>,
) -> Map<Seq<char>, Seq<Seq<char>>>
    decreases repos.len(),
{
    if repos.len() == 0 {
        m
    } else {
        let front = with_sinks(m, repos.drop_last(), functions);
        front.insert(
            repos.last(),
            value::text_set(
                (if front.dom().contains(repos.last()) {
                    front[repos.last()]
                } else {
                    Seq::empty()
                }) + functions,
            ),
        )
    }
}

/// The functions to look for in each repository: those that the findings in it name.
pub open spec fn sinks_in(vulns: Seq<VulnFindingM>) -> Map<Seq<char>, Seq<Seq<char>>>
    decreases vulns.len(),
{
    if vulns.len() == 0 {
        Map::empty()
    } else {
        let front = sinks_in(vulns.drop_last());
        if vulns.last().affected_functions.len() == 0 {
            front
        } else {
            with_sinks(front, repos_in(vulns.last().occurrences), vulns.last().affected_functions)
        }
    }
}

/// The functions to look for in each repository.
pub fn sinks_by_repo(report: &FleetReport) -> (r: TextMap<Vec<String>>)
    ensures
        r.deep_view() == sinks_in(report.deep_view().vulnerabilities),
{
    let vulns: &Vec<VulnFinding> = &report.vulnerabilities;
    let ghost all = vulns.deep_view();
    let mut m: TextMap<Vec<String>> = TextMap::new();
    let mut i: usize = 0;
    assert(all.take(0) =~= Seq::empty());
    while i < vulns.len()
        invariant
            i <= vulns.len(),
            all == vulns.deep_view(),
            m.deep_view() == sinks_in(all.take(i as int)),
        decreases vulns.len() - i,
    {
        let v: &VulnFinding = &vulns[i];
        proof {
            assert(all.take(i + 1).drop_last() =~= all.take(i as int));
            assert(all.take(i + 1).last() == v.deep_view());
            assert(v.affected_functions.deep_view().len() == v.affected_functions.len());
        }
        if v.affected_functions.len() > 0 {
            let repos: Vec<String> = repos_of(v);
            let ghost names = repos.deep_view();
            let ghost start = m.deep_view();
            let mut j: usize = 0;
            assert(names.take(0) =~= Seq::empty());
            while j < repos.len()
                invariant
                    j <= repos.len(),
                    names == repos.deep_view(),
                    m.deep_view() == with_sinks(
                        start,
                        names.take(j as int),
                        v.affected_functions.deep_view(),
                    ),
                decreases repos.len() - j,
            {
                assert(names.take(j + 1).drop_last() =~= names.take(j as int));
                let ghost before = m.deep_view();
                let (rest, had) = m.take(repos[j].as_str());
                let mut set: Vec<String> = match had {
                    Some(s) => s,
                    None => Vec::new(),
                };
                proof {
                    if had is None {
                        assert(set.deep_view() =~= Seq::empty());
                    }
                }
                value::append(&mut set, v.affected_functions.copy());
                m = rest.insert(repos[j].clone(), value::sort_texts(set));
                assert(m.deep_view() =~= before.insert(
                    names[j as int],
                    m.deep_view()[names[j as int]],
                ));
                j += 1;
            }
            assert(names.take(j as int) =~= names);
        }
        i += 1;
    }
    assert(all.take(i as int) =~= all);
    m
}

// --- Combining ---

/// The first witness for one of the functions.
pub open spec fn witness_in(d: RepoDataM, functions: Seq<Seq<char>>) -> Option<Seq<Seq<char>>>
    decreases functions.len(),
{
    if functions.len() == 0 {
        None
    } else {
        match witness_in(d, functions.drop_last()) {
            Some(w) => Some(w),
            None => if d.verdicts.dom().contains(functions.last()) {
                match d.verdicts[functions.last()] {
                    VerdictM::Reachable { witness } => Some(witness),
                    _ => None,
                }
            } else {
                None
            },
        }
    }
}

/// The first witness in one of the repositories.
pub open spec fn first_witness(
    outcomes: Map<Seq<char>, RepoOutcomeM>,
    repos: Seq<Seq<char>>,
    functions: Seq<Seq<char>>,
) -> Option<Seq<Seq<char>>>
    decreases repos.len(),
{
    if repos.len() == 0 {
        None
    } else {
        match first_witness(outcomes, repos.drop_last(), functions) {
            Some(w) => Some(w),
            None => match data_of(outcomes, repos.last()) {
                Some(d) => witness_in(d, functions),
                None => None,
            },
        }
    }
}

proof fn lemma_witness_stays(d: RepoDataM, functions: Seq<Seq<char>>, n: int)
    requires
        0 <= n <= functions.len(),
        witness_in(d, functions.take(n)) is Some,
    ensures
        witness_in(d, functions) == witness_in(d, functions.take(n)),
    decreases functions.len(),
{
    if n < functions.len() {
        assert(functions.drop_last().take(n) =~= functions.take(n));
        lemma_witness_stays(d, functions.drop_last(), n);
    } else {
        assert(functions.take(n) =~= functions);
    }
}

proof fn lemma_first_stays(
    outcomes: Map<Seq<char>, RepoOutcomeM>,
    repos: Seq<Seq<char>>,
    functions: Seq<Seq<char>>,
    n: int,
)
    requires
        0 <= n <= repos.len(),
        first_witness(outcomes, repos.take(n), functions) is Some,
    ensures
        first_witness(outcomes, repos, functions) == first_witness(
            outcomes,
            repos.take(n),
            functions,
        ),
    decreases repos.len(),
{
    if n < repos.len() {
        assert(repos.drop_last().take(n) =~= repos.take(n));
        lemma_first_stays(outcomes, repos.drop_last(), functions, n);
    } else {
        assert(repos.take(n) =~= repos);
    }
}

/// Nothing definite is known of the function.
pub open spec fn undecided(d: RepoDataM, function: Seq<char>) -> bool {
    !d.verdicts.dom().contains(function) || d.verdicts[function] is Unknown
}

pub open spec fn unreachable_in(d: RepoDataM, function: Seq<char>) -> bool {
    d.verdicts.dom().contains(function) && d.verdicts[function] is NotReachable
}

/// The repository was not analyzed, or some function is undecided in it.
pub open spec fn repo_unknown(
    outcomes: Map<Seq<char>, RepoOutcomeM>,
    repo: Seq<char>,
    functions: Seq<Seq<char>>,
) -> bool {
    match data_of(outcomes, repo) {
        None => true,
        Some(d) => exists|j: int|
            0 <= j < functions.len() && undecided(d, #[trigger] functions[j]),
    }
}

pub open spec fn repo_unreachable(
    outcomes: Map<Seq<char>, RepoOutcomeM>,
    repo: Seq<char>,
    functions: Seq<Seq<char>>,
) -> bool {
    match data_of(outcomes, repo) {
        None => false,
        Some(d) => exists|j: int|
            0 <= j < functions.len() && unreachable_in(d, #[trigger] functions[j]),
    }
}

pub open spec fn some_unknown(
    outcomes: Map<Seq<char>, RepoOutcomeM>,
    repos: Seq<Seq<char>>,
    functions: Seq<Seq<char>>,
) -> bool {
    exists|i: int| 0 <= i < repos.len() && repo_unknown(outcomes, #[trigger] repos[i], functions)
}

pub open spec fn some_unreachable(
    outcomes: Map<Seq<char>, RepoOutcomeM>,
    repos: Seq<Seq<char>>,
    functions: Seq<Seq<char>>,
) -> bool {
    exists|i: int|
        0 <= i < repos.len() && repo_unreachable(outcomes, #[trigger] repos[i], functions)
}

/// The verdict on a finding: reached where some function is reached anywhere, with the first
/// witness; else unknown where anything is undecided; else unreachable where anything says so.
pub open spec fn combined(
    outcomes: Map<Seq<char>, RepoOutcomeM>,
    repos: Seq<Seq<char>>,
    functions: Seq<Seq<char>>,
) -> ReachVerdictM {
    match first_witness(outcomes, repos, functions) {
        Some(witness) => ReachVerdictM::Reachable { witness },
        None => if some_unknown(outcomes, repos, functions) {
            ReachVerdictM::Unknown {
                reason:
                    "could not prove unreachable for every occurrence (build failure, opaque boundary, or unresolved sink)"@,
            }
        } else if some_unreachable(outcomes, repos, functions) {
            ReachVerdictM::NotReachable
        } else {
            ReachVerdictM::Unknown {
                reason: "no affected function resolved to a call-graph node"@,
            }
        },
    }
}

fn find_witness(d: &RepoData, functions: &Vec<String>) -> (r: Option<Vec<String>>)
    ensures
        r.deep_view() == witness_in(d.deep_view(), functions.deep_view()),
{
    let ghost all = functions.deep_view();
    let mut i: usize = 0;
    assert(all.take(0) =~= Seq::empty());
    while i < functions.len()
        invariant
            i <= functions.len(),
            all == functions.deep_view(),
            witness_in(d.deep_view(), all.take(i as int)) is None,
        decreases functions.len() - i,
    {
        assert(all.take(i + 1).drop_last() =~= all.take(i as int));
        if let Some(Verdict::Reachable { witness }) = d.verdicts.get(functions[i].as_str()) {
            proof {
                lemma_witness_stays(d.deep_view(), all, i + 1);
            }
            return Some(witness.copy());
        }
        i += 1;
    }
    assert(all.take(i as int) =~= all);
    None
}

fn find_first_witness(
    outcomes: &TextMap<RepoOutcome>,
    repos: &Vec<String>,
    functions: &Vec<String>,
) -> (r: Option<Vec<String>>)
    ensures
        r.deep_view() == first_witness(
            outcomes.deep_view(),
            repos.deep_view(),
            functions.deep_view(),
        ),
{
    let ghost all = repos.deep_view();
    let mut i: usize = 0;
    assert(all.take(0) =~= Seq::empty());
    while i < repos.len()
        invariant
            i <= repos.len(),
            all == repos.deep_view(),
            first_witness(outcomes.deep_view(), all.take(i as int), functions.deep_view()) is None,
        decreases repos.len() - i,
    {
        assert(all.take(i + 1).drop_last() =~= all.take(i as int));
        if let Some(d) = find_data(outcomes, repos[i].as_str()) {
            if let Some(w) = find_witness(d, functions) {
                proof {
                    lemma_first_stays(outcomes.deep_view(), all, functions.deep_view(), i + 1);
                }
                return Some(w);
            }
        }
        i += 1;
    }
    assert(all.take(i as int) =~= all);
    None
}

fn is_repo_unknown(
    outcomes: &TextMap<RepoOutcome>,
    repo: &str,
    functions: &Vec<String>,
) -> (r: bool)
    ensures
        r == repo_unknown(outcomes.deep_view(), repo@, functions.deep_view()),
{
    match find_data(outcomes, repo) {
        None => true,
        Some(d) => {
            let ghost all = functions.deep_view();
            let mut j: usize = 0;
            while j < functions.len()
                invariant
                    j <= functions.len(),
                    all == functions.deep_view(),
                    data_of(outcomes.deep_view(), repo@) == Some(d.deep_view()),
                    forall|k: int| 0 <= k < j ==> !undecided(d.deep_view(), #[trigger] all[k]),
                decreases functions.len() - j,
            {
                assert(functions[j as int]@ == all[j as int]);
                let decided: bool = match d.verdicts.get(functions[j].as_str()) {
                    Some(Verdict::Reachable { .. }) => true,
                    Some(Verdict::NotReachable) => true,
                    Some(Verdict::Unknown { .. }) => false,
                    None => false,
                };
                if !decided {
                    assert(undecided(d.deep_view(), all[j as int]));
                    return true;
                }
                j += 1;
            }
            false
        },
    }
}

fn is_repo_unreachable(
    outcomes: &TextMap<RepoOutcome>,
    repo: &str,
    functions: &Vec<String>,
) -> (r: bool)
    ensures
        r == repo_unreachable(outcomes.deep_view(), repo@, functions.deep_view()),
{
    match find_data(outcomes, repo) {
        None => false,
        Some(d) => {
            let ghost all = functions.deep_view();
            let mut j: usize = 0;
            while j < functions.len()
                invariant
                    j <= functions.len(),
                    all == functions.deep_view(),
                    data_of(outcomes.deep_view(), repo@) == Some(d.deep_view()),
                    forall|k: int| 0 <= k < j ==> !unreachable_in(d.deep_view(), #[trigger] all[k]),
                decreases functions.len() - j,
            {
                assert(functions[j as int]@ == all[j as int]);
                if let Some(Verdict::NotReachable) = d.verdicts.get(functions[j].as_str()) {
                    assert(unreachable_in(d.deep_view(), all[j as int]));
                    return true;
                }
                j += 1;
            }
            false
        },
    }
}

/// The verdict on a finding over the analyses of its repositories.
pub fn combine(v: &VulnFinding, outcomes: &TextMap<RepoOutcome>) -> (r: ReachVerdict)
    ensures
        r.deep_view() == combined(
            outcomes.deep_view(),
            repos_in(v.deep_view().occurrences),
            v.deep_view().affected_functions,
        ),
{
    let repos: Vec<String> = repos_of(v);
    let functions: &Vec<String> = &v.affected_functions;
    if let Some(witness) = find_first_witness(outcomes, &repos, functions) {
        return ReachVerdict::Reachable { witness };
    }
    let ghost all = repos.deep_view();
    let mut unreachable: bool = false;
    let mut i: usize = 0;
    while i < repos.len()
        invariant
            i <= repos.len(),
            all == repos.deep_view(),
            all == repos_in(v.deep_view().occurrences),
            functions.deep_view() == v.deep_view().affected_functions,
            first_witness(outcomes.deep_view(), all, functions.deep_view()) is None,
            forall|k: int|
                0 <= k < i ==> !repo_unknown(
                    outcomes.deep_view(),
                    #[trigger] all[k],
                    functions.deep_view(),
                ),
            unreachable == exists|k: int|
                0 <= k < i && repo_unreachable(
                    outcomes.deep_view(),
                    #[trigger] all[k],
                    functions.deep_view(),
                ),
        decreases repos.len() - i,
    {
        assert(repos[i as int]@ == all[i as int]);
        if is_repo_unknown(outcomes, repos[i].as_str(), functions) {
            return ReachVerdict::Unknown {
                reason:
                    "could not prove unreachable for every occurrence (build failure, opaque boundary, or unresolved sink)".to_owned(),
            };
        }
        if is_repo_unreachable(outcomes, repos[i].as_str(), functions) {
            unreachable = true;
        }
        i += 1;
    }
    assert(all.len() == repos.len());
    if unreachable {
        ReachVerdict::NotReachable
    } else {
        ReachVerdict::Unknown {
            reason: "no affected function resolved to a call-graph node".to_owned(),
        }
    }
}

/// A finding is unreachable only where every repository that it is in was analyzed and every
/// one of its functions is shown to be unreachable there.
pub proof fn unreachable_is_uncontested(
    outcomes: Map<Seq<char>, RepoOutcomeM>,
    repos: Seq<Seq<char>>,
    functions: Seq<Seq<char>>,
    i: int,
    j: int,
)
    requires
        combined(outcomes, repos, functions) is NotReachable,
        0 <= i < repos.len(),
        0 <= j < functions.len(),
    ensures
        data_of(outcomes, repos[i]) matches Some(d) && unreachable_in(d, functions[j]),
{
    assert(!repo_unknown(outcomes, repos[i], functions));
    let d = data_of(outcomes, repos[i])->0;
    assert(!undecided(d, functions[j]));
    lemma_no_witness(outcomes, repos, functions, i);
    lemma_no_witness_in(d, functions, j);
}

/// A failed analysis never makes a finding unreachable.
pub proof fn failure_is_unknown(
    outcomes: Map<Seq<char>, RepoOutcomeM>,
    repos: Seq<Seq<char>>,
    functions: Seq<Seq<char>>,
    i: int,
)
    requires
        0 <= i < repos.len(),
        data_of(outcomes, repos[i]) is None,
    ensures
        !(combined(outcomes, repos, functions) is NotReachable),
{
    assert(repo_unknown(outcomes, repos[i], functions));
}

proof fn lemma_no_witness(
    outcomes: Map<Seq<char>, RepoOutcomeM>,
    repos: Seq<Seq<char>>,
    functions: Seq<Seq<char>>,
    i: int,
)
    requires
        first_witness(outcomes, repos, functions) is None,
        0 <= i < repos.len(),
    ensures
        data_of(outcomes, repos[i]) matches Some(d) ==> witness_in(d, functions) is None,
    decreases repos.len(),
{
    if i < repos.len() - 1 {
        assert(repos.drop_last()[i] == repos[i]);
        lemma_no_witness(outcomes, repos.drop_last(), functions, i);
    }
}

proof fn lemma_no_witness_in(d: RepoDataM, functions: Seq<Seq<char>>, j: int)
    requires
        witness_in(d, functions) is None,
        0 <= j < functions.len(),
    ensures
        d.verdicts.dom().contains(functions[j]) ==> !(d.verdicts[functions[j]] is Reachable),
    decreases functions.len(),
{
    if j < functions.len() - 1 {
        assert(functions.drop_last()[j] == functions[j]);
        lemma_no_witness_in(d, functions.drop_last(), j);
    }
}

// --- Witness hashes ---

/// The parts, each after a zero character.
pub open spec fn framed(parts: Seq<Seq<char>>) -> Seq<char>
    decreases parts.len(),
{
    if parts.len() == 0 {
        Seq::empty()
    } else {
        framed(parts.drop_last()).push('\0') + parts.last()
    }
}

/// What the witness of a verdict is the hash of: the toolchain, the engine, the functions and
/// the keys of what was analyzed, the last two each as a set.
pub open spec fn witness_input(
    engine: Seq<char>,
    sinks: Seq<Seq<char>>,
    cache_keys: Seq<Seq<char>>,
) -> Seq<char> {
    TOOLCHAIN@ + framed(seq![engine] + value::text_set(sinks) + value::text_set(cache_keys))
}

/// What `sha2::Sha256` gives for the bytes.
pub uninterp spec fn sha256_of(data: Seq<u8>) -> Seq<u8>;

/// `sha2::Sha256::digest` gives the 32 bytes of the hash, which depend on the data alone.
#[verifier::external_body]
fn sha256(data: &Vec<u8>) -> (r: Vec<u8>)
    ensures
        r@ == sha256_of(data@),
        r@.len() == 32,
{
    sha2::Sha256::digest(data).to_vec()
}

pub open spec fn hex_digit(d: int) -> char {
    if d < 10 {
        (48 + d) as char
    } else {
        (87 + d) as char
    }
}

/// The bytes, each as two hexadecimal digits in lower case.
pub open spec fn hex_text(bytes: Seq<u8>) -> Seq<char>
    decreases bytes.len(),
{
    if bytes.len() == 0 {
        Seq::empty()
    } else {
        hex_text(bytes.drop_last()).push(hex_digit(bytes.last() as int / 16)).push(
            hex_digit(bytes.last() as int % 16),
        )
    }
}

fn digit(d: u8) -> (r: char)
    requires
        d < 16,
    ensures
        r == hex_digit(d as int),
{
    if d < 10 {
        (48u8 + d) as char
    } else {
        (87u8 + d) as char
    }
}

/// The text of a witness with the given hash.
pub fn witness_text(hash: &Vec<u8>) -> (r: String)
    ensures
        r@ == "sha256:"@ + hex_text(hash@),
{
    let mut r: String = "sha256:".to_owned();
    let mut i: usize = 0;
    proof {
        assert(hash@.take(0) =~= Seq::empty());
        assert(r@ =~= "sha256:"@ + hex_text(hash@.take(0)));
    }
    while i < hash.len()
        invariant
            i <= hash.len(),
            r@ == "sha256:"@ + hex_text(hash@.take(i as int)),
        decreases hash.len() - i,
    {
        assert(hash@.take(i + 1).drop_last() =~= hash@.take(i as int));
        let b: u8 = hash[i];
        let ghost before = r@;
        r.push(digit(b / 16));
        r.push(digit(b % 16));
        i += 1;
        assert(r@ =~= "sha256:"@ + hex_text(hash@.take(i as int)));
    }
    assert(hash@.take(i as int) =~= hash@);
    r
}

fn push_framed(r: &mut String, parts: &Vec<String>)
    ensures
        final(r)@ == old(r)@ + framed(parts.deep_view()),
{
    let ghost all = parts.deep_view();
    let ghost start = r@;
    let mut i: usize = 0;
    proof {
        assert(all.take(0) =~= Seq::empty());
        assert(r@ =~= start + framed(all.take(0)));
    }
    while i < parts.len()
        invariant
            i <= parts.len(),
            all == parts.deep_view(),
            r@ == start + framed(all.take(i as int)),
        decreases parts.len() - i,
    {
        assert(all.take(i + 1).drop_last() =~= all.take(i as int));
        r.push('\0');
        r.append(parts[i].as_str());
        i += 1;
        assert(r@ =~= start + framed(all.take(i as int)));
    }
    assert(all.take(i as int) =~= all);
}

/// The text of the witness for the inputs.
pub open spec fn witness_for(
    engine: Seq<char>,
    sinks: Seq<Seq<char>>,
    cache_keys: Seq<Seq<char>>,
) -> Seq<char> {
    "sha256:"@ + hex_text(sha256_of(encode_utf8(witness_input(engine, sinks, cache_keys))))
}

/// The witness that goes with an answer: the hash of all that the answer rests on.
pub fn witness_hash(engine: &str, sinks: &Vec<String>, cache_keys: &Vec<String>) -> (r: String)
    ensures
        r@ == witness_for(engine@, sinks.deep_view(), cache_keys.deep_view()),
{
    let mut parts: Vec<String> = Vec::new();
    parts.push(engine.to_owned());
    assert(parts.deep_view() =~= seq![engine@]);
    value::append(&mut parts, value::sort_texts(sinks.copy()));
    value::append(&mut parts, value::sort_texts(cache_keys.copy()));
    let mut input: String = TOOLCHAIN.to_owned();
    push_framed(&mut input, &parts);
    let bytes: Vec<u8> = input.as_str().as_bytes_vec();
    let hash: Vec<u8> = sha256(&bytes);
    witness_text(&hash)
}

/// The order in which functions and keys are given does not matter, nor how often.
pub proof fn witness_ignores_order(
    engine: Seq<char>,
    a: Seq<Seq<char>>,
    b: Seq<Seq<char>>,
    k: Seq<Seq<char>>,
    l: Seq<Seq<char>>,
)
    requires
        forall|x: Seq<char>| #[trigger] a.contains(x) == b.contains(x),
        forall|x: Seq<char>| #[trigger] k.contains(x) == l.contains(x),
    ensures
        witness_for(engine, a, k) == witness_for(engine, b, l),
{
    value::lemma_text_set_of_same(a, b);
    value::lemma_text_set_of_same(k, l);
}

/// The text holds no zero character.
pub open spec fn zero_free(s: Seq<char>) -> bool {
    !s.contains('\0')
}

pub open spec fn all_zero_free(s: Seq<Seq<char>>) -> bool {
    forall|i: int| 0 <= i < s.len() ==> zero_free(#[trigger] s[i])
}

proof fn lemma_split_plain(front: Seq<char>, x: Seq<char>)
    requires
        zero_free(x),
        text::split_on(front, '\0').len() > 0,
    ensures
        text::split_on(front + x, '\0') == text::split_on(front, '\0').drop_last().push(
            text::split_on(front, '\0').last() + x,
        ),
    decreases x.len(),
{
    let f = text::split_on(front, '\0');
    if x.len() == 0 {
        assert(front + x =~= front);
        assert(f.last() + x =~= f.last());
        assert(f =~= f.drop_last().push(f.last()));
    } else {
        let y = x.drop_last();
        assert(zero_free(y)) by {
            if y.contains('\0') {
                let i = choose|i: int| 0 <= i < y.len() && y[i] == '\0';
                assert(x[i] == '\0');
            }
        }
        lemma_split_plain(front, y);
        assert((front + x).drop_last() =~= front + y);
        assert((front + x).last() == x.last());
        assert(x[x.len() - 1] != '\0');
        let g = text::split_on(front + y, '\0');
        assert(g.drop_last() =~= f.drop_last());
        assert(g.last() == f.last() + y);
        assert((f.last() + y).push(x.last()) =~= f.last() + x);
    }
}

proof fn lemma_split_framed(start: Seq<char>, parts: Seq<Seq<char>>)
    requires
        zero_free(start),
        all_zero_free(parts),
    ensures
        text::split_on(start + framed(parts), '\0') == seq![start] + parts,
    decreases parts.len(),
{
    if parts.len() == 0 {
        lemma_split_plain(Seq::empty(), start);
        assert(Seq::<char>::empty() + start =~= start);
        assert(start + framed(parts) =~= start);
        assert(text::split_on(start, '\0') =~= seq![start] + parts);
    } else {
        let p = parts.drop_last();
        assert(all_zero_free(p)) by {
            assert forall|i: int| 0 <= i < p.len() implies zero_free(#[trigger] p[i]) by {
                assert(p[i] == parts[i]);
            }
        }
        lemma_split_framed(start, p);
        let front = (start + framed(p)).push('\0');
        assert(front.drop_last() =~= start + framed(p));
        let f = text::split_on(front, '\0');
        assert(f == (seq![start] + p).push(Seq::empty()));
        assert(zero_free(parts[parts.len() - 1]));
        lemma_split_plain(front, parts.last());
        assert(start + framed(parts) =~= front + parts.last());
        assert(Seq::<char>::empty() + parts.last() =~= parts.last());
        assert(f.drop_last() =~= seq![start] + p);
        assert((seq![start] + p).push(parts.last()) =~= seq![start] + parts);
    }
}

/// Whether some text is both a function and a key.
pub open spec fn shared(functions: Seq<Seq<char>>, keys: Seq<Seq<char>>) -> bool {
    exists|x: Seq<char>| functions.contains(x) && #[trigger] keys.contains(x)
}

/// What is hashed determines the engine, the functions and the keys, as long as none of them
/// holds a zero character and no function of one verdict is a key of another: any change of
/// what a verdict rests on changes what is hashed. The keys follow the functions without a mark
/// between them, so that a function that is a key elsewhere can stand for that key.
pub proof fn witness_binds_its_inputs(
    e1: Seq<char>,
    s1: Seq<Seq<char>>,
    k1: Seq<Seq<char>>,
    e2: Seq<char>,
    s2: Seq<Seq<char>>,
    k2: Seq<Seq<char>>,
)
    requires
        zero_free(e1) && all_zero_free(s1) && all_zero_free(k1),
        zero_free(e2) && all_zero_free(s2) && all_zero_free(k2),
        witness_input(e1, s1, k1) == witness_input(e2, s2, k2),
    ensures
        e1 == e2,
        shared(s1, k2) || shared(s2, k1) || forall|x: Seq<char>|
            #![trigger s1.contains(x)]
            #![trigger s2.contains(x)]
            #![trigger k1.contains(x)]
            #![trigger k2.contains(x)]
            s1.contains(x) == s2.contains(x) && k1.contains(x) == k2.contains(x),
{
    let (f1, f2) = (value::text_set(s1), value::text_set(s2));
    let (g1, g2) = (value::text_set(k1), value::text_set(k2));
    let p1 = seq![e1] + f1 + g1;
    let p2 = seq![e2] + f2 + g2;
    assert(zero_free(TOOLCHAIN@)) by {
        reveal_strlit("nightly-2026-06-27");
    }
    lemma_parts_zero_free(e1, s1, k1);
    lemma_parts_zero_free(e2, s2, k2);
    lemma_split_framed(TOOLCHAIN@, p1);
    lemma_split_framed(TOOLCHAIN@, p2);
    let a = seq![TOOLCHAIN@] + p1;
    let b = seq![TOOLCHAIN@] + p2;
    assert(a == b);
    assert(a[1] == e1 && b[1] == e2);
    value::lemma_text_set(s1);
    value::lemma_text_set(s2);
    value::lemma_text_set(k1);
    value::lemma_text_set(k2);
    let n: int = if f1.len() < f2.len() {
        2 + f1.len() as int
    } else {
        2 + f2.len() as int
    };
    if f1.len() < f2.len() {
        assert(a[n] == g1[0] && b[n] == f2[f1.len() as int]);
        assert(f2.contains(a[n]) && g1.contains(a[n]));
        assert(s2.contains(a[n]) && k1.contains(a[n]));
    } else if f2.len() < f1.len() {
        assert(b[n] == g2[0] && a[n] == f1[f2.len() as int]);
        assert(f1.contains(a[n]) && g2.contains(a[n]));
        assert(s1.contains(a[n]) && k2.contains(a[n]));
    } else {
        assert(a.subrange(2, n) =~= f1);
        assert(b.subrange(2, n) =~= f2);
        assert(a.skip(n) =~= g1);
        assert(b.skip(n) =~= g2);
        assert forall|x: Seq<char>|
            #![trigger s1.contains(x)]
            #![trigger s2.contains(x)]
            #![trigger k1.contains(x)]
            #![trigger k2.contains(x)]
            s1.contains(x) == s2.contains(x) && k1.contains(x) == k2.contains(x) by {
            assert(f1.contains(x) == s1.contains(x));
            assert(f2.contains(x) == s2.contains(x));
            assert(g1.contains(x) == k1.contains(x));
            assert(g2.contains(x) == k2.contains(x));
        }
    }
}

proof fn lemma_parts_zero_free(e: Seq<char>, s: Seq<Seq<char>>, k: Seq<Seq<char>>)
    requires
        zero_free(e) && all_zero_free(s) && all_zero_free(k),
    ensures
        all_zero_free(seq![e] + value::text_set(s) + value::text_set(k)),
{
    let p = seq![e] + value::text_set(s) + value::text_set(k);
    value::lemma_text_set(s);
    value::lemma_text_set(k);
    assert forall|i: int| 0 <= i < p.len() implies zero_free(#[trigger] p[i]) by {
        let n: int = value::text_set(s).len() as int;
        if i == 0 {
        } else if i < 1 + n {
            let x = value::text_set(s)[i - 1];
            assert(value::text_set(s).contains(x));
            assert(s.contains(x));
            let j = choose|j: int| 0 <= j < s.len() && s[j] == x;
            assert(zero_free(s[j]));
        } else {
            let x = value::text_set(k)[i - 1 - n];
            assert(value::text_set(k).contains(x));
            assert(k.contains(x));
            let j = choose|j: int| 0 <= j < k.len() && k[j] == x;
            assert(zero_free(k[j]));
        }
    }
}

// --- Annotation ---

/// The keys of what was analyzed in the repositories.
pub open spec fn keys_of(
    outcomes: Map<Seq<char>, RepoOutcomeM>,
    repos: Seq<Seq<char>>,
) -> Seq<Seq<char>>
    decreases repos.len(),
{
    if repos.len() == 0 {
        Seq::empty()
    } else {
        let front = keys_of(outcomes, repos.drop_last());
        match data_of(outcomes, repos.last()) {
            Some(d) => match d.cache_key {
                Some(k) => front.push(k),
                None => front,
            },
            None => front,
        }
    }
}

fn collect_keys(outcomes: &TextMap<RepoOutcome>, repos: &Vec<String>) -> (r: Vec<String>)
    ensures
        r.deep_view() == keys_of(outcomes.deep_view(), repos.deep_view()),
{
    let ghost all = repos.deep_view();
    let mut r: Vec<String> = Vec::new();
    let mut i: usize = 0;
    proof {
        assert(all.take(0) =~= Seq::empty());
        assert(r.deep_view() =~= Seq::empty());
    }
    while i < repos.len()
        invariant
            i <= repos.len(),
            all == repos.deep_view(),
            r.deep_view() == keys_of(outcomes.deep_view(), all.take(i as int)),
        decreases repos.len() - i,
    {
        assert(all.take(i + 1).drop_last() =~= all.take(i as int));
        if let Some(d) = find_data(outcomes, repos[i].as_str()) {
            if let Some(k) = &d.cache_key {
                let ghost before = r.deep_view();
                let key: String = k.clone();
                r.push(key);
                assert(r.deep_view() =~= before.push(key@));
            }
        }
        i += 1;
    }
    assert(all.take(i as int) =~= all);
    r
}

/// The judgement on a finding. One that is unreachable names the target that it holds for and
/// carries a witness of what it rests on.
pub open spec fn reachability_of(
    f: VulnFindingM,
    outcomes: Map<Seq<char>, RepoOutcomeM>,
    engine: Seq<char>,
    host: Seq<char>,
) -> ReachabilityM {
    let repos = repos_in(f.occurrences);
    let verdict = combined(outcomes, repos, f.affected_functions);
    ReachabilityM {
        verdict,
        config: TOOLCHAIN@,
        engine,
        targets: if verdict is NotReachable {
            seq![host]
        } else {
            Seq::empty()
        },
        witness: if verdict is NotReachable {
            Some(witness_for(engine, f.affected_functions, keys_of(outcomes, repos)))
        } else {
            None
        },
    }
}

pub open spec fn annotated(
    f: VulnFindingM,
    outcomes: Map<Seq<char>, RepoOutcomeM>,
    engine: Seq<char>,
    host: Seq<char>,
) -> VulnFindingM {
    if f.affected_functions.len() == 0 {
        f
    } else {
        let r = reachability_of(f, outcomes, engine, host);
        VulnFindingM { reachable: finding::legacy_bool(r.verdict), reachability: Some(r), ..f }
    }
}

fn judge(
    v: &VulnFinding,
    outcomes: &TextMap<RepoOutcome>,
    engine: &str,
    host: &str,
) -> (r: Reachability)
    ensures
        r.deep_view() == reachability_of(v.deep_view(), outcomes.deep_view(), engine@, host@),
{
    let verdict: ReachVerdict = combine(v, outcomes);
    let mut targets: Vec<String> = Vec::new();
    let mut witness: Option<String> = None;
    assert(targets.deep_view() =~= Seq::empty());
    if let ReachVerdict::NotReachable = &verdict {
        let name: String = host.to_owned();
        targets.push(name);
        assert(targets.deep_view() =~= seq![host@]);
        let repos: Vec<String> = repos_of(v);
        let keys: Vec<String> = collect_keys(outcomes, &repos);
        witness = Some(witness_hash(engine, &v.affected_functions, &keys));
    }
    Reachability { verdict, config: TOOLCHAIN.to_owned(), engine: engine.to_owned(), targets, witness }
}

/// A report with each vulnerability that names functions judged from the analyses. Where there
/// was nothing to analyze at all, nothing is judged.
pub open spec fn analyzed(
    r: FleetReportM,
    outcomes: Map<Seq<char>, RepoOutcomeM>,
    engine: Seq<char>,
    host: Seq<char>,
) -> FleetReportM {
    if sinks_in(r.vulnerabilities) == Map::<Seq<char>, Seq<Seq<char>>>::empty() {
        r
    } else {
        FleetReportM {
            vulnerabilities: r.vulnerabilities.map_values(
                |f: VulnFindingM| annotated(f, outcomes, engine, host),
            ),
            ..r
        }
    }
}

/// Judges each vulnerability that names functions from the analyses of the repositories. Where
/// there was nothing to analyze at all, nothing is judged.
pub fn assess(
    report: &mut FleetReport,
    outcomes: &TextMap<RepoOutcome>,
    engine: &str,
    host: &str,
)
    ensures
        final(report).deep_view() == analyzed(
            old(report).deep_view(),
            outcomes.deep_view(),
            engine@,
            host@,
        ),
{
    let sinks: TextMap<Vec<String>> = sinks_by_repo(&*report);
    if sinks.is_empty() {
        return ;
    }
    let ghost all = report.vulnerabilities.deep_view();
    let ghost want = all.map_values(
        |f: VulnFindingM| annotated(f, outcomes.deep_view(), engine@, host@),
    );
    let mut vulns: Vec<VulnFinding> = Vec::new();
    std::mem::swap(&mut vulns, &mut report.vulnerabilities);
    let mut out: Vec<VulnFinding> = Vec::new();
    let ghost mut n: int = 0;
    assert(out.deep_view() =~= want.take(0));
    for v in it: vulns
        invariant
            it.seq() == vulns@,
            all == vulns.deep_view(),
            want == all.map_values(
                |f: VulnFindingM| annotated(f, outcomes.deep_view(), engine@, host@),
            ),
            n == it.index(),
            n <= all.len(),
            out.deep_view() == want.take(n),
    {
        let ghost before = out.deep_view();
        let ghost was = v.deep_view();
        let mut f: VulnFinding = v;
        assert(was.affected_functions.len() == v.affected_functions.len());
        if f.affected_functions.len() > 0 {
            let r: Reachability = judge(&f, outcomes, engine, host);
            f.reachable = r.as_legacy_bool();
            f.reachability = Some(r);
        }
        proof {
            assert(f.deep_view() == annotated(was, outcomes.deep_view(), engine@, host@));
            assert(all[n] == was);
        }
        out.push(f);
        proof {
            assert(out.deep_view() =~= before.push(f.deep_view()));
            assert(want.take(n + 1) =~= want.take(n).push(want[n]));
            n = n + 1;
        }
    }
    assert(want.take(n) =~= want);
    report.vulnerabilities = out;
}

/// The first line with the mark, without it.
pub open spec fn marked_line(lines: Seq<Seq<char>>, mark: Seq<char>) -> Option<Seq<char>>
    decreases lines.len(),
{
    if lines.len() == 0 {
        None
    } else {
        match marked_line(lines.drop_last(), mark) {
            Some(x) => Some(x),
            None => cut::after_prefix(lines.last(), mark),
        }
    }
}

proof fn lemma_marked_stays(lines: Seq<Seq<char>>, mark: Seq<char>, n: int)
    requires
        0 <= n <= lines.len(),
        marked_line(lines.take(n), mark) is Some,
    ensures
        marked_line(lines, mark) == marked_line(lines.take(n), mark),
    decreases lines.len(),
{
    if n < lines.len() {
        assert(lines.drop_last().take(n) =~= lines.take(n));
        lemma_marked_stays(lines.drop_last(), mark, n);
    } else {
        assert(lines.take(n) =~= lines);
    }
}

/// What follows the mark on the first line that starts with it.
pub fn find_marked(t: &str, mark: &str) -> (r: Option<String>)
    ensures
        r.deep_view() == marked_line(cut::lines_of(t@), mark@),
{
    let lines: Vec<String> = cut::lines(t);
    let ghost all = lines.deep_view();
    let mut i: usize = 0;
    assert(all.take(0) =~= Seq::empty());
    while i < lines.len()
        invariant
            i <= lines.len(),
            all == lines.deep_view(),
            all == cut::lines_of(t@),
            marked_line(all.take(i as int), mark@) is None,
        decreases lines.len() - i,
    {
        assert(all.take(i + 1).drop_last() =~= all.take(i as int));
        if let Some(x) = cut::strip_prefix(lines[i].as_str(), mark) {
            proof {
                lemma_marked_stays(all, mark@, i + 1);
            }
            return Some(x);
        }
        i += 1;
    }
    assert(all.take(i as int) =~= all);
    None
}

/// The target that builds are made for: the host that the compiler reports, else the name of
/// the architecture.
pub fn host_triple(version: &Option<String>, arch: &str) -> (r: String)
    ensures
        r@ == (match version.deep_view() {
            Some(t) => match marked_line(cut::lines_of(t), "host: "@) {
                Some(h) => h,
                None => arch@,
            },
            None => arch@,
        }),
{
    match version {
        Some(t) => match find_marked(t.as_str(), "host: ") {
            Some(h) => h,
            None => arch.to_owned(),
        },
        None => arch.to_owned(),
    }
}

// --- Laws ---

/// What the analysis says of the function at `j` in the repository of the occurrence at `i`,
/// where it says anything.
pub open spec fn verdict_at(
    outcomes: Map<Seq<char>, RepoOutcomeM>,
    occurrences: Seq<OccurrenceM>,
    functions: Seq<Seq<char>>,
    i: int,
    j: int,
) -> Option<VerdictM> {
    match occurrences[i] {
        OccurrenceM::InRepo { repo, .. } => if outcomes.dom().contains(repo) {
            match outcomes[repo] {
                RepoOutcomeM::Analyzed(d) => if d.verdicts.dom().contains(functions[j]) {
                    Some(d.verdicts[functions[j]])
                } else {
                    None
                },
                RepoOutcomeM::Failed(_) => None,
            }
        } else {
            None
        },
        OccurrenceM::Toolchain { .. } => None,
    }
}

/// Whether an occurrence and a function come before another occurrence and function.
pub open spec fn earlier(a: int, b: int, i: int, j: int) -> bool {
    a < i || (a == i && b < j)
}

/// The function at `j` is reached in the repository of the occurrence at `i`.
pub open spec fn reached_at(
    outcomes: Map<Seq<char>, RepoOutcomeM>,
    occurrences: Seq<OccurrenceM>,
    functions: Seq<Seq<char>>,
    i: int,
    j: int,
) -> bool {
    verdict_at(outcomes, occurrences, functions, i, j) matches Some(v) && v is Reachable
}

proof fn lemma_witness_in(d: RepoDataM, functions: Seq<Seq<char>>) -> (j: int)
    ensures
        match witness_in(d, functions) {
            Some(w) => {
                &&& 0 <= j < functions.len()
                &&& d.verdicts.dom().contains(functions[j])
                &&& d.verdicts[functions[j]] == (VerdictM::Reachable { witness: w })
                &&& forall|k: int|
                    0 <= k < j ==> !(d.verdicts.dom().contains(#[trigger] functions[k])
                        && d.verdicts[functions[k]] is Reachable)
            },
            None => forall|k: int|
                0 <= k < functions.len() ==> !(d.verdicts.dom().contains(#[trigger] functions[k])
                    && d.verdicts[functions[k]] is Reachable),
        },
    decreases functions.len(),
{
    if functions.len() == 0 {
        0
    } else {
        let l = functions.drop_last();
        let j = lemma_witness_in(d, l);
        assert forall|k: int| 0 <= k < l.len() implies #[trigger] functions[k] == l[k] by {}
        if witness_in(d, l) is Some {
            j
        } else {
            l.len() as int
        }
    }
}

proof fn lemma_first_witness(
    outcomes: Map<Seq<char>, RepoOutcomeM>,
    occurrences: Seq<OccurrenceM>,
    functions: Seq<Seq<char>>,
) -> (at: (int, int))
    ensures
        match first_witness(outcomes, repos_in(occurrences), functions) {
            Some(w) => {
                &&& 0 <= at.0 < occurrences.len()
                &&& 0 <= at.1 < functions.len()
                &&& verdict_at(outcomes, occurrences, functions, at.0, at.1) == Some(
                    VerdictM::Reachable { witness: w },
                )
                &&& forall|a: int, b: int|
                    0 <= a < occurrences.len() && 0 <= b < functions.len() && earlier(
                        a,
                        b,
                        at.0,
                        at.1,
                    ) ==> !#[trigger] reached_at(outcomes, occurrences, functions, a, b)
            },
            None => forall|a: int, b: int|
                0 <= a < occurrences.len() && 0 <= b < functions.len()
                    ==> !#[trigger] reached_at(outcomes, occurrences, functions, a, b),
        },
    decreases occurrences.len(),
{
    if occurrences.len() == 0 {
        (0, 0)
    } else {
        let l = occurrences.drop_last();
        let at = lemma_first_witness(outcomes, l, functions);
        assert forall|a: int, b: int| 0 <= a < l.len() implies #[trigger] reached_at(
            outcomes,
            occurrences,
            functions,
            a,
            b,
        ) == reached_at(outcomes, l, functions, a, b) by {
            assert(l[a] == occurrences[a]);
        }
        let n: int = l.len() as int;
        match occurrences.last() {
            OccurrenceM::Toolchain { .. } => at,
            OccurrenceM::InRepo { repo, .. } => {
                let repos = repos_in(occurrences);
                assert(repos.drop_last() =~= repos_in(l));
                assert(repos.last() == repo);
                if first_witness(outcomes, repos_in(l), functions) is Some {
                    assert(l[at.0] == occurrences[at.0]);
                    at
                } else {
                    match data_of(outcomes, repo) {
                        None => at,
                        Some(d) => {
                            let j = lemma_witness_in(d, functions);
                            (n, j)
                        },
                    }
                }
            },
        }
    }
}

/// A finding is reachable exactly where some repository that it is in was analyzed and one of
/// its functions is reached there, whatever the other repositories and functions come to.
pub proof fn reached_anywhere_is_reached(
    f: VulnFindingM,
    outcomes: Map<Seq<char>, RepoOutcomeM>,
)
    ensures
        combined(outcomes, repos_in(f.occurrences), f.affected_functions) is Reachable
            <==> exists|i: int, j: int|
            0 <= i < f.occurrences.len() && 0 <= j < f.affected_functions.len()
                && #[trigger] reached_at(outcomes, f.occurrences, f.affected_functions, i, j),
{
    let (occ, fns) = (f.occurrences, f.affected_functions);
    let at = lemma_first_witness(outcomes, occ, fns);
    if first_witness(outcomes, repos_in(occ), fns) is Some {
        assert(reached_at(outcomes, occ, fns, at.0, at.1));
    }
}

/// The witness of a finding that is reachable is the one for the first of its occurrences, and
/// there the first of its functions, that is reached.
pub proof fn the_first_witness_is_given(
    f: VulnFindingM,
    outcomes: Map<Seq<char>, RepoOutcomeM>,
    i: int,
    j: int,
)
    requires
        0 <= i < f.occurrences.len(),
        0 <= j < f.affected_functions.len(),
        reached_at(outcomes, f.occurrences, f.affected_functions, i, j),
        forall|a: int, b: int|
            0 <= a < f.occurrences.len() && 0 <= b < f.affected_functions.len() && earlier(a, b, i, j)
                ==> !#[trigger] reached_at(outcomes, f.occurrences, f.affected_functions, a, b),
    ensures
        combined(outcomes, repos_in(f.occurrences), f.affected_functions) matches
            ReachVerdictM::Reachable { witness } && verdict_at(
            outcomes,
            f.occurrences,
            f.affected_functions,
            i,
            j,
        ) == Some(VerdictM::Reachable { witness }),
{
    let (occ, fns) = (f.occurrences, f.affected_functions);
    let at = lemma_first_witness(outcomes, occ, fns);
    assert(first_witness(outcomes, repos_in(occ), fns) is Some);
    assert(reached_at(outcomes, occ, fns, at.0, at.1));
    assert(!earlier(at.0, at.1, i, j));
    assert(!earlier(i, j, at.0, at.1));
    assert(at.0 == i && at.1 == j);
}

proof fn lemma_repo_at(occurrences: Seq<OccurrenceM>, k: int) -> (i: int)
    requires
        0 <= k < repos_in(occurrences).len(),
    ensures
        0 <= i < occurrences.len(),
        occurrences[i] matches OccurrenceM::InRepo { repo, .. } && repo == repos_in(occurrences)[k],
    decreases occurrences.len(),
{
    let l = occurrences.drop_last();
    let n: int = l.len() as int;
    if k < repos_in(l).len() {
        let i = lemma_repo_at(l, k);
        assert(l[i] == occurrences[i]);
        i
    } else {
        n
    }
}

proof fn lemma_repo_of(occurrences: Seq<OccurrenceM>, i: int) -> (k: int)
    requires
        0 <= i < occurrences.len(),
        occurrences[i] is InRepo,
    ensures
        0 <= k < repos_in(occurrences).len(),
        occurrences[i] matches OccurrenceM::InRepo { repo, .. } && repo == repos_in(occurrences)[k],
    decreases occurrences.len(),
{
    let l = occurrences.drop_last();
    if i < l.len() {
        assert(l[i] == occurrences[i]);
        lemma_repo_of(l, i)
    } else {
        repos_in(l).len() as int
    }
}

/// A finding is unreachable exactly where it is in some repository and names functions, and in
/// every repository that it is in every one of them is shown to be unreachable. One that failed
/// to be analyzed, or one function that is missing or undecided, is enough against it.
pub proof fn unreachable_means_everywhere(
    f: VulnFindingM,
    outcomes: Map<Seq<char>, RepoOutcomeM>,
)
    ensures
        combined(outcomes, repos_in(f.occurrences), f.affected_functions) is NotReachable <==> {
            &&& f.affected_functions.len() > 0
            &&& exists|i: int|
                0 <= i < f.occurrences.len() && (#[trigger] f.occurrences[i]) is InRepo
            &&& forall|i: int, j: int|
                0 <= i < f.occurrences.len() && f.occurrences[i] is InRepo && 0 <= j
                    < f.affected_functions.len() ==> (#[trigger] verdict_at(
                    outcomes,
                    f.occurrences,
                    f.affected_functions,
                    i,
                    j,
                ) matches Some(v) && v is NotReachable)
        },
{
    let (occ, fns) = (f.occurrences, f.affected_functions);
    let repos = repos_in(occ);
    let at = lemma_first_witness(outcomes, occ, fns);
    if combined(outcomes, repos, fns) is NotReachable {
        let k = choose|k: int| 0 <= k < repos.len() && repo_unreachable(outcomes, #[trigger] repos[k], fns);
        let i = lemma_repo_at(occ, k);
        assert(occ[i] is InRepo);
        assert forall|i: int, j: int|
            0 <= i < occ.len() && occ[i] is InRepo && 0 <= j < fns.len() implies (
        #[trigger] verdict_at(outcomes, occ, fns, i, j) matches Some(v) && v is NotReachable) by {
            let k = lemma_repo_of(occ, i);
            assert(!repo_unknown(outcomes, repos[k], fns));
            let d = data_of(outcomes, repos[k])->0;
            assert(!undecided(d, fns[j]));
            assert(!reached_at(outcomes, occ, fns, i, j));
        }
    }
    let all = {
        &&& fns.len() > 0
        &&& exists|i: int| 0 <= i < occ.len() && (#[trigger] occ[i]) is InRepo
        &&& forall|i: int, j: int|
            0 <= i < occ.len() && occ[i] is InRepo && 0 <= j < fns.len() ==> (#[trigger] verdict_at(
                outcomes,
                occ,
                fns,
                i,
                j,
            ) matches Some(v) && v is NotReachable)
    };
    if all {
        assert forall|a: int, b: int| 0 <= a < occ.len() && 0 <= b < fns.len() implies
            !#[trigger] reached_at(outcomes, occ, fns, a, b) by {
            if occ[a] is InRepo {
                assert(verdict_at(outcomes, occ, fns, a, b) is Some);
            }
        }
        assert(first_witness(outcomes, repos, fns) is None) by {
            if first_witness(outcomes, repos, fns) is Some {
                assert(reached_at(outcomes, occ, fns, at.0, at.1));
            }
        }
        assert forall|k: int| 0 <= k < repos.len() implies !repo_unknown(
            outcomes,
            #[trigger] repos[k],
            fns,
        ) by {
            let i = lemma_repo_at(occ, k);
            assert(verdict_at(outcomes, occ, fns, i, 0) is Some);
            let d = data_of(outcomes, repos[k])->0;
            assert forall|j: int| 0 <= j < fns.len() implies !undecided(d, #[trigger] fns[j]) by {
                assert(verdict_at(outcomes, occ, fns, i, j) is Some);
            }
        }
        let i = choose|i: int| 0 <= i < occ.len() && (#[trigger] occ[i]) is InRepo;
        let k = lemma_repo_of(occ, i);
        assert(verdict_at(outcomes, occ, fns, i, 0) is Some);
        assert(unreachable_in(data_of(outcomes, repos[k])->0, fns[0]));
        assert(repo_unreachable(outcomes, repos[k], fns));
    }
}

/// What the judgement on a finding sets: the old flag says what the verdict says; a finding that
/// is unreachable names the target that it holds for and a witness, and no other does; and
/// nothing else of the finding changes.
pub proof fn a_judgement_changes_nothing_else(
    f: VulnFindingM,
    outcomes: Map<Seq<char>, RepoOutcomeM>,
    engine: Seq<char>,
    host: Seq<char>,
)
    requires
        f.affected_functions.len() > 0,
    ensures
        ({
            let g = annotated(f, outcomes, engine, host);
            &&& g.reachability matches Some(r) && {
                &&& r.verdict == combined(outcomes, repos_in(f.occurrences), f.affected_functions)
                &&& r.engine == engine
                &&& g.reachable == Some(true) <==> r.verdict is Reachable
                &&& g.reachable == Some(false) <==> r.verdict is NotReachable
                &&& g.reachable is None <==> r.verdict is Unknown
                &&& r.witness is Some <==> r.verdict is NotReachable
                &&& r.verdict is NotReachable ==> r.targets == seq![host]
                &&& !(r.verdict is NotReachable) ==> r.targets.len() == 0
            }
            &&& g == (VulnFindingM { reachable: g.reachable, reachability: g.reachability, ..f })
        }),
{
}

/// A finding that names no functions is not judged.
pub proof fn nothing_named_is_not_judged(
    f: VulnFindingM,
    outcomes: Map<Seq<char>, RepoOutcomeM>,
    engine: Seq<char>,
    host: Seq<char>,
)
    requires
        f.affected_functions.len() == 0,
    ensures
        annotated(f, outcomes, engine, host) == f,
{
}

/// Whether a finding asks about a function in a repository.
pub open spec fn asks_about(f: VulnFindingM, repo: Seq<char>, function: Seq<char>) -> bool {
    f.affected_functions.contains(function) && exists|i: int|
        0 <= i < f.occurrences.len() && (#[trigger] f.occurrences[i] matches OccurrenceM::InRepo {
            repo: at,
            ..
        } && at == repo)
}

/// Whether a function is looked for in a repository.
pub open spec fn looked_for(
    m: Map<Seq<char>, Seq<Seq<char>>>,
    repo: Seq<char>,
    function: Seq<char>,
) -> bool {
    m.dom().contains(repo) && m[repo].contains(function)
}

proof fn lemma_with_sinks(
    m: Map<Seq<char>, Seq<Seq<char>>>,
    repos: Seq<Seq<char>>,
    functions: Seq<Seq<char>>,
    repo: Seq<char>,
    x: Seq<char>,
)
    ensures
        looked_for(with_sinks(m, repos, functions), repo, x) == (looked_for(m, repo, x) || (
        repos.contains(repo) && functions.contains(x))),
    decreases repos.len(),
{
    if repos.len() > 0 {
        let l = repos.drop_last();
        lemma_with_sinks(m, l, functions, repo, x);
        let front = with_sinks(m, l, functions);
        let had: Seq<Seq<char>> = if front.dom().contains(repos.last()) {
            front[repos.last()]
        } else {
            Seq::empty()
        };
        value::lemma_text_set(had + functions);
        assert((had + functions).contains(x) == (had.contains(x) || functions.contains(x))) by {
            if had.contains(x) {
                let k = choose|k: int| 0 <= k < had.len() && had[k] == x;
                assert((had + functions)[k] == x);
            }
            if functions.contains(x) {
                let k = choose|k: int| 0 <= k < functions.len() && functions[k] == x;
                assert((had + functions)[had.len() + k] == x);
            }
        }
        assert(repos.contains(repo) == (l.contains(repo) || repo == repos.last())) by {
            if l.contains(repo) {
                let k = choose|k: int| 0 <= k < l.len() && l[k] == repo;
                assert(repos[k] == repo);
            }
            assert(repos[repos.len() - 1] == repos.last());
            if repos.contains(repo) && repo != repos.last() {
                let k = choose|k: int| 0 <= k < repos.len() && repos[k] == repo;
                assert(l[k] == repo);
            }
        }
    }
}

/// A function is looked for in a repository exactly where some finding names it and is in that
/// repository.
pub proof fn each_repository_is_asked_about_its_own(
    vulns: Seq<VulnFindingM>,
    repo: Seq<char>,
    function: Seq<char>,
)
    ensures
        looked_for(sinks_in(vulns), repo, function) <==> exists|n: int|
            0 <= n < vulns.len() && asks_about(#[trigger] vulns[n], repo, function),
    decreases vulns.len(),
{
    if vulns.len() > 0 {
        let l = vulns.drop_last();
        let f = vulns.last();
        each_repository_is_asked_about_its_own(l, repo, function);
        let repos = repos_in(f.occurrences);
        if f.affected_functions.len() > 0 {
            lemma_with_sinks(sinks_in(l), repos, f.affected_functions, repo, function);
        }
        assert(repos.contains(repo) == exists|i: int|
            0 <= i < f.occurrences.len() && (
            #[trigger] f.occurrences[i] matches OccurrenceM::InRepo { repo: at, .. } && at == repo)) by {
            if repos.contains(repo) {
                let k = choose|k: int| 0 <= k < repos.len() && repos[k] == repo;
                let i = lemma_repo_at(f.occurrences, k);
                assert(f.occurrences[i] is InRepo);
            }
            if exists|i: int|
                0 <= i < f.occurrences.len() && (
                #[trigger] f.occurrences[i] matches OccurrenceM::InRepo { repo: at, .. } && at
                    == repo) {
                let i = choose|i: int|
                    0 <= i < f.occurrences.len() && (
                    #[trigger] f.occurrences[i] matches OccurrenceM::InRepo { repo: at, .. } && at
                        == repo);
                let k = lemma_repo_of(f.occurrences, i);
                assert(repos[k] == repo);
            }
        }
        assert(vulns[vulns.len() - 1] == f);
        if exists|n: int| 0 <= n < l.len() && asks_about(#[trigger] l[n], repo, function) {
            let n = choose|n: int| 0 <= n < l.len() && asks_about(#[trigger] l[n], repo, function);
            assert(asks_about(vulns[n], repo, function));
        }
        if exists|n: int| 0 <= n < vulns.len() && asks_about(#[trigger] vulns[n], repo, function) {
            let n = choose|n: int|
                0 <= n < vulns.len() && asks_about(#[trigger] vulns[n], repo, function);
            if n < l.len() {
                assert(asks_about(l[n], repo, function));
            }
        }
    }
}

/// The keys that a judgement rests on are those of the analyses of the repositories that the
/// finding is in, and no others.
pub proof fn keys_come_from_its_own_repositories(
    f: VulnFindingM,
    outcomes: Map<Seq<char>, RepoOutcomeM>,
    key: Seq<char>,
)
    ensures
        keys_of(outcomes, repos_in(f.occurrences)).contains(key) <==> exists|i: int|
            0 <= i < f.occurrences.len() && (#[trigger] f.occurrences[i] matches OccurrenceM::InRepo {
                repo,
                ..
            } && outcomes.dom().contains(repo) && (outcomes[repo] matches RepoOutcomeM::Analyzed(d)
                && d.cache_key == Some(key))),
{
    lemma_keys(outcomes, f.occurrences, key);
}

/// Whether an occurrence is in a repository whose analysis has the key.
pub open spec fn keyed(
    outcomes: Map<Seq<char>, RepoOutcomeM>,
    o: OccurrenceM,
    key: Seq<char>,
) -> bool {
    o matches OccurrenceM::InRepo { repo, .. } && outcomes.dom().contains(repo) && (outcomes[repo]
        matches RepoOutcomeM::Analyzed(d) && d.cache_key == Some(key))
}

proof fn lemma_keys(
    outcomes: Map<Seq<char>, RepoOutcomeM>,
    occurrences: Seq<OccurrenceM>,
    key: Seq<char>,
)
    ensures
        keys_of(outcomes, repos_in(occurrences)).contains(key) <==> exists|i: int|
            0 <= i < occurrences.len() && keyed(outcomes, #[trigger] occurrences[i], key),
    decreases occurrences.len(),
{
    if occurrences.len() > 0 {
        let l = occurrences.drop_last();
        let n = l.len() as int;
        let o = occurrences.last();
        lemma_keys(outcomes, l, key);
        assert(occurrences[n] == o);
        assert forall|i: int| 0 <= i < n implies #[trigger] occurrences[i] == l[i] by {}
        let repos = repos_in(occurrences);
        let front = keys_of(outcomes, repos_in(l));
        let all = keys_of(outcomes, repos);
        if o is InRepo {
            assert(repos.drop_last() =~= repos_in(l));
        }
        if front.contains(key) {
            let j = choose|j: int| 0 <= j < front.len() && front[j] == key;
            assert(all[j] == key);
            let i = choose|i: int| 0 <= i < l.len() && keyed(outcomes, #[trigger] l[i], key);
            assert(keyed(outcomes, occurrences[i], key));
        }
        if keyed(outcomes, o, key) {
            assert(all[front.len() as int] == key);
            assert(keyed(outcomes, occurrences[n], key));
        }
        if all.contains(key) && !front.contains(key) {
            let j = choose|j: int| 0 <= j < all.len() && all[j] == key;
            if j < front.len() {
                assert(front[j] == key);
            }
            assert(keyed(outcomes, o, key));
        }
        if exists|i: int| 0 <= i < occurrences.len() && keyed(outcomes, #[trigger] occurrences[i], key) {
            let i = choose|i: int|
                0 <= i < occurrences.len() && keyed(outcomes, #[trigger] occurrences[i], key);
            if i < n {
                assert(keyed(outcomes, l[i], key));
            }
        }
    }
}

/// Each byte is written as two digits, the higher four bits first, from `0` to `9` and then from
/// `a` to `f`.
pub proof fn a_byte_is_two_digits(bytes: Seq<u8>, i: int)
    requires
        0 <= i < bytes.len(),
    ensures
        hex_text(bytes).len() == 2 * bytes.len(),
        hex_text(bytes)[2 * i] == "0123456789abcdef"@[bytes[i] as int / 16],
        hex_text(bytes)[2 * i + 1] == "0123456789abcdef"@[bytes[i] as int % 16],
    decreases bytes.len(),
{
    let l = bytes.drop_last();
    let n = l.len() as int;
    lemma_hex_digit(bytes[n] as int / 16);
    lemma_hex_digit(bytes[n] as int % 16);
    lemma_hex_len(l);
    if i < n {
        a_byte_is_two_digits(l, i);
        assert(l[i] == bytes[i]);
        assert(hex_text(bytes)[2 * i] == hex_text(l)[2 * i]);
        assert(hex_text(bytes)[2 * i + 1] == hex_text(l)[2 * i + 1]);
    }
}

proof fn lemma_hex_len(bytes: Seq<u8>)
    ensures
        hex_text(bytes).len() == 2 * bytes.len(),
    decreases bytes.len(),
{
    if bytes.len() > 0 {
        lemma_hex_len(bytes.drop_last());
    }
}

proof fn lemma_hex_digit(d: int)
    requires
        0 <= d < 16,
    ensures
        hex_digit(d) == "0123456789abcdef"@[d],
{
    reveal_strlit("0123456789abcdef");
}

/// The first line that starts with a mark is the one that counts; there is none exactly where no
/// line does.
pub proof fn the_first_marked_line_counts(lines: Seq<Seq<char>>, mark: Seq<char>, i: int)
    requires
        0 <= i <= lines.len(),
        i < lines.len() ==> mark.is_prefix_of(lines[i]),
        forall|k: int| 0 <= k < i ==> !mark.is_prefix_of(#[trigger] lines[k]),
    ensures
        marked_line(lines, mark) == (if i < lines.len() {
            Some(lines[i].skip(mark.len() as int))
        } else {
            None
        }),
    decreases lines.len(),
{
    if lines.len() > 0 {
        let l = lines.drop_last();
        let n = l.len() as int;
        assert forall|k: int| 0 <= k < n implies #[trigger] l[k] == lines[k] by {}
        assert(lines[n] == lines.last());
        if i < lines.len() {
            the_first_marked_line_counts(l, mark, i);
        } else {
            the_first_marked_line_counts(l, mark, n);
            assert(!mark.is_prefix_of(lines[n]));
        }
    }
}

/// What is unreachable names the target and the toolchain that this holds for and carries a
/// witness; nothing else carries one.
pub proof fn only_a_proof_carries_a_witness(
    f: VulnFindingM,
    outcomes: Map<Seq<char>, RepoOutcomeM>,
    engine: Seq<char>,
    host: Seq<char>,
)
    ensures
        ({
            let r = reachability_of(f, outcomes, engine, host);
            &&& r.engine == engine
            &&& r.verdict is NotReachable <==> r.witness is Some
            &&& r.verdict is NotReachable ==> r.targets == seq![host]
            &&& !(r.verdict is NotReachable) ==> r.targets.len() == 0
        }),
{
}

} // verus!
