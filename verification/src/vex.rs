//! Statements about products: who asserts what, whether a committed document still agrees
//! with a fresh scan, and whether its machine findings still hold.
use vstd::prelude::*;
use crate::assemble;
use crate::assemble::{
    Assembled, SuppressedOccurrence, SuppressedOccurrenceM, Suppression, SuppressionM,
};
use crate::config::{Config, ConfigM, Repo, RepoM, VexScope};
use crate::finding::{
    Occurrence, OccurrenceM, ReachVerdict, ReachVerdictM, VulnFinding, VulnFindingM,
};
use crate::json;
use crate::json::{Json, JsonM};
use crate::orchestrate::ScanData;
use crate::report::{FleetReport, Provenance};
use crate::severity::Severity;
use crate::text;
use crate::textmap::TextMap;
use crate::value;
use crate::value::Plain;
use crate::version;

verus! {

// --- Product identities ---

/// The package URL that a manifest gives its project: that of a package with a name and a
/// version of its own that is not kept from publishing.
pub open spec fn purl_in(manifest: JsonM) -> Option<Seq<char>> {
    match json::member(manifest, "package"@) {
        Some(p) => if !(p is Object) || json::bool_of(json::member(p, "publish"@)) == Some(false) {
            None
        } else {
            match json::text_of(json::member(p, "name"@)) {
                Some(name) => match json::text_of(json::member(p, "version"@)) {
                    Some(version) => Some("pkg:cargo/"@ + name + "@"@ + version),
                    None => None,
                },
                None => None,
            }
        },
        None => None,
    }
}

/// The package URL that a manifest gives its project.
pub fn purl_of(manifest: &Json) -> (r: Option<String>)
    ensures
        r.deep_view() == purl_in(manifest.deep_view()),
{
    match manifest.get("package") {
        Some(p) => {
            let table: bool = match p {
                Json::Object(_) => true,
                _ => false,
            };
            if !table {
                return None;
            }
            let publish: Option<bool> = match p.get("publish") {
                Some(b) => b.as_bool(),
                None => None,
            };
            if let Some(b) = publish {
                if !b {
                    return None;
                }
            }
            let name: Option<&str> = match p.get("name") {
                Some(n) => n.as_text(),
                None => None,
            };
            let version: Option<&str> = match p.get("version") {
                Some(v) => v.as_text(),
                None => None,
            };
            match name {
                Some(n) => match version {
                    Some(v) => {
                        let mut r: String = text::join("pkg:cargo/", n);
                        r.append("@");
                        r.append(v);
                        Some(r)
                    },
                    None => None,
                },
                None => None,
            }
        },
        None => None,
    }
}

/// The package URL that the text of a manifest gives its project.
pub fn crate_purl(manifest: &str) -> (r: Option<String>)
    ensures
        r.deep_view() == (match json::toml_of(manifest@) {
            Some(m) => purl_in(m),
            None => None,
        }),
{
    match json::parse_toml(manifest) {
        Some(m) => purl_of(&m),
        None => None,
    }
}

/// The identity of a product: the declared one, else its package URL, else the base and the
/// name, else a name of our own.
pub open spec fn product_id(
    declared: Option<Seq<char>>,
    purl: Option<Seq<char>>,
    base: Option<Seq<char>>,
    repo: Seq<char>,
) -> Seq<char> {
    match declared {
        Some(id) => id,
        None => match purl {
            Some(p) => p,
            None => match base {
                Some(b) => b + repo,
                None => "urn:fleetreach:product:"@ + repo,
            },
        },
    }
}

/// The identity of a repository as a product, given its package URL where it has one.
pub fn resolve_product_id(repo: &Repo, purl: &Option<String>, base: &Option<String>) -> (r: String)
    ensures
        r@ == product_id(
            repo.deep_view().vex_product_id,
            purl.deep_view(),
            base.deep_view(),
            repo.deep_view().id,
        ),
{
    match &repo.vex_product_id {
        Some(id) => id.clone(),
        None => match purl {
            Some(p) => p.clone(),
            None => match base {
                Some(b) => text::join(b.as_str(), repo.id.0.as_str()),
                None => text::join("urn:fleetreach:product:", repo.id.0.as_str()),
            },
        },
    }
}

/// The identities of the first repositories by their names.
pub open spec fn product_ids(
    repos: Seq<RepoM>,
    purls: Seq<Option<Seq<char>>>,
    base: Option<Seq<char>>,
) -> Map<Seq<char>, Seq<char>>
    decreases repos.len(),
{
    if repos.len() == 0 {
        Map::empty()
    } else {
        let r = repos.last();
        product_ids(repos.drop_last(), purls, base).insert(
            r.id,
            product_id(r.vex_product_id, purls[repos.len() - 1], base, r.id),
        )
    }
}

/// The identity of every repository as a product; `purls` holds the package URL of each.
pub fn resolve_product_ids(config: &Config, purls: &Vec<Option<String>>) -> (r: TextMap<String>)
    requires
        purls.len() == config.repos.len(),
    ensures
        r.deep_view() == product_ids(
            config.deep_view().repos,
            purls.deep_view(),
            config.deep_view().vex.product_id_base,
        ),
{
    let ghost all = config.repos.deep_view();
    let mut r: TextMap<String> = TextMap::new();
    let mut i: usize = 0;
    assert(all.take(0) =~= Seq::empty());
    while i < config.repos.len()
        invariant
            i <= config.repos.len(),
            purls.len() == config.repos.len(),
            all == config.repos.deep_view(),
            r.deep_view() == product_ids(
                all.take(i as int),
                purls.deep_view(),
                config.deep_view().vex.product_id_base,
            ),
        decreases config.repos.len() - i,
    {
        proof {
            assert(all.take(i + 1).drop_last() =~= all.take(i as int));
        }
        let id: String = resolve_product_id(
            &config.repos[i],
            &purls[i],
            &config.vex.product_id_base,
        );
        r = r.insert(config.repos[i].id.0.clone(), id);
        i += 1;
    }
    assert(all.take(i as int) =~= all);
    r
}

// --- Human assertions ---

/// What a [`HumanAssertion`] stands for.
#[verifier::ext_equal]
pub struct HumanAssertionM {
    pub advisory_id: Seq<char>,
    pub aliases: Seq<Seq<char>>,
    pub product_id: Seq<char>,
    pub package: Seq<char>,
    pub version: Seq<char>,
    pub justification: Option<Seq<char>>,
    pub impact_statement: Seq<char>,
    pub approved_by: Option<Seq<char>>,
}

/// A `not_affected` statement that a person makes.
#[derive(Debug, PartialEq)]
pub struct HumanAssertion {
    pub advisory_id: String,
    pub aliases: Vec<String>,
    pub product_id: String,
    pub package: String,
    pub version: String,
    pub justification: Option<String>,
    pub impact_statement: String,
    pub approved_by: Option<String>,
}

impl DeepView for HumanAssertion {
    type V = HumanAssertionM;

    open spec fn deep_view(&self) -> HumanAssertionM {
        HumanAssertionM {
            advisory_id: self.advisory_id@,
            aliases: self.aliases.deep_view(),
            product_id: self.product_id@,
            package: self.package@,
            version: self.version@,
            justification: self.justification.deep_view(),
            impact_statement: self.impact_statement@,
            approved_by: self.approved_by.deep_view(),
        }
    }
}

/// The statement for one suppressed occurrence: one in a repository that has an identity.
pub open spec fn assertion_for(
    s: SuppressedOccurrenceM,
    ids: Map<Seq<char>, Seq<char>>,
) -> Option<HumanAssertionM> {
    match s.occurrence {
        OccurrenceM::InRepo { repo, package, installed, .. } => if ids.dom().contains(repo) {
            Some(
                HumanAssertionM {
                    advisory_id: s.advisory_id,
                    aliases: s.aliases,
                    product_id: ids[repo],
                    package,
                    version: version::version_text(installed),
                    justification: s.justification,
                    impact_statement: s.impact_statement,
                    approved_by: s.approved_by,
                },
            )
        } else {
            None
        },
        OccurrenceM::Toolchain { .. } => None,
    }
}

pub open spec fn assertions_for(
    s: Seq<SuppressedOccurrenceM>,
    ids: Map<Seq<char>, Seq<char>>,
) -> Seq<HumanAssertionM>
    decreases s.len(),
{
    if s.len() == 0 {
        Seq::empty()
    } else {
        let front = assertions_for(s.drop_last(), ids);
        match assertion_for(s.last(), ids) {
            Some(a) => front.push(a),
            None => front,
        }
    }
}

/// The advisories that are suppressed with a free-text reason only, each once, in order.
pub open spec fn nudges_for(
    s: Seq<SuppressedOccurrenceM>,
    ids: Map<Seq<char>, Seq<char>>,
) -> Seq<Seq<char>>
    decreases s.len(),
{
    if s.len() == 0 {
        Seq::empty()
    } else {
        let front = nudges_for(s.drop_last(), ids);
        if assertion_for(s.last(), ids) is Some && s.last().justification is None
            && !front.contains(s.last().advisory_id) {
            front.push(s.last().advisory_id)
        } else {
            front
        }
    }
}

/// Turns each suppressed occurrence into a human `not_affected` statement. The second part
/// names the advisories for which a label would serve better than free text, where those are
/// asked for.
pub fn build_human_assertions(
    suppressed: &Vec<SuppressedOccurrence>,
    product_ids: &TextMap<String>,
    warn_free_text: bool,
) -> (r: (Vec<HumanAssertion>, Vec<String>))
    ensures
        r.0.deep_view() == assertions_for(suppressed.deep_view(), product_ids.deep_view()),
        r.1.deep_view() == (if warn_free_text {
            nudges_for(suppressed.deep_view(), product_ids.deep_view())
        } else {
            Seq::empty()
        }),
{
    let ghost all = suppressed.deep_view();
    let ghost ids = product_ids.deep_view();
    let mut out: Vec<HumanAssertion> = Vec::new();
    let mut nudges: Vec<String> = Vec::new();
    let mut i: usize = 0;
    proof {
        assert(all.take(0) =~= Seq::empty());
        assert(out.deep_view() =~= Seq::empty());
        assert(nudges.deep_view() =~= Seq::empty());
    }
    while i < suppressed.len()
        invariant
            i <= suppressed.len(),
            all == suppressed.deep_view(),
            ids == product_ids.deep_view(),
            out.deep_view() == assertions_for(all.take(i as int), ids),
            nudges.deep_view() == (if warn_free_text {
                nudges_for(all.take(i as int), ids)
            } else {
                Seq::empty()
            }),
        decreases suppressed.len() - i,
    {
        let s = &suppressed[i];
        proof {
            assert(all.take(i + 1).drop_last() =~= all.take(i as int));
            assert(all.take(i + 1).last() == s.deep_view());
        }
        match &s.occurrence {
            Occurrence::InRepo { repo, package, installed, .. } => {
                match product_ids.get(repo.0.as_str()) {
                    Some(id) => {
                        if warn_free_text && s.justification.is_none() && !value::holds(
                            &nudges,
                            &s.advisory_id,
                        ) {
                            let ghost before = nudges.deep_view();
                            let name: String = s.advisory_id.clone();
                            nudges.push(name);
                            assert(nudges.deep_view() =~= before.push(name@));
                        }
                        let a = HumanAssertion {
                            advisory_id: s.advisory_id.clone(),
                            aliases: s.aliases.copy(),
                            product_id: id.clone(),
                            package: package.clone(),
                            version: installed.to_string(),
                            justification: s.justification.copy(),
                            impact_statement: s.impact_statement.clone(),
                            approved_by: s.approved_by.copy(),
                        };
                        let ghost before = out.deep_view();
                        out.push(a);
                        assert(out.deep_view() =~= before.push(a.deep_view()));
                    },
                    None => {},
                }
            },
            Occurrence::Toolchain { .. } => {},
        }
        i += 1;
    }
    assert(all.take(i as int) =~= all);
    (out, nudges)
}

/// What [`VexParams`] stand for.
#[verifier::ext_equal]
pub struct VexParamsM {
    pub author: Seq<char>,
    pub role: Option<Seq<char>>,
    pub scope: VexScope,
    pub timestamp: Seq<char>,
    pub doc_id: Option<Seq<char>>,
    pub product_id_base: Option<Seq<char>>,
    pub product_ids: Map<Seq<char>, Seq<char>>,
    pub assertions: Seq<HumanAssertionM>,
    pub only_sound: bool,
    pub alias_rustbinary: bool,
    pub include_fixed: bool,
    pub version: u64,
    pub supersedes: Option<Seq<char>>,
}

impl DeepView for VexParams {
    type V = VexParamsM;

    open spec fn deep_view(&self) -> VexParamsM {
        VexParamsM {
            author: self.author@,
            role: self.role.deep_view(),
            scope: self.scope,
            timestamp: self.timestamp@,
            doc_id: self.doc_id.deep_view(),
            product_id_base: self.product_id_base.deep_view(),
            product_ids: self.product_ids.deep_view(),
            assertions: self.assertions.deep_view(),
            only_sound: self.only_sound,
            alias_rustbinary: self.alias_rustbinary,
            include_fixed: self.include_fixed,
            version: self.version,
            supersedes: self.supersedes.deep_view(),
        }
    }
}

/// What a document is made with.
#[derive(Debug)]
pub struct VexParams {
    pub author: String,
    pub role: Option<String>,
    pub scope: VexScope,
    pub timestamp: String,
    pub doc_id: Option<String>,
    pub product_id_base: Option<String>,
    pub product_ids: TextMap<String>,
    pub assertions: Vec<HumanAssertion>,
    pub only_sound: bool,
    pub alias_rustbinary: bool,
    pub include_fixed: bool,
    pub version: u64,
    pub supersedes: Option<String>,
}

pub open spec fn bare_params(
    product_ids: Map<Seq<char>, Seq<char>>,
    assertions: Seq<HumanAssertionM>,
) -> VexParamsM {
    VexParamsM {
        author: Seq::empty(),
        role: None,
        scope: VexScope::Runtime,
        timestamp: Seq::empty(),
        doc_id: None,
        product_id_base: None,
        product_ids,
        assertions,
        only_sound: false,
        alias_rustbinary: false,
        include_fixed: false,
        version: 1,
        supersedes: None,
    }
}

/// What statements are projected with: the identities and assertions, and nothing of the
/// envelope.
pub fn projection_params(
    product_ids: TextMap<String>,
    assertions: Vec<HumanAssertion>,
) -> (r: VexParams)
    ensures
        r.deep_view() == bare_params(product_ids.deep_view(), assertions.deep_view()),
{
    let r = VexParams {
        author: String::new(),
        role: None,
        scope: VexScope::Runtime,
        timestamp: String::new(),
        doc_id: None,
        product_id_base: None,
        product_ids,
        assertions,
        only_sound: false,
        alias_rustbinary: false,
        include_fixed: false,
        version: 1,
        supersedes: None,
    };
    assert(r.author@ =~= Seq::empty());
    assert(r.timestamp@ =~= Seq::empty());
    r
}

/// The suppressions of a configuration: its ignores, then its assertions.
pub open spec fn suppressions_in(c: ConfigM) -> Seq<SuppressionM> {
    Seq::new(c.ignores.len(), |i: int| assemble::ignore_suppression(c.ignores[i])) + Seq::new(
        c.vex_assertions.len(),
        |i: int| assemble::assertion_suppression(c.vex_assertions[i]),
    )
}

/// The suppressions of a configuration: its ignores, then its assertions.
pub fn suppressions_of(config: &Config) -> (r: Vec<Suppression>)
    ensures
        r.deep_view() == suppressions_in(config.deep_view()),
{
    let ghost want = suppressions_in(config.deep_view());
    let ghost n: int = config.ignores.len() as int;
    let mut r: Vec<Suppression> = Vec::new();
    let mut i: usize = 0;
    assert(r.deep_view() =~= want.take(0));
    while i < config.ignores.len()
        invariant
            i <= config.ignores.len(),
            want == suppressions_in(config.deep_view()),
            r.deep_view() == want.take(i as int),
        decreases config.ignores.len() - i,
    {
        let s = Suppression::from_ignore(&config.ignores[i]);
        let ghost before = r.deep_view();
        r.push(s);
        i += 1;
        assert(r.deep_view() =~= before.push(s.deep_view()));
        assert(want[i - 1] == s.deep_view());
        assert(want.take(i as int) =~= want.take(i - 1).push(want[i - 1]));
    }
    let mut j: usize = 0;
    while j < config.vex_assertions.len()
        invariant
            j <= config.vex_assertions.len(),
            n == config.ignores.len(),
            want == suppressions_in(config.deep_view()),
            r.deep_view() == want.take(n + j),
        decreases config.vex_assertions.len() - j,
    {
        let s = Suppression::from_assertion(&config.vex_assertions[j]);
        let ghost before = r.deep_view();
        r.push(s);
        j += 1;
        assert(r.deep_view() =~= before.push(s.deep_view()));
        assert(want[n + j - 1] == s.deep_view());
        assert(want.take(n + j) =~= want.take(n + j - 1).push(want[n + j - 1]));
    }
    assert(r.deep_view() =~= want);
    r
}

/// The report of a fresh scan under the suppressions of the configuration.
pub fn assemble_fresh(scan: ScanData, config: &Config, provenance: Provenance) -> (r: Assembled)
    ensures
        r.report.deep_view() == assemble::report_of(
            scan.deep_view(),
            suppressions_in(config.deep_view()),
            None,
            provenance.deep_view(),
        ),
        r.suppressed.deep_view() == assemble::all_suppressed(
            suppressions_in(config.deep_view()),
            crate::correlate::correlated_vulns(scan.deep_view().vulnerabilities),
        ),
{
    let suppressions: Vec<Suppression> = suppressions_of(config);
    assemble::assemble(scan, &suppressions, None, provenance)
}

// --- Drift ---

/// What a [`StatementView`] stands for.
#[verifier::ext_equal]
pub struct StatementViewM {
    pub vulnerability: Seq<char>,
    pub product: Seq<char>,
    pub subcomponent: Seq<char>,
    pub status: Seq<char>,
}

/// What a fresh scan says of one component of one product.
#[derive(Debug, PartialEq)]
pub struct StatementView {
    pub vulnerability: String,
    pub product: String,
    pub subcomponent: String,
    pub status: String,
}

impl DeepView for StatementView {
    type V = StatementViewM;

    open spec fn deep_view(&self) -> StatementViewM {
        StatementViewM {
            vulnerability: self.vulnerability@,
            product: self.product@,
            subcomponent: self.subcomponent@,
            status: self.status@,
        }
    }
}

/// What a [`CommittedStatement`] stands for.
#[verifier::ext_equal]
pub struct CommittedStatementM {
    pub vulnerability: Seq<char>,
    pub product: Seq<char>,
    pub subcomponent: Seq<char>,
    pub status: Seq<char>,
    pub status_notes: Seq<char>,
}

/// What a committed document says of one component of one product.
#[derive(Debug, PartialEq)]
pub struct CommittedStatement {
    pub vulnerability: String,
    pub product: String,
    pub subcomponent: String,
    pub status: String,
    /// Who says so.
    pub status_notes: String,
}

impl DeepView for CommittedStatement {
    type V = CommittedStatementM;

    open spec fn deep_view(&self) -> CommittedStatementM {
        CommittedStatementM {
            vulnerability: self.vulnerability@,
            product: self.product@,
            subcomponent: self.subcomponent@,
            status: self.status@,
            status_notes: self.status_notes@,
        }
    }
}

/// How a committed document differs from a fresh scan.
#[derive(Debug)]
pub struct Drift {
    pub errors: Vec<String>,
    pub warnings: Vec<String>,
}

/// What a statement is about.
#[verifier::ext_equal]
pub struct Subject {
    pub vulnerability: Seq<char>,
    pub product: Seq<char>,
    pub subcomponent: Seq<char>,
}

pub open spec fn subject(s: StatementViewM) -> Subject {
    Subject { vulnerability: s.vulnerability, product: s.product, subcomponent: s.subcomponent }
}

pub open spec fn committed_subject(c: CommittedStatementM) -> Subject {
    Subject { vulnerability: c.vulnerability, product: c.product, subcomponent: c.subcomponent }
}

pub open spec fn is_committed(committed: Seq<CommittedStatementM>, k: Subject) -> bool {
    exists|i: int| 0 <= i < committed.len() && committed_subject(#[trigger] committed[i]) == k
}

/// What the scan now says of a subject: the last statement about it.
pub open spec fn status_now(current: Seq<StatementViewM>, k: Subject) -> Option<Seq<char>>
    decreases current.len(),
{
    if current.len() == 0 {
        None
    } else if subject(current.last()) == k {
        Some(current.last().status)
    } else {
        status_now(current.drop_last(), k)
    }
}

pub open spec fn by_human(c: CommittedStatementM) -> bool {
    text::occurs(c.status_notes, "Human Assertion"@)
}

impl CommittedStatement {
    /// Whether a person made the statement. Only such a `not_affected` can be made again from
    /// the configuration by a plain scan.
    pub fn is_human(&self) -> (r: bool)
        ensures
            r == by_human(self.deep_view()),
    {
        text::contains(self.status_notes.as_str(), "Human Assertion")
    }
}

pub open spec fn untriaged_text(s: StatementViewM) -> Seq<char> {
    "untriaged: "@ + s.vulnerability + " on "@ + s.subcomponent
        + " has no statement in the committed document"@
}

pub open spec fn stale_text(c: CommittedStatementM) -> Seq<char> {
    "stale not_affected: "@ + c.vulnerability + " on "@ + c.subcomponent
        + " no longer appears in the fleet (the suppression pins a version that moved)"@
}

pub open spec fn dropped_text(c: CommittedStatementM, now: Seq<char>) -> Seq<char> {
    "dropped suppression: "@ + c.vulnerability + " on "@ + c.subcomponent
        + " is not_affected in the committed document (human assertion) but the current scan reports "@
        + now + " \u{2014} the assertion was removed or no longer applies"@
}

pub open spec fn undecided_text(c: CommittedStatementM) -> Seq<char> {
    c.vulnerability
        + " is still under_investigation at gating severity; resolve with --reachability=static"@
}

/// The errors for what the scan says and the document does not.
pub open spec fn untriaged(
    current: Seq<StatementViewM>,
    committed: Seq<CommittedStatementM>,
) -> Seq<Seq<char>>
    decreases current.len(),
{
    if current.len() == 0 {
        Seq::empty()
    } else {
        let front = untriaged(current.drop_last(), committed);
        if is_committed(committed, subject(current.last())) {
            front
        } else {
            front.push(untriaged_text(current.last()))
        }
    }
}

/// What is wrong with a committed statement: a `not_affected` about what is no longer there,
/// or one by a person about what the scan now judges otherwise.
pub open spec fn statement_error(
    c: CommittedStatementM,
    current: Seq<StatementViewM>,
) -> Option<Seq<char>> {
    if c.status != "not_affected"@ {
        None
    } else {
        match status_now(current, committed_subject(c)) {
            None => Some(stale_text(c)),
            Some(now) => if now != "not_affected"@ && by_human(c) {
                Some(dropped_text(c, now))
            } else {
                None
            },
        }
    }
}

pub open spec fn statement_errors(
    committed: Seq<CommittedStatementM>,
    current: Seq<StatementViewM>,
) -> Seq<Seq<char>>
    decreases committed.len(),
{
    if committed.len() == 0 {
        Seq::empty()
    } else {
        let front = statement_errors(committed.drop_last(), current);
        match statement_error(committed.last(), current) {
            Some(e) => front.push(e),
            None => front,
        }
    }
}

/// A severity that cannot be shown to be low: high, critical, or not known.
pub open spec fn gating(s: Option<Severity>) -> bool {
    match s {
        Some(Severity::Low) | Some(Severity::Medium) => false,
        _ => true,
    }
}

/// Whether a severity cannot be shown to be low.
pub fn is_gating_severity(s: Option<Severity>) -> (r: bool)
    ensures
        r == gating(s),
{
    match s {
        Some(Severity::Low) | Some(Severity::Medium) => false,
        _ => true,
    }
}

pub open spec fn severity_in(m: Map<Seq<char>, Severity>, id: Seq<char>) -> Option<Severity> {
    if m.dom().contains(id) {
        Some(m[id])
    } else {
        None
    }
}

/// Whether a committed statement is about something that is still there, still undecided, and
/// not shown to be of low severity.
pub open spec fn still_undecided(
    c: CommittedStatementM,
    current: Seq<StatementViewM>,
    severity: Map<Seq<char>, Severity>,
) -> bool {
    c.status == "under_investigation"@ && status_now(current, committed_subject(c)) is Some
        && gating(severity_in(severity, c.vulnerability))
}

pub open spec fn undecided(
    committed: Seq<CommittedStatementM>,
    current: Seq<StatementViewM>,
    severity: Map<Seq<char>, Severity>,
) -> Seq<Seq<char>>
    decreases committed.len(),
{
    if committed.len() == 0 {
        Seq::empty()
    } else {
        let front = undecided(committed.drop_last(), current, severity);
        if still_undecided(committed.last(), current, severity) {
            front.push(undecided_text(committed.last()))
        } else {
            front
        }
    }
}

/// Whether a statement about the subject is committed.
pub fn current_in(
    committed: &Vec<CommittedStatement>,
    vulnerability: &String,
    product: &String,
    subcomponent: &String,
) -> (r: bool)
    ensures
        r == is_committed(
            committed.deep_view(),
            (Subject {
                vulnerability: vulnerability@,
                product: product@,
                subcomponent: subcomponent@,
            }),
        ),
{
    let ghost all = committed.deep_view();
    let ghost k = Subject {
        vulnerability: vulnerability@,
        product: product@,
        subcomponent: subcomponent@,
    };
    let mut i: usize = 0;
    while i < committed.len()
        invariant
            i <= committed.len(),
            all == committed.deep_view(),
            k == (Subject {
                vulnerability: vulnerability@,
                product: product@,
                subcomponent: subcomponent@,
            }),
            forall|j: int| 0 <= j < i ==> committed_subject(#[trigger] all[j]) != k,
        decreases committed.len() - i,
    {
        let c = &committed[i];
        if c.vulnerability == *vulnerability && c.product == *product && c.subcomponent
            == *subcomponent {
            assert(committed_subject(all[i as int]) == k);
            return true;
        }
        assert(committed_subject(all[i as int]) != k);
        i += 1;
    }
    false
}

fn find_status(current: &Vec<StatementView>, c: &CommittedStatement) -> (r: Option<usize>)
    ensures
        match r {
            Some(i) => i < current.len() && status_now(
                current.deep_view(),
                committed_subject(c.deep_view()),
            ) == Some(current.deep_view()[i as int].status),
            None => status_now(current.deep_view(), committed_subject(c.deep_view())) is None,
        },
{
    let ghost all = current.deep_view();
    let ghost k = committed_subject(c.deep_view());
    let mut i: usize = current.len();
    assert(all.take(i as int) =~= all);
    while i > 0
        invariant
            i <= current.len(),
            all == current.deep_view(),
            k == committed_subject(c.deep_view()),
            status_now(all, k) == status_now(all.take(i as int), k),
        decreases i,
    {
        let s = &current[i - 1];
        proof {
            assert(all.take(i as int).last() == s.deep_view());
            assert(all.take(i as int).drop_last() =~= all.take(i - 1));
        }
        if s.vulnerability == c.vulnerability && s.product == c.product && s.subcomponent
            == c.subcomponent {
            return Some(i - 1);
        }
        i -= 1;
    }
    assert(all.take(0) =~= Seq::empty());
    None
}

fn message(a: &str, x: &str, b: &str, y: &str, c: &str) -> (r: String)
    ensures
        r@ == a@ + x@ + b@ + y@ + c@,
{
    let mut r: String = a.to_owned();
    r.append(x);
    r.append(b);
    r.append(y);
    r.append(c);
    r
}

/// Compares a fresh scan with a committed document. What the scan says and the document does
/// not is an error; so is a `not_affected` about what is gone, or one by a person about what
/// the scan judges otherwise. What is still undecided at a severity that is not shown to be
/// low is a warning.
pub fn check_drift(
    current: &Vec<StatementView>,
    committed: &Vec<CommittedStatement>,
    severity: &TextMap<Severity>,
) -> (r: Drift)
    ensures
        r.errors.deep_view() == untriaged(current.deep_view(), committed.deep_view())
            + statement_errors(committed.deep_view(), current.deep_view()),
        r.warnings.deep_view() == value::text_set(
            undecided(committed.deep_view(), current.deep_view(), severity.deep_view()),
        ),
{
    let ghost cur = current.deep_view();
    let ghost com = committed.deep_view();
    let mut errors: Vec<String> = Vec::new();
    let mut i: usize = 0;
    proof {
        assert(cur.take(0) =~= Seq::empty());
        assert(com.take(0) =~= Seq::empty());
        assert(errors.deep_view() =~= Seq::empty());
    }
    while i < current.len()
        invariant
            i <= current.len(),
            cur == current.deep_view(),
            com == committed.deep_view(),
            errors.deep_view() == untriaged(cur.take(i as int), com),
        decreases current.len() - i,
    {
        let s = &current[i];
        proof {
            assert(cur.take(i + 1).drop_last() =~= cur.take(i as int));
            assert(cur.take(i + 1).last() == s.deep_view());
        }
        if !current_in(committed, &s.vulnerability, &s.product, &s.subcomponent) {
            let e: String = message(
                "untriaged: ",
                s.vulnerability.as_str(),
                " on ",
                s.subcomponent.as_str(),
                " has no statement in the committed document",
            );
            let ghost before = errors.deep_view();
            errors.push(e);
            assert(errors.deep_view() =~= before.push(e@));
        }
        i += 1;
    }
    let ghost first = errors.deep_view();
    proof {
        assert(cur.take(i as int) =~= cur);
        assert(first + statement_errors(com.take(0), cur) =~= first);
    }
    let mut j: usize = 0;
    while j < committed.len()
        invariant
            j <= committed.len(),
            cur == current.deep_view(),
            com == committed.deep_view(),
            errors.deep_view() == first + statement_errors(com.take(j as int), cur),
        decreases committed.len() - j,
    {
        let c = &committed[j];
        proof {
            assert(com.take(j + 1).drop_last() =~= com.take(j as int));
            assert(com.take(j + 1).last() == c.deep_view());
        }
        if text::same(c.status.as_str(), "not_affected") {
            let ghost before = errors.deep_view();
            match find_status(current, c) {
                None => {
                    let e: String = message(
                        "stale not_affected: ",
                        c.vulnerability.as_str(),
                        " on ",
                        c.subcomponent.as_str(),
                        " no longer appears in the fleet (the suppression pins a version that moved)",
                    );
                    errors.push(e);
                    assert(errors.deep_view() =~= before.push(e@));
                    assert(before.push(e@) =~= first + statement_errors(
                        com.take(j as int),
                        cur,
                    ).push(e@));
                },
                Some(n) => {
                    let now: &String = &current[n].status;
                    if !text::same(now.as_str(), "not_affected") && c.is_human() {
                        let mut e: String = message(
                            "dropped suppression: ",
                            c.vulnerability.as_str(),
                            " on ",
                            c.subcomponent.as_str(),
                            " is not_affected in the committed document (human assertion) but the current scan reports ",
                        );
                        e.append(now.as_str());
                        e.append(" \u{2014} the assertion was removed or no longer applies");
                        errors.push(e);
                        assert(errors.deep_view() =~= before.push(e@));
                        assert(before.push(e@) =~= first + statement_errors(
                            com.take(j as int),
                            cur,
                        ).push(e@));
                    }
                },
            }
        }
        j += 1;
    }
    let mut warnings: Vec<String> = Vec::new();
    let mut k: usize = 0;
    proof {
        assert(com.take(j as int) =~= com);
        assert(warnings.deep_view() =~= Seq::empty());
    }
    while k < committed.len()
        invariant
            k <= committed.len(),
            cur == current.deep_view(),
            com == committed.deep_view(),
            warnings.deep_view() == undecided(com.take(k as int), cur, severity.deep_view()),
        decreases committed.len() - k,
    {
        let c = &committed[k];
        proof {
            assert(com.take(k + 1).drop_last() =~= com.take(k as int));
            assert(com.take(k + 1).last() == c.deep_view());
        }
        if text::same(c.status.as_str(), "under_investigation") && find_status(
            current,
            c,
        ).is_some() {
            let known: Option<Severity> = match severity.get(c.vulnerability.as_str()) {
                Some(s) => Some(*s),
                None => None,
            };
            if is_gating_severity(known) {
                let w: String = text::join(
                    c.vulnerability.as_str(),
                    " is still under_investigation at gating severity; resolve with --reachability=static",
                );
                let ghost before = warnings.deep_view();
                warnings.push(w);
                assert(warnings.deep_view() =~= before.push(w@));
            }
        }
        k += 1;
    }
    assert(com.take(k as int) =~= com);
    Drift { errors, warnings: value::sort_texts(warnings) }
}

pub open spec fn drift_text(current: nat, committed: nat, errors: nat, warnings: nat) -> Seq<char> {
    "vex check: "@ + text::decimal(current) + " current statement(s), "@ + text::decimal(committed)
        + " committed; "@ + text::decimal(errors) + " drift error(s), "@ + text::decimal(warnings)
        + " warning(s)."@
}

/// What is said of a comparison in one line.
pub fn drift_summary(current: usize, committed: usize, drift: &Drift) -> (r: String)
    ensures
        r@ == drift_text(
            current as nat,
            committed as nat,
            drift.errors.len() as nat,
            drift.warnings.len() as nat,
        ),
{
    let mut r: String = "vex check: ".to_owned();
    r.append(text::show(current as u64).as_str());
    r.append(" current statement(s), ");
    r.append(text::show(committed as u64).as_str());
    r.append(" committed; ");
    r.append(text::show(drift.errors.len() as u64).as_str());
    r.append(" drift error(s), ");
    r.append(text::show(drift.warnings.len() as u64).as_str());
    r.append(" warning(s).");
    r
}

/// The exit code of a comparison: `1` where there are errors.
pub fn drift_exit_code(drift: &Drift) -> (r: u8)
    ensures
        r == (if drift.errors.len() > 0 {
            1u8
        } else {
            0u8
        }),
{
    if drift.errors.len() > 0 {
        1
    } else {
        0
    }
}

/// In sync means no errors: if the document has a statement about everything that the scan
/// reports, and the scan still agrees with every committed `not_affected`, nothing is wrong.
pub proof fn no_drift_when_in_sync(
    current: Seq<StatementViewM>,
    committed: Seq<CommittedStatementM>,
)
    requires
        forall|i: int|
            0 <= i < current.len() ==> is_committed(committed, subject(#[trigger] current[i])),
        forall|i: int|
            0 <= i < committed.len() && (#[trigger] committed[i]).status == "not_affected"@
                ==> status_now(current, committed_subject(committed[i])) == Some(
                "not_affected"@,
            ),
    ensures
        untriaged(current, committed) + statement_errors(committed, current) == Seq::<
            Seq<char>,
        >::empty(),
{
    lemma_no_untriaged(current, committed);
    lemma_no_statement_errors(committed, current);
    assert(untriaged(current, committed) + statement_errors(committed, current) =~= Seq::<
        Seq<char>,
    >::empty());
}

proof fn lemma_no_untriaged(current: Seq<StatementViewM>, committed: Seq<CommittedStatementM>)
    requires
        forall|i: int|
            0 <= i < current.len() ==> is_committed(committed, subject(#[trigger] current[i])),
    ensures
        untriaged(current, committed).len() == 0,
    decreases current.len(),
{
    if current.len() > 0 {
        let l = current.drop_last();
        assert forall|i: int| 0 <= i < l.len() implies is_committed(
            committed,
            subject(#[trigger] l[i]),
        ) by {
            assert(l[i] == current[i]);
        }
        lemma_no_untriaged(l, committed);
        assert(is_committed(committed, subject(current[current.len() - 1])));
    }
}

proof fn lemma_no_statement_errors(
    committed: Seq<CommittedStatementM>,
    current: Seq<StatementViewM>,
)
    requires
        forall|i: int|
            0 <= i < committed.len() && (#[trigger] committed[i]).status == "not_affected"@
                ==> status_now(current, committed_subject(committed[i])) == Some(
                "not_affected"@,
            ),
    ensures
        statement_errors(committed, current).len() == 0,
    decreases committed.len(),
{
    if committed.len() > 0 {
        let l = committed.drop_last();
        assert forall|i: int|
            0 <= i < l.len() && (#[trigger] l[i]).status == "not_affected"@ implies status_now(
            current,
            committed_subject(l[i]),
        ) == Some("not_affected"@) by {
            assert(l[i] == committed[i]);
        }
        lemma_no_statement_errors(l, current);
        assert(committed[committed.len() - 1] == committed.last());
    }
}

/// A machine `not_affected` about something that is still there is never an error: a plain
/// scan cannot judge it.
pub proof fn machine_statement_is_not_status_checked(
    c: CommittedStatementM,
    current: Seq<StatementViewM>,
)
    requires
        !by_human(c),
        status_now(current, committed_subject(c)) is Some,
    ensures
        statement_error(c, current) is None,
{
}

// --- Committed documents ---

pub open spec fn statement_in(s: JsonM) -> CommittedStatementM {
    CommittedStatementM {
        vulnerability: json::text_or_empty(
            json::member_of(json::member(s, "vulnerability"@), "name"@),
        ),
        product: json::text_or_empty(
            json::member_of(json::first_of(json::member(s, "products"@)), "@id"@),
        ),
        subcomponent: json::text_or_empty(
            json::member_of(json::first_of(json::member(s, "subcomponents"@)), "@id"@),
        ),
        status: json::text_or_empty(json::member(s, "status"@)),
        status_notes: json::text_or_empty(json::member(s, "status_notes"@)),
    }
}

/// The list of statements of a document, empty where it has none.
pub open spec fn statements_in(doc: JsonM) -> Seq<JsonM> {
    match json::list_of(json::member(doc, "statements"@)) {
        Some(s) => s,
        None => Seq::empty(),
    }
}

fn read_statement(s: &Json) -> (r: CommittedStatement)
    ensures
        r.deep_view() == statement_in(s.deep_view()),
{
    CommittedStatement {
        vulnerability: json::text_or(json::get_of(s.get("vulnerability"), "name")),
        product: json::text_or(json::get_of(json::get_first(s.get("products")), "@id")),
        subcomponent: json::text_or(json::get_of(json::get_first(s.get("subcomponents")), "@id")),
        status: json::text_or(s.get("status")),
        status_notes: json::text_or(s.get("status_notes")),
    }
}

/// The statements of a document; what is missing in one is empty.
pub fn parse_committed_statements(doc: &Json) -> (r: Vec<CommittedStatement>)
    ensures
        r.deep_view() == statements_in(doc.deep_view()).map_values(|s: JsonM| statement_in(s)),
{
    let ghost want = statements_in(doc.deep_view()).map_values(|s: JsonM| statement_in(s));
    let mut r: Vec<CommittedStatement> = Vec::new();
    let list: Option<&Vec<Json>> = match doc.get("statements") {
        Some(s) => s.as_list(),
        None => None,
    };
    match list {
        Some(v) => {
            let mut i: usize = 0;
            assert(r.deep_view() =~= want.take(0));
            while i < v.len()
                invariant
                    i <= v.len(),
                    want == v.deep_view().map_values(|s: JsonM| statement_in(s)),
                    r.deep_view() == want.take(i as int),
                decreases v.len() - i,
            {
                let s = read_statement(&v[i]);
                let ghost before = r.deep_view();
                r.push(s);
                i += 1;
                assert(r.deep_view() =~= before.push(s.deep_view()));
                assert(want.take(i as int) =~= want.take(i - 1).push(want[i - 1]));
            }
            assert(r.deep_view() =~= want);
        },
        None => {
            assert(r.deep_view() =~= want);
        },
    }
    r
}

/// A statement that a machine made from reachability, and that can be checked again.
pub open spec fn is_witness(s: JsonM) -> bool {
    json::text_or_empty(json::member(s, "status"@)) == "not_affected"@ && json::text_or_empty(
        json::member(s, "justification"@),
    ) == "vulnerable_code_not_in_execute_path"@ && text::occurs(
        json::text_or_empty(json::member(s, "status_notes"@)),
        "Automated Analysis"@,
    )
}

pub open spec fn witness_in(s: JsonM) -> (Seq<char>, Seq<char>) {
    (statement_in(s).vulnerability, statement_in(s).subcomponent)
}

pub open spec fn witnesses_in(s: Seq<JsonM>) -> Seq<(Seq<char>, Seq<char>)>
    decreases s.len(),
{
    if s.len() == 0 {
        Seq::empty()
    } else {
        let front = witnesses_in(s.drop_last());
        if is_witness(s.last()) {
            front.push(witness_in(s.last()))
        } else {
            front
        }
    }
}

/// The vulnerability and component of each statement that a machine made from reachability.
pub fn committed_reachability_witnesses(doc: &Json) -> (r: Vec<(String, String)>)
    ensures
        r.deep_view() == witnesses_in(statements_in(doc.deep_view())),
{
    let mut r: Vec<(String, String)> = Vec::new();
    assert(r.deep_view() =~= Seq::empty());
    let list: Option<&Vec<Json>> = match doc.get("statements") {
        Some(s) => s.as_list(),
        None => None,
    };
    match list {
        Some(v) => {
            let ghost all = v.deep_view();
            let mut i: usize = 0;
            assert(all.take(0) =~= Seq::empty());
            while i < v.len()
                invariant
                    i <= v.len(),
                    all == v.deep_view(),
                    r.deep_view() == witnesses_in(all.take(i as int)),
                decreases v.len() - i,
            {
                let s = &v[i];
                proof {
                    assert(all.take(i + 1).drop_last() =~= all.take(i as int));
                    assert(all.take(i + 1).last() == s.deep_view());
                }
                let status: String = json::text_or(s.get("status"));
                let why: String = json::text_or(s.get("justification"));
                let notes: String = json::text_or(s.get("status_notes"));
                if text::same(status.as_str(), "not_affected") && text::same(
                    why.as_str(),
                    "vulnerable_code_not_in_execute_path",
                ) && text::contains(notes.as_str(), "Automated Analysis") {
                    let c = read_statement(s);
                    let pair = (c.vulnerability, c.subcomponent);
                    let ghost before = r.deep_view();
                    r.push(pair);
                    assert(r.deep_view() =~= before.push(pair.deep_view()));
                }
                i += 1;
            }
            assert(all.take(i as int) =~= all);
        },
        None => {},
    }
    r
}

/// The last finding about an advisory.
pub open spec fn finding_about(vulns: Seq<VulnFindingM>, id: Seq<char>) -> Option<VulnFindingM>
    decreases vulns.len(),
{
    if vulns.len() == 0 {
        None
    } else if vulns.last().advisory_id == id {
        Some(vulns.last())
    } else {
        finding_about(vulns.drop_last(), id)
    }
}

/// Whether a witness no longer holds: the advisory is there and not proved unreachable.
pub open spec fn witness_fails(vulns: Seq<VulnFindingM>, id: Seq<char>) -> bool {
    match finding_about(vulns, id) {
        None => false,
        Some(f) => !(f.reachability matches Some(r) && r.verdict is NotReachable),
    }
}

pub open spec fn failed_witnesses(
    witnesses: Seq<(Seq<char>, Seq<char>)>,
    vulns: Seq<VulnFindingM>,
) -> Seq<(Seq<char>, Seq<char>)>
    decreases witnesses.len(),
{
    if witnesses.len() == 0 {
        Seq::empty()
    } else {
        let front = failed_witnesses(witnesses.drop_last(), vulns);
        if witness_fails(vulns, witnesses.last().0) {
            front.push(witnesses.last())
        } else {
            front
        }
    }
}

fn is_failed(report: &FleetReport, id: &String) -> (r: bool)
    ensures
        r == witness_fails(report.deep_view().vulnerabilities, id@),
{
    let v: &Vec<VulnFinding> = &report.vulnerabilities;
    let ghost all = v.deep_view();
    let mut i: usize = v.len();
    assert(all.take(i as int) =~= all);
    while i > 0
        invariant
            i <= v.len(),
            all == v.deep_view(),
            all == report.deep_view().vulnerabilities,
            finding_about(all, id@) == finding_about(all.take(i as int), id@),
        decreases i,
    {
        let f = &v[i - 1];
        proof {
            assert(all.take(i as int).last() == f.deep_view());
            assert(all.take(i as int).drop_last() =~= all.take(i - 1));
        }
        if f.advisory_id == *id {
            return match &f.reachability {
                Some(r) => match &r.verdict {
                    ReachVerdict::NotReachable => false,
                    _ => true,
                },
                None => true,
            };
        }
        i -= 1;
    }
    assert(all.take(0) =~= Seq::empty());
    false
}

/// The witnesses that no longer hold. One about an advisory that is gone holds.
pub fn failed_reachability_witnesses(
    witnesses: &Vec<(String, String)>,
    report: &FleetReport,
) -> (r: Vec<(String, String)>)
    ensures
        r.deep_view() == failed_witnesses(
            witnesses.deep_view(),
            report.deep_view().vulnerabilities,
        ),
{
    let ghost all = witnesses.deep_view();
    let mut r: Vec<(String, String)> = Vec::new();
    let mut i: usize = 0;
    proof {
        assert(all.take(0) =~= Seq::empty());
        assert(r.deep_view() =~= Seq::empty());
    }
    while i < witnesses.len()
        invariant
            i <= witnesses.len(),
            all == witnesses.deep_view(),
            r.deep_view() == failed_witnesses(
                all.take(i as int),
                report.deep_view().vulnerabilities,
            ),
        decreases witnesses.len() - i,
    {
        proof {
            assert(all.take(i + 1).drop_last() =~= all.take(i as int));
        }
        let w = &witnesses[i];
        if is_failed(report, &w.0) {
            let pair = (w.0.clone(), w.1.clone());
            let ghost before = r.deep_view();
            r.push(pair);
            assert(r.deep_view() =~= before.push(pair.deep_view()));
        }
        i += 1;
    }
    assert(all.take(i as int) =~= all);
    r
}

/// What a request to check witnesses again lacks: consent to compile, then a driver.
#[derive(Debug, Clone, Copy, PartialEq, Eq, Structural)]
pub enum VerifyRefusal {
    NoConsent,
    NoDriver,
}

pub open spec fn refusal_text(r: VerifyRefusal) -> Seq<char> {
    match r {
        VerifyRefusal::NoConsent =>
            "vex verify re-derives witnesses by COMPILING each repo (build scripts + proc-macros run). Re-run with --allow-untrusted-builds only if you trust every repo."@,
        VerifyRefusal::NoDriver => "vex verify requires --reach-driver <PATH>"@,
    }
}

impl VerifyRefusal {
    /// What is said of it.
    pub fn to_string(&self) -> (r: String)
        ensures
            r@ == refusal_text(*self),
    {
        match self {
            VerifyRefusal::NoConsent =>
                "vex verify re-derives witnesses by COMPILING each repo (build scripts + proc-macros run). Re-run with --allow-untrusted-builds only if you trust every repo.".to_owned(),
            VerifyRefusal::NoDriver => "vex verify requires --reach-driver <PATH>".to_owned(),
        }
    }
}

/// Checking witnesses again compiles every repository, so it needs consent first, then a
/// driver.
pub fn verify_refusal(allow_untrusted_builds: bool, has_driver: bool) -> (r: Option<VerifyRefusal>)
    ensures
        r == (if !allow_untrusted_builds {
            Some(VerifyRefusal::NoConsent)
        } else if !has_driver {
            Some(VerifyRefusal::NoDriver)
        } else {
            None
        }),
{
    if !allow_untrusted_builds {
        Some(VerifyRefusal::NoConsent)
    } else if !has_driver {
        Some(VerifyRefusal::NoDriver)
    } else {
        None
    }
}

pub open spec fn failed_text(vulnerability: Seq<char>, subcomponent: Seq<char>) -> Seq<char> {
    "error: witness no longer holds: "@ + vulnerability + " on "@ + subcomponent
        + " is now reachable or undecided"@
}

/// What is said of a witness that does not hold any more.
pub fn failed_witness(w: &(String, String)) -> (r: String)
    ensures
        r@ == failed_text(w.0@, w.1@),
{
    let mut r: String = "error: witness no longer holds: ".to_owned();
    r.append(w.0.as_str());
    r.append(" on ");
    r.append(w.1.as_str());
    r.append(" is now reachable or undecided");
    r
}

pub open spec fn verify_text(checked: nat, failed: nat) -> Seq<char> {
    "vex verify: "@ + text::decimal(checked) + " witness(es) re-derived, "@ + text::decimal(failed)
        + " failed."@
}

/// What is said of checking witnesses again in one line.
pub fn verify_summary(checked: usize, failed: usize) -> (r: String)
    ensures
        r@ == verify_text(checked as nat, failed as nat),
{
    let mut r: String = "vex verify: ".to_owned();
    r.append(text::show(checked as u64).as_str());
    r.append(" witness(es) re-derived, ");
    r.append(text::show(failed as u64).as_str());
    r.append(" failed.");
    r
}

/// The exit code of checking witnesses again: `1` where one failed.
pub fn verify_exit_code(failed: &Vec<(String, String)>) -> (r: u8)
    ensures
        r == (if failed.len() > 0 {
            1u8
        } else {
            0u8
        }),
{
    if failed.len() > 0 {
        1
    } else {
        0
    }
}

/// The severity of each advisory of a report; of several findings the last counts.
pub open spec fn severities_in(vulns: Seq<VulnFindingM>) -> Map<Seq<char>, Severity>
    decreases vulns.len(),
{
    if vulns.len() == 0 {
        Map::empty()
    } else {
        severities_in(vulns.drop_last()).insert(vulns.last().advisory_id, vulns.last().severity)
    }
}

/// The severity of each advisory of a report.
pub fn severities_of(report: &FleetReport) -> (r: TextMap<Severity>)
    ensures
        r.deep_view() == severities_in(report.deep_view().vulnerabilities),
{
    let v: &Vec<VulnFinding> = &report.vulnerabilities;
    let ghost all = v.deep_view();
    let mut r: TextMap<Severity> = TextMap::new();
    let mut i: usize = 0;
    assert(all.take(0) =~= Seq::empty());
    while i < v.len()
        invariant
            i <= v.len(),
            all == v.deep_view(),
            r.deep_view() == severities_in(all.take(i as int)),
        decreases v.len() - i,
    {
        proof {
            assert(all.take(i + 1).drop_last() =~= all.take(i as int));
        }
        r = r.insert(v[i].advisory_id.clone(), v[i].severity);
        i += 1;
    }
    assert(all.take(i as int) =~= all);
    r
}

/// Whether `i` is the last finding of a report about an advisory.
pub open spec fn last_about(vulns: Seq<VulnFindingM>, id: Seq<char>, i: int) -> bool {
    &&& 0 <= i < vulns.len()
    &&& vulns[i].advisory_id == id
    &&& forall|k: int| i < k < vulns.len() ==> (#[trigger] vulns[k]).advisory_id != id
}

proof fn lemma_finding_about(vulns: Seq<VulnFindingM>, id: Seq<char>)
    ensures
        forall|i: int| #[trigger]
            last_about(vulns, id, i) ==> finding_about(vulns, id) == Some(vulns[i])
                && severities_in(vulns).dom().contains(id) && severities_in(vulns)[id]
                == vulns[i].severity,
        finding_about(vulns, id) is None <==> forall|k: int|
            0 <= k < vulns.len() ==> (#[trigger] vulns[k]).advisory_id != id,
        finding_about(vulns, id) is Some ==> exists|i: int| #[trigger] last_about(vulns, id, i),
        severities_in(vulns).dom().contains(id) <==> finding_about(vulns, id) is Some,
    decreases vulns.len(),
{
    if vulns.len() > 0 {
        let l = vulns.drop_last();
        let n = l.len() as int;
        lemma_finding_about(l, id);
        if vulns.last().advisory_id == id {
            assert(last_about(vulns, id, n));
        } else {
            assert forall|i: int| #[trigger]
                last_about(vulns, id, i) implies last_about(l, id, i) by {
                assert(vulns[n].advisory_id != id);
                assert forall|k: int| i < k < l.len() implies (#[trigger] l[k]).advisory_id
                    != id by {
                    assert(l[k] == vulns[k]);
                }
            }
            assert forall|i: int| #[trigger]
                last_about(l, id, i) implies last_about(vulns, id, i) by {
                assert forall|k: int| i < k < vulns.len() implies (#[trigger] vulns[k]).advisory_id
                    != id by {
                    if k < n {
                        assert(l[k] == vulns[k]);
                    }
                }
            }
            if finding_about(l, id) is Some {
                let i = choose|i: int| #[trigger] last_about(l, id, i);
                assert(last_about(vulns, id, i));
                assert(vulns[i].advisory_id == id);
            } else {
                assert forall|k: int| 0 <= k < vulns.len() implies (#[trigger] vulns[k]).advisory_id
                    != id by {
                    if k < n {
                        assert(l[k] == vulns[k]);
                    }
                }
            }
        }
    }
}

/// Whether a finding was judged and shown not to be reachable.
pub open spec fn shown_unreachable(f: VulnFindingM) -> bool {
    match f.reachability {
        None => false,
        Some(r) => match r.verdict {
            ReachVerdictM::NotReachable => true,
            ReachVerdictM::Reachable { .. } => false,
            ReachVerdictM::Unknown { .. } => false,
        },
    }
}

/// A witness about an advisory that the report holds is passed over only where the finding
/// about it is shown not to be reachable; where it is reached, undecided or not judged at all
/// the witness failed. One about an advisory that the report does not hold did not. What failed
/// is given as it was, in its order.
pub proof fn a_witness_needs_its_proof_again(
    witnesses: Seq<(Seq<char>, Seq<char>)>,
    vulns: Seq<VulnFindingM>,
)
    ensures
        failed_witnesses(witnesses, vulns) == witnesses.filter(
            |w: (Seq<char>, Seq<char>)|
                exists|i: int| #[trigger] last_about(vulns, w.0, i) && !shown_unreachable(vulns[i]),
        ),
    decreases witnesses.len(),
{
    reveal(Seq::filter);
    if witnesses.len() > 0 {
        a_witness_needs_its_proof_again(witnesses.drop_last(), vulns);
        let id = witnesses.last().0;
        lemma_finding_about(vulns, id);
        if witness_fails(vulns, id) {
            let i = choose|i: int| #[trigger] last_about(vulns, id, i);
            assert(last_about(vulns, id, i) && !shown_unreachable(vulns[i]));
        }
    }
}

/// Where a report holds an advisory once, a witness about it failed exactly where the finding
/// is not shown to be unreachable.
pub proof fn an_undecided_witness_failed(
    witnesses: Seq<(Seq<char>, Seq<char>)>,
    vulns: Seq<VulnFindingM>,
    k: int,
    i: int,
)
    requires
        0 <= k < witnesses.len(),
        0 <= i < vulns.len(),
        witnesses[k].0 == vulns[i].advisory_id,
        forall|m: int|
            0 <= m < vulns.len() && (#[trigger] vulns[m]).advisory_id == vulns[i].advisory_id
                ==> m == i,
    ensures
        failed_witnesses(witnesses, vulns).contains(witnesses[k]) <==> (
        vulns[i].reachability is None || !(vulns[i].reachability->0.verdict is NotReachable)),
{
    a_witness_needs_its_proof_again(witnesses, vulns);
    let p = |w: (Seq<char>, Seq<char>)|
        exists|i: int| #[trigger] last_about(vulns, w.0, i) && !shown_unreachable(vulns[i]);
    let w = witnesses[k];
    assert(last_about(vulns, w.0, i));
    assert(p(w) == !shown_unreachable(vulns[i])) by {
        if p(w) {
            let m = choose|m: int| #[trigger] last_about(vulns, w.0, m) && !shown_unreachable(vulns[m]);
            assert(m == i);
        }
    }
    broadcast use vstd::seq_lib::group_filter_ensures;

    assert(witnesses.contains(w));
}

/// Each advisory of a report has the severity of the last finding about it, and no other has
/// one.
pub proof fn the_last_severity_counts(vulns: Seq<VulnFindingM>, id: Seq<char>, i: int)
    ensures
        last_about(vulns, id, i) ==> severity_in(severities_in(vulns), id) == Some(
            vulns[i].severity,
        ),
        (forall|k: int| 0 <= k < vulns.len() ==> (#[trigger] vulns[k]).advisory_id != id)
            ==> severity_in(severities_in(vulns), id) is None,
{
    lemma_finding_about(vulns, id);
}

/// Only what is known to be low or medium does not gate.
pub proof fn what_is_not_known_gates(s: Severity)
    ensures
        gating(None),
        gating(Some(s)) <==> s == Severity::Unknown || s == Severity::High || s
            == Severity::Critical,
{
}

/// Whether a statement of a scan and one of a document are about the same vulnerability,
/// product and component.
pub open spec fn same_subject(s: StatementViewM, c: CommittedStatementM) -> bool {
    &&& s.vulnerability == c.vulnerability
    &&& s.product == c.product
    &&& s.subcomponent == c.subcomponent
}

/// Whether `i` is the last statement of a scan that is about the subject of a committed one.
pub open spec fn last_on(current: Seq<StatementViewM>, c: CommittedStatementM, i: int) -> bool {
    &&& 0 <= i < current.len()
    &&& same_subject(current[i], c)
    &&& forall|k: int| i < k < current.len() ==> !same_subject(#[trigger] current[k], c)
}

proof fn lemma_status_now(current: Seq<StatementViewM>, c: CommittedStatementM)
    ensures
        forall|i: int| #[trigger]
            last_on(current, c, i) ==> status_now(current, committed_subject(c)) == Some(
                current[i].status,
            ),
        status_now(current, committed_subject(c)) is None <==> forall|k: int|
            0 <= k < current.len() ==> !same_subject(#[trigger] current[k], c),
        status_now(current, committed_subject(c)) is Some ==> exists|i: int| #[trigger]
            last_on(current, c, i),
    decreases current.len(),
{
    if current.len() > 0 {
        let l = current.drop_last();
        let n = l.len() as int;
        let s = current.last();
        lemma_status_now(l, c);
        assert((subject(s) == committed_subject(c)) == same_subject(s, c));
        if same_subject(s, c) {
            assert(last_on(current, c, n));
            assert(current[n] == s);
        } else {
            assert forall|i: int| #[trigger] last_on(current, c, i) implies last_on(l, c, i) by {
                assert(!same_subject(current[n], c));
                assert forall|k: int| i < k < l.len() implies !same_subject(#[trigger] l[k], c) by {
                    assert(l[k] == current[k]);
                }
            }
            if status_now(l, committed_subject(c)) is Some {
                let i = choose|i: int| #[trigger] last_on(l, c, i);
                assert forall|k: int| i < k < current.len() implies !same_subject(
                    #[trigger] current[k],
                    c,
                ) by {
                    if k < n {
                        assert(l[k] == current[k]);
                    }
                }
                assert(last_on(current, c, i));
                assert(same_subject(current[i], c));
            } else {
                assert forall|k: int| 0 <= k < current.len() implies !same_subject(
                    #[trigger] current[k],
                    c,
                ) by {
                    if k < n {
                        assert(l[k] == current[k]);
                    }
                }
            }
        }
    }
}

/// What the scan says is untriaged exactly where no committed statement is about the same
/// vulnerability, product and component; each such is an error of its own, in order.
pub proof fn only_what_is_not_committed_is_untriaged(
    current: Seq<StatementViewM>,
    committed: Seq<CommittedStatementM>,
)
    ensures
        untriaged(current, committed) == current.filter(
            |s: StatementViewM|
                forall|k: int| 0 <= k < committed.len() ==> !same_subject(s, #[trigger] committed[k]),
        ).map_values(|s: StatementViewM| untriaged_text(s)),
    decreases current.len(),
{
    reveal(Seq::filter);
    let p = |s: StatementViewM|
        forall|k: int| 0 <= k < committed.len() ==> !same_subject(s, #[trigger] committed[k]);
    let f = |s: StatementViewM| untriaged_text(s);
    if current.len() > 0 {
        only_what_is_not_committed_is_untriaged(current.drop_last(), committed);
        let s = current.last();
        if is_committed(committed, subject(s)) {
            let k = choose|k: int|
                0 <= k < committed.len() && committed_subject(#[trigger] committed[k]) == subject(s);
            assert(same_subject(s, committed[k]));
        } else {
            assert forall|k: int| 0 <= k < committed.len() implies !same_subject(
                s,
                #[trigger] committed[k],
            ) by {
                assert(committed_subject(committed[k]) != subject(s));
            }
            assert(p(s));
            assert(current.filter(p).map_values(f) =~= current.drop_last().filter(p).map_values(
                f,
            ).push(f(s)));
        }
    } else {
        assert(current.filter(p).map_values(f) =~= Seq::empty());
    }
}

/// A committed statement is in error exactly where it says `not_affected` and either the scan
/// says nothing of its subject any more, or it is by a person and the last that the scan says of
/// its subject is something else.
pub proof fn only_a_false_not_affected_is_an_error(
    c: CommittedStatementM,
    current: Seq<StatementViewM>,
)
    ensures
        statement_error(c, current) is Some <==> c.status == "not_affected"@ && ((forall|k: int|
            0 <= k < current.len() ==> !same_subject(#[trigger] current[k], c)) || (text::occurs(
            c.status_notes,
            "Human Assertion"@,
        ) && exists|i: int| #[trigger]
            last_on(current, c, i) && current[i].status != "not_affected"@)),
        statement_error(c, current) is Some && (forall|k: int|
            0 <= k < current.len() ==> !same_subject(#[trigger] current[k], c)) ==> statement_error(
            c,
            current,
        ) == Some(stale_text(c)),
        forall|i: int|
            statement_error(c, current) is Some && #[trigger] last_on(current, c, i)
                ==> statement_error(c, current) == Some(dropped_text(c, current[i].status)),
{
    lemma_status_now(current, c);
    if status_now(current, committed_subject(c)) is Some {
        let i = choose|i: int| #[trigger] last_on(current, c, i);
        assert(same_subject(current[i], c));
    }
}

/// The errors of the committed statements are those of each, in order.
pub proof fn every_statement_in_error_is_told(
    committed: Seq<CommittedStatementM>,
    current: Seq<StatementViewM>,
)
    ensures
        statement_errors(committed, current) == committed.filter(
            |c: CommittedStatementM| statement_error(c, current) is Some,
        ).map_values(|c: CommittedStatementM| statement_error(c, current)->0),
    decreases committed.len(),
{
    reveal(Seq::filter);
    let p = |c: CommittedStatementM| statement_error(c, current) is Some;
    let f = |c: CommittedStatementM| statement_error(c, current)->0;
    if committed.len() > 0 {
        every_statement_in_error_is_told(committed.drop_last(), current);
        let c = committed.last();
        if p(c) {
            assert(committed.filter(p).map_values(f)
                =~= committed.drop_last().filter(p).map_values(f).push(f(c)));
        }
    } else {
        assert(committed.filter(p).map_values(f) =~= Seq::empty());
    }
}

/// A warning is given exactly for the committed statements that are under investigation, about
/// something that the scan still reports, and about a vulnerability that is not known to be low
/// or medium.
pub proof fn only_what_is_open_and_grave_is_warned_of(
    committed: Seq<CommittedStatementM>,
    current: Seq<StatementViewM>,
    severity: Map<Seq<char>, Severity>,
)
    ensures
        undecided(committed, current, severity) == committed.filter(
            |c: CommittedStatementM|
                c.status == "under_investigation"@ && (exists|k: int|
                    0 <= k < current.len() && same_subject(#[trigger] current[k], c)) && !(
                severity.dom().contains(c.vulnerability) && (severity[c.vulnerability]
                    == Severity::Low || severity[c.vulnerability] == Severity::Medium)),
        ).map_values(|c: CommittedStatementM| undecided_text(c)),
    decreases committed.len(),
{
    reveal(Seq::filter);
    let p = |c: CommittedStatementM|
        c.status == "under_investigation"@ && (exists|k: int|
            0 <= k < current.len() && same_subject(#[trigger] current[k], c)) && !(
        severity.dom().contains(c.vulnerability) && (severity[c.vulnerability] == Severity::Low
            || severity[c.vulnerability] == Severity::Medium));
    let f = |c: CommittedStatementM| undecided_text(c);
    if committed.len() > 0 {
        only_what_is_open_and_grave_is_warned_of(committed.drop_last(), current, severity);
        let c = committed.last();
        lemma_status_now(current, c);
        if p(c) {
            let k = choose|k: int|
                0 <= k < current.len() && same_subject(#[trigger] current[k], c);
            assert(still_undecided(c, current, severity));
            assert(committed.filter(p).map_values(f)
                =~= committed.drop_last().filter(p).map_values(f).push(f(c)));
        } else if still_undecided(c, current, severity) {
            assert(exists|k: int| 0 <= k < current.len() && same_subject(#[trigger] current[k], c));
        }
    } else {
        assert(committed.filter(p).map_values(f) =~= Seq::empty());
    }
}

/// A product has its declared identity, else its package URL, else the base followed by its
/// name, else a name of our own; of several repositories with one name the last counts, and
/// nothing else has an identity.
pub proof fn a_product_goes_by_what_is_declared(
    repos: Seq<RepoM>,
    purls: Seq<Option<Seq<char>>>,
    base: Option<Seq<char>>,
    i: int,
)
    requires
        0 <= i < repos.len() == purls.len(),
        forall|k: int| i < k < repos.len() ==> (#[trigger] repos[k]).id != repos[i].id,
    ensures
        ({
            let ids = product_ids(repos, purls, base);
            let r = repos[i];
            &&& ids.dom().contains(r.id)
            &&& r.vex_product_id matches Some(id) ==> ids[r.id] == id
            &&& r.vex_product_id is None && (purls[i] matches Some(_)) ==> ids[r.id] == purls[i]->0
            &&& r.vex_product_id is None && purls[i] is None && (base matches Some(_)) ==> ids[r.id]
                == base->0 + r.id
            &&& r.vex_product_id is None && purls[i] is None && base is None ==> ids[r.id]
                == "urn:fleetreach:product:"@ + r.id
        }),
    decreases repos.len(),
{
    if i < repos.len() - 1 {
        let l = repos.drop_last();
        assert(repos[repos.len() - 1].id != repos[i].id);
        assert forall|k: int| i < k < l.len() implies (#[trigger] l[k]).id != l[i].id by {
            assert(l[k] == repos[k]);
        }
        lemma_product_ids_front(l, purls, base);
        a_product_goes_by_what_is_declared(l, purls.drop_last(), base, i);
    }
}

proof fn lemma_product_ids_front(
    repos: Seq<RepoM>,
    purls: Seq<Option<Seq<char>>>,
    base: Option<Seq<char>>,
)
    requires
        repos.len() + 1 == purls.len(),
    ensures
        product_ids(repos, purls, base) == product_ids(repos, purls.drop_last(), base),
{
    lemma_product_ids_alike(repos, purls, purls.drop_last(), base);
}

proof fn lemma_product_ids_alike(
    repos: Seq<RepoM>,
    a: Seq<Option<Seq<char>>>,
    b: Seq<Option<Seq<char>>>,
    base: Option<Seq<char>>,
)
    requires
        forall|k: int| 0 <= k < repos.len() ==> #[trigger] a[k] == b[k],
    ensures
        product_ids(repos, a, base) == product_ids(repos, b, base),
    decreases repos.len(),
{
    if repos.len() > 0 {
        lemma_product_ids_alike(repos.drop_last(), a, b, base);
        assert(a[repos.len() - 1] == b[repos.len() - 1]);
    }
}

/// Each suppressed occurrence in a repository that has an identity becomes one statement, in
/// order, about that advisory, product, package and version, with the reason and the name that
/// the suppression carries. What is in a toolchain, or in a repository without an identity, is
/// passed over.
pub proof fn every_suppressed_occurrence_is_stated(
    s: Seq<SuppressedOccurrenceM>,
    ids: Map<Seq<char>, Seq<char>>,
)
    ensures
        assertions_for(s, ids).len() == s.filter(
            |x: SuppressedOccurrenceM|
                x.occurrence matches OccurrenceM::InRepo { repo, .. } && ids.dom().contains(repo),
        ).len(),
        forall|k: int|
            0 <= k < assertions_for(s, ids).len() ==> ({
                let x = s.filter(
                    |x: SuppressedOccurrenceM|
                        x.occurrence matches OccurrenceM::InRepo { repo, .. } && ids.dom().contains(
                            repo,
                        ),
                )[k];
                let a = #[trigger] assertions_for(s, ids)[k];
                &&& a.advisory_id == x.advisory_id
                &&& a.aliases == x.aliases
                &&& x.occurrence matches OccurrenceM::InRepo { repo, package, installed, .. }
                    && a.product_id == ids[repo] && a.package == package && a.version
                    == version::version_text(installed)
                &&& a.justification == x.justification
                &&& a.impact_statement == x.impact_statement
                &&& a.approved_by == x.approved_by
            }),
    decreases s.len(),
{
    reveal(Seq::filter);
    let p = |x: SuppressedOccurrenceM|
        x.occurrence matches OccurrenceM::InRepo { repo, .. } && ids.dom().contains(repo);
    if s.len() > 0 {
        let l = s.drop_last();
        every_suppressed_occurrence_is_stated(l, ids);
        assert(p(s.last()) == assertion_for(s.last(), ids) is Some);
        let front = assertions_for(l, ids);
        assert forall|k: int| 0 <= k < assertions_for(s, ids).len() implies ({
            let x = s.filter(p)[k];
            let a = #[trigger] assertions_for(s, ids)[k];
            &&& a.advisory_id == x.advisory_id
            &&& a.aliases == x.aliases
            &&& x.occurrence matches OccurrenceM::InRepo { repo, package, installed, .. }
                && a.product_id == ids[repo] && a.package == package && a.version
                == version::version_text(installed)
            &&& a.justification == x.justification
            &&& a.impact_statement == x.impact_statement
            &&& a.approved_by == x.approved_by
        }) by {
            if k < front.len() {
                assert(assertions_for(s, ids)[k] == front[k]);
                assert(s.filter(p)[k] == l.filter(p)[k]);
            } else {
                assert(s.filter(p)[k] == s.last());
            }
        }
    }
}

/// The advisories that a label would serve better are those of some suppressed occurrence that
/// is stated without one, each once.
pub proof fn only_free_text_is_pointed_out(
    s: Seq<SuppressedOccurrenceM>,
    ids: Map<Seq<char>, Seq<char>>,
)
    ensures
        forall|id: Seq<char>| #[trigger]
            nudges_for(s, ids).contains(id) <==> exists|k: int|
                0 <= k < s.len() && (#[trigger] s[k]).advisory_id == id && s[k].justification is None
                    && (s[k].occurrence matches OccurrenceM::InRepo { repo, .. }
                    && ids.dom().contains(repo)),
        nudges_for(s, ids).no_duplicates(),
    decreases s.len(),
{
    let good = |x: SuppressedOccurrenceM|
        x.justification is None && (x.occurrence matches OccurrenceM::InRepo { repo, .. }
            && ids.dom().contains(repo));
    if s.len() > 0 {
        let l = s.drop_last();
        let n = l.len() as int;
        only_free_text_is_pointed_out(l, ids);
        let front = nudges_for(l, ids);
        let x = s.last();
        assert(s[n] == x);
        assert(good(x) == (assertion_for(x, ids) is Some && x.justification is None));
        assert forall|id: Seq<char>| #[trigger]
            nudges_for(s, ids).contains(id) implies exists|k: int|
            0 <= k < s.len() && (#[trigger] s[k]).advisory_id == id && good(s[k]) by {
            if front.contains(id) {
                let k = choose|k: int|
                    0 <= k < l.len() && (#[trigger] l[k]).advisory_id == id && good(l[k]);
                assert(s[k] == l[k]);
            } else {
                assert(s[n].advisory_id == id && good(s[n]));
            }
        }
        assert forall|id: Seq<char>|
            (exists|k: int| 0 <= k < s.len() && (#[trigger] s[k]).advisory_id == id && good(s[k]))
            implies #[trigger] nudges_for(s, ids).contains(id) by {
            let k = choose|k: int|
                0 <= k < s.len() && (#[trigger] s[k]).advisory_id == id && good(s[k]);
            if k < n {
                assert(l[k] == s[k]);
                assert(front.contains(id));
                let j = choose|j: int| 0 <= j < front.len() && front[j] == id;
                assert(nudges_for(s, ids)[j] == id);
            } else if !front.contains(id) {
                assert(nudges_for(s, ids).last() == id);
            }
        }
    }
}

/// The witnesses of a document are its `not_affected` statements that say, by an automated
/// analysis, that the vulnerable code is not in the execute path, in their order.
pub proof fn witnesses_are_automated_statements(s: Seq<JsonM>)
    ensures
        witnesses_in(s) == s.filter(
            |x: JsonM|
                json::text_of(json::member(x, "status"@)) == Some("not_affected"@) && json::text_of(
                    json::member(x, "justification"@),
                ) == Some("vulnerable_code_not_in_execute_path"@) && (json::text_of(
                    json::member(x, "status_notes"@),
                ) matches Some(notes) && text::occurs(notes, "Automated Analysis"@)),
        ).map_values(|x: JsonM| (statement_in(x).vulnerability, statement_in(x).subcomponent)),
    decreases s.len(),
{
    reveal(Seq::filter);
    let p = |x: JsonM|
        json::text_of(json::member(x, "status"@)) == Some("not_affected"@) && json::text_of(
            json::member(x, "justification"@),
        ) == Some("vulnerable_code_not_in_execute_path"@) && (json::text_of(
            json::member(x, "status_notes"@),
        ) matches Some(notes) && text::occurs(notes, "Automated Analysis"@));
    let f = |x: JsonM| (statement_in(x).vulnerability, statement_in(x).subcomponent);
    if s.len() > 0 {
        witnesses_are_automated_statements(s.drop_last());
        let x = s.last();
        reveal_strlit("not_affected");
        reveal_strlit("vulnerable_code_not_in_execute_path");
        reveal_strlit("Automated Analysis");
        let none = Seq::<char>::empty();
        assert(none.len() == 0);
        assert("not_affected"@.len() > 0 && "vulnerable_code_not_in_execute_path"@.len() > 0);
        assert(!text::occurs(none, "Automated Analysis"@)) by {
            assert("Automated Analysis"@.len() > 0);
        }
        assert(is_witness(x) == p(x));
        if p(x) {
            assert(s.filter(p).map_values(f) =~= s.drop_last().filter(p).map_values(f).push(f(x)));
        }
    } else {
        assert(s.filter(p).map_values(f) =~= Seq::empty());
    }
}

/// A package has a package URL of its name and version exactly where it has both and is not kept
/// from publishing.
pub proof fn a_published_package_has_a_url(manifest: JsonM)
    ensures
        purl_in(manifest) is Some <==> (json::member(manifest, "package"@) matches Some(p)
            && p is Object && json::member(p, "publish"@) != Some(JsonM::Bool(false)) && (
        json::member(p, "name"@) matches Some(JsonM::Text(_))) && (json::member(p, "version"@)
            matches Some(JsonM::Text(_)))),
        purl_in(manifest) matches Some(url) ==> (json::member(manifest, "package"@) matches Some(p)
            && json::member(p, "name"@) matches Some(JsonM::Text(name)) && json::member(
            p,
            "version"@,
        ) matches Some(JsonM::Text(version)) && url == "pkg:cargo/"@ + name + "@"@ + version),
{
}

/// The suppressions of a configuration are its ignores and then its assertions, so that where
/// both cover something the ignore does.
pub proof fn ignores_come_first(c: ConfigM)
    ensures
        suppressions_in(c).len() == c.ignores.len() + c.vex_assertions.len(),
        forall|i: int|
            0 <= i < c.ignores.len() ==> (#[trigger] suppressions_in(c)[i]).id == c.ignores[i].id
                && suppressions_in(c)[i].repo is None && suppressions_in(c)[i].reason
                == c.ignores[i].reason,
        forall|i: int|
            0 <= i < c.vex_assertions.len() ==> ({
                let s = suppressions_in(c)[c.ignores.len() + i];
                let a = #[trigger] c.vex_assertions[i];
                s.id == a.id && s.repo == a.repo && s.reason == a.reason && s.justification
                    == a.justification && s.approved_by == Some(a.approved_by)
            }),
{
}

} // verus!
