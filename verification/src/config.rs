//! The configuration of a fleet, and the checks that a raw one must pass.
use vstd::prelude::*;
use crate::finding::{Ecosystem, RepoId};
use crate::text;
use crate::value::Plain;

verus! {

/// How deep lockfiles are looked for where nothing else is said.
pub const DEFAULT_GLOB_MAX_DEPTH: usize = 3;

/// What stands at a path.
#[derive(Debug, Clone, Copy, PartialEq, Eq, Structural)]
pub enum PathState {
    Missing,
    NotDirectory,
    Directory,
}

/// Which dependencies a statement about a product speaks of.
#[derive(Debug, Clone, Copy, PartialEq, Eq, Structural)]
pub enum VexScope {
    Runtime,
    Build,
}

pub open spec fn scope_named(name: Seq<char>) -> Option<VexScope> {
    if name == "runtime"@ {
        Some(VexScope::Runtime)
    } else if name == "build"@ {
        Some(VexScope::Build)
    } else {
        None
    }
}

impl VexScope {
    /// The scope with this name.
    pub fn parse(name: &str) -> (r: Option<VexScope>)
        ensures
            r == scope_named(name@),
    {
        if text::same(name, "runtime") {
            Some(VexScope::Runtime)
        } else if text::same(name, "build") {
            Some(VexScope::Build)
        } else {
            None
        }
    }
}

/// The ecosystem that a name in a configuration means; several have more than one name.
pub open spec fn ecosystem_named_m(name: Seq<char>) -> Option<Ecosystem> {
    if name == "cargo"@ || name == "rust"@ {
        Some(Ecosystem::Cargo)
    } else if name == "go"@ {
        Some(Ecosystem::Go)
    } else if name == "npm"@ {
        Some(Ecosystem::Npm)
    } else if name == "pypi"@ || name == "python"@ {
        Some(Ecosystem::Pypi)
    } else if name == "rubygems"@ || name == "ruby"@ {
        Some(Ecosystem::RubyGems)
    } else if name == "packagist"@ || name == "composer"@ || name == "php"@ {
        Some(Ecosystem::Packagist)
    } else if name == "nuget"@ || name == "dotnet"@ {
        Some(Ecosystem::NuGet)
    } else if name == "julia"@ {
        Some(Ecosystem::Julia)
    } else if name == "swift"@ {
        Some(Ecosystem::Swift)
    } else if name == "hex"@ || name == "elixir"@ {
        Some(Ecosystem::Hex)
    } else if name == "githubactions"@ || name == "actions"@ || name == "gha"@ {
        Some(Ecosystem::GitHubActions)
    } else if name == "maven"@ || name == "gradle"@ || name == "java"@ {
        Some(Ecosystem::Maven)
    } else {
        None
    }
}

/// The ecosystem that a name in a configuration means.
pub fn ecosystem_named(name: &str) -> (r: Option<Ecosystem>)
    ensures
        r == ecosystem_named_m(name@),
{
    if text::same(name, "cargo") || text::same(name, "rust") {
        Some(Ecosystem::Cargo)
    } else if text::same(name, "go") {
        Some(Ecosystem::Go)
    } else if text::same(name, "npm") {
        Some(Ecosystem::Npm)
    } else if text::same(name, "pypi") || text::same(name, "python") {
        Some(Ecosystem::Pypi)
    } else if text::same(name, "rubygems") || text::same(name, "ruby") {
        Some(Ecosystem::RubyGems)
    } else if text::same(name, "packagist") || text::same(name, "composer") || text::same(name, "php") {
        Some(Ecosystem::Packagist)
    } else if text::same(name, "nuget") || text::same(name, "dotnet") {
        Some(Ecosystem::NuGet)
    } else if text::same(name, "julia") {
        Some(Ecosystem::Julia)
    } else if text::same(name, "swift") {
        Some(Ecosystem::Swift)
    } else if text::same(name, "hex") || text::same(name, "elixir") {
        Some(Ecosystem::Hex)
    } else if text::same(name, "githubactions") || text::same(name, "actions") || text::same(name, "gha") {
        Some(Ecosystem::GitHubActions)
    } else if text::same(name, "maven") || text::same(name, "gradle") || text::same(name, "java") {
        Some(Ecosystem::Maven)
    } else {
        None
    }
}

/// The labels that may justify a `not_affected` statement.
pub const VEX_JUSTIFICATIONS: [&'static str; 5] = [
    "component_not_present",
    "vulnerable_code_not_present",
    "vulnerable_code_not_in_execute_path",
    "vulnerable_code_cannot_be_controlled_by_adversary",
    "inline_mitigations_already_exist",
];

pub open spec fn is_justification_m(label: Seq<char>) -> bool {
    ||| label == "component_not_present"@
    ||| label == "vulnerable_code_not_present"@
    ||| label == "vulnerable_code_not_in_execute_path"@
    ||| label == "vulnerable_code_cannot_be_controlled_by_adversary"@
    ||| label == "inline_mitigations_already_exist"@
}

/// Whether a label is one of [`VEX_JUSTIFICATIONS`].
pub fn is_justification(label: &str) -> (r: bool)
    ensures
        r == is_justification_m(label@),
{
    text::same(label, "component_not_present")
        || text::same(label, "vulnerable_code_not_present")
        || text::same(label, "vulnerable_code_not_in_execute_path")
        || text::same(label, "vulnerable_code_cannot_be_controlled_by_adversary")
        || text::same(label, "inline_mitigations_already_exist")
}

// --- Before the checks ---

/// What a [`RawRepo`] stands for.
#[verifier::ext_equal]
pub struct RawRepoM {
    pub id: Seq<char>,
    pub path: Seq<char>,
    pub state: PathState,
    pub glob: bool,
    pub glob_max_depth: Option<usize>,
    pub vex_product_id: Option<Seq<char>>,
    pub ecosystem: Option<Ecosystem>,
}

/// A repository as it is declared, with what stands at its path.
#[derive(Debug, PartialEq)]
pub struct RawRepo {
    pub id: String,
    /// The declared path, resolved.
    pub path: String,
    pub state: PathState,
    pub glob: bool,
    pub glob_max_depth: Option<usize>,
    pub vex_product_id: Option<String>,
    pub ecosystem: Option<Ecosystem>,
}

impl DeepView for RawRepo {
    type V = RawRepoM;

    open spec fn deep_view(&self) -> RawRepoM {
        RawRepoM {
            id: self.id@,
            path: self.path@,
            state: self.state,
            glob: self.glob,
            glob_max_depth: self.glob_max_depth,
            vex_product_id: self.vex_product_id.deep_view(),
            ecosystem: self.ecosystem,
        }
    }
}

/// What a [`RawIgnore`] stands for.
#[verifier::ext_equal]
pub struct RawIgnoreM {
    pub id: Seq<char>,
    pub reason: Seq<char>,
}

/// An advisory to ignore, as it is declared.
#[derive(Debug, PartialEq)]
pub struct RawIgnore {
    pub id: String,
    pub reason: String,
}

impl DeepView for RawIgnore {
    type V = RawIgnoreM;

    open spec fn deep_view(&self) -> RawIgnoreM {
        RawIgnoreM {
            id: self.id@,
            reason: self.reason@,
        }
    }
}

/// What a [`RawVex`] stands for.
#[verifier::ext_equal]
pub struct RawVexM {
    pub author: Option<Seq<char>>,
    pub role: Option<Seq<char>>,
    pub scope: Option<Seq<char>>,
    pub product_id_base: Option<Seq<char>>,
}

/// The settings of VEX documents, as they are declared.
#[derive(Debug, PartialEq)]
pub struct RawVex {
    pub author: Option<String>,
    pub role: Option<String>,
    pub scope: Option<String>,
    pub product_id_base: Option<String>,
}

impl DeepView for RawVex {
    type V = RawVexM;

    open spec fn deep_view(&self) -> RawVexM {
        RawVexM {
            author: self.author.deep_view(),
            role: self.role.deep_view(),
            scope: self.scope.deep_view(),
            product_id_base: self.product_id_base.deep_view(),
        }
    }
}

/// What a [`RawVexAssertion`] stands for.
#[verifier::ext_equal]
pub struct RawVexAssertionM {
    pub id: Seq<char>,
    pub repo: Option<Seq<char>>,
    pub justification: Option<Seq<char>>,
    pub reason: Seq<char>,
    pub approved_by: Seq<char>,
}

/// A human `not_affected` assertion, as it is declared.
#[derive(Debug, PartialEq)]
pub struct RawVexAssertion {
    pub id: String,
    pub repo: Option<String>,
    pub justification: Option<String>,
    pub reason: String,
    pub approved_by: String,
}

impl DeepView for RawVexAssertion {
    type V = RawVexAssertionM;

    open spec fn deep_view(&self) -> RawVexAssertionM {
        RawVexAssertionM {
            id: self.id@,
            repo: self.repo.deep_view(),
            justification: self.justification.deep_view(),
            reason: self.reason@,
            approved_by: self.approved_by@,
        }
    }
}

/// What a [`RawConfig`] stands for.
#[verifier::ext_equal]
pub struct RawConfigM {
    pub repo: Seq<RawRepoM>,
    pub ignore: Seq<RawIgnoreM>,
    pub vex: RawVexM,
    pub vex_assertion: Seq<RawVexAssertionM>,
}

/// A configuration before the checks.
#[derive(Debug, PartialEq)]
pub struct RawConfig {
    pub repo: Vec<RawRepo>,
    pub ignore: Vec<RawIgnore>,
    pub vex: RawVex,
    pub vex_assertion: Vec<RawVexAssertion>,
}

impl DeepView for RawConfig {
    type V = RawConfigM;

    open spec fn deep_view(&self) -> RawConfigM {
        RawConfigM {
            repo: self.repo.deep_view(),
            ignore: self.ignore.deep_view(),
            vex: self.vex.deep_view(),
            vex_assertion: self.vex_assertion.deep_view(),
        }
    }
}

// --- After the checks ---

/// What a [`Repo`] stands for.
#[verifier::ext_equal]
pub struct RepoM {
    pub id: Seq<char>,
    pub path: Seq<char>,
    pub glob: bool,
    pub glob_max_depth: usize,
    pub vex_product_id: Option<Seq<char>>,
    pub ecosystem: Option<Ecosystem>,
}

/// A repository of the fleet.
#[derive(Debug, PartialEq)]
pub struct Repo {
    pub id: RepoId,
    /// Known to be a directory.
    pub path: String,
    pub glob: bool,
    pub glob_max_depth: usize,
    pub vex_product_id: Option<String>,
    /// `None` where it is to be found out from the files.
    pub ecosystem: Option<Ecosystem>,
}

impl DeepView for Repo {
    type V = RepoM;

    open spec fn deep_view(&self) -> RepoM {
        RepoM {
            id: self.id.deep_view(),
            path: self.path@,
            glob: self.glob,
            glob_max_depth: self.glob_max_depth,
            vex_product_id: self.vex_product_id.deep_view(),
            ecosystem: self.ecosystem,
        }
    }
}

impl Plain for Repo {
    fn copy(&self) -> (r: Repo) {
        Repo {
            id: self.id.copy(),
            path: self.path.clone(),
            glob: self.glob,
            glob_max_depth: self.glob_max_depth,
            vex_product_id: self.vex_product_id.copy(),
            ecosystem: self.ecosystem,
        }
    }

    fn same(&self, other: &Repo) -> (r: bool) {
        self.id.same(&other.id)
            && self.path == other.path
            && self.glob == other.glob
            && self.glob_max_depth == other.glob_max_depth
            && self.vex_product_id.same(&other.vex_product_id)
            && self.ecosystem == other.ecosystem
    }
}

impl Clone for Repo {
    fn clone(&self) -> (r: Repo)
        ensures
            r.deep_view() == self.deep_view(),
    {
        self.copy()
    }
}

/// What a [`Ignore`] stands for.
#[verifier::ext_equal]
pub struct IgnoreM {
    pub id: Seq<char>,
    pub reason: Seq<char>,
}

/// An advisory to ignore, with a reason.
#[derive(Debug, PartialEq)]
pub struct Ignore {
    pub id: String,
    pub reason: String,
}

impl DeepView for Ignore {
    type V = IgnoreM;

    open spec fn deep_view(&self) -> IgnoreM {
        IgnoreM {
            id: self.id@,
            reason: self.reason@,
        }
    }
}

impl Plain for Ignore {
    fn copy(&self) -> (r: Ignore) {
        Ignore {
            id: self.id.clone(),
            reason: self.reason.clone(),
        }
    }

    fn same(&self, other: &Ignore) -> (r: bool) {
        self.id == other.id
            && self.reason == other.reason
    }
}

impl Clone for Ignore {
    fn clone(&self) -> (r: Ignore)
        ensures
            r.deep_view() == self.deep_view(),
    {
        self.copy()
    }
}

/// What a [`VexConfig`] stands for.
#[verifier::ext_equal]
pub struct VexConfigM {
    pub author: Option<Seq<char>>,
    pub role: Option<Seq<char>>,
    pub scope: Option<VexScope>,
    pub product_id_base: Option<Seq<char>>,
}

/// The settings of VEX documents.
#[derive(Debug, PartialEq)]
pub struct VexConfig {
    pub author: Option<String>,
    pub role: Option<String>,
    pub scope: Option<VexScope>,
    pub product_id_base: Option<String>,
}

impl DeepView for VexConfig {
    type V = VexConfigM;

    open spec fn deep_view(&self) -> VexConfigM {
        VexConfigM {
            author: self.author.deep_view(),
            role: self.role.deep_view(),
            scope: self.scope,
            product_id_base: self.product_id_base.deep_view(),
        }
    }
}

impl Plain for VexConfig {
    fn copy(&self) -> (r: VexConfig) {
        VexConfig {
            author: self.author.copy(),
            role: self.role.copy(),
            scope: self.scope,
            product_id_base: self.product_id_base.copy(),
        }
    }

    fn same(&self, other: &VexConfig) -> (r: bool) {
        self.author.same(&other.author)
            && self.role.same(&other.role)
            && self.scope == other.scope
            && self.product_id_base.same(&other.product_id_base)
    }
}

impl Clone for VexConfig {
    fn clone(&self) -> (r: VexConfig)
        ensures
            r.deep_view() == self.deep_view(),
    {
        self.copy()
    }
}

/// What a [`VexAssertion`] stands for.
#[verifier::ext_equal]
pub struct VexAssertionM {
    pub id: Seq<char>,
    pub repo: Option<Seq<char>>,
    pub justification: Option<Seq<char>>,
    pub reason: Seq<char>,
    pub approved_by: Seq<char>,
}

/// A human `not_affected` assertion: it has a reason, an approver, and at most a known label.
#[derive(Debug, PartialEq)]
pub struct VexAssertion {
    pub id: String,
    /// `None` for the whole fleet.
    pub repo: Option<RepoId>,
    pub justification: Option<String>,
    pub reason: String,
    pub approved_by: String,
}

impl DeepView for VexAssertion {
    type V = VexAssertionM;

    open spec fn deep_view(&self) -> VexAssertionM {
        VexAssertionM {
            id: self.id@,
            repo: self.repo.deep_view(),
            justification: self.justification.deep_view(),
            reason: self.reason@,
            approved_by: self.approved_by@,
        }
    }
}

impl Plain for VexAssertion {
    fn copy(&self) -> (r: VexAssertion) {
        VexAssertion {
            id: self.id.clone(),
            repo: self.repo.copy(),
            justification: self.justification.copy(),
            reason: self.reason.clone(),
            approved_by: self.approved_by.clone(),
        }
    }

    fn same(&self, other: &VexAssertion) -> (r: bool) {
        self.id == other.id
            && self.repo.same(&other.repo)
            && self.justification.same(&other.justification)
            && self.reason == other.reason
            && self.approved_by == other.approved_by
    }
}

impl Clone for VexAssertion {
    fn clone(&self) -> (r: VexAssertion)
        ensures
            r.deep_view() == self.deep_view(),
    {
        self.copy()
    }
}

/// What a [`Config`] stands for.
#[verifier::ext_equal]
pub struct ConfigM {
    pub repos: Seq<RepoM>,
    pub ignores: Seq<IgnoreM>,
    pub vex: VexConfigM,
    pub vex_assertions: Seq<VexAssertionM>,
}

/// A configuration that passed the checks.
#[derive(Debug, PartialEq)]
pub struct Config {
    pub repos: Vec<Repo>,
    pub ignores: Vec<Ignore>,
    pub vex: VexConfig,
    pub vex_assertions: Vec<VexAssertion>,
}

impl DeepView for Config {
    type V = ConfigM;

    open spec fn deep_view(&self) -> ConfigM {
        ConfigM {
            repos: self.repos.deep_view(),
            ignores: self.ignores.deep_view(),
            vex: self.vex.deep_view(),
            vex_assertions: self.vex_assertions.deep_view(),
        }
    }
}

impl Plain for Config {
    fn copy(&self) -> (r: Config) {
        Config {
            repos: self.repos.copy(),
            ignores: self.ignores.copy(),
            vex: self.vex.copy(),
            vex_assertions: self.vex_assertions.copy(),
        }
    }

    fn same(&self, other: &Config) -> (r: bool) {
        self.repos.same(&other.repos)
            && self.ignores.same(&other.ignores)
            && self.vex.same(&other.vex)
            && self.vex_assertions.same(&other.vex_assertions)
    }
}

impl Clone for Config {
    fn clone(&self) -> (r: Config)
        ensures
            r.deep_view() == self.deep_view(),
    {
        self.copy()
    }
}

/// What a [`ConfigError`] stands for.
#[verifier::ext_equal]
pub enum ConfigErrorM {
    Read { path: Seq<char>, message: Seq<char> },
    Parse { path: Seq<char>, message: Seq<char> },
    PathMissing { repo: Seq<char>, path: Seq<char> },
    PathNotDir { repo: Seq<char>, path: Seq<char> },
    DuplicateRepoId(Seq<char>),
    EmptyIgnoreReason(Seq<char>),
    InvalidVexScope(Seq<char>),
    EmptyAssertionReason(Seq<char>),
    EmptyAssertionApprover(Seq<char>),
    InvalidVexJustification { id: Seq<char>, justification: Seq<char> },
}

/// Why a configuration is refused.
#[derive(Debug, PartialEq, Eq)]
pub enum ConfigError {
    Read { path: String, message: String },
    Parse { path: String, message: String },
    PathMissing { repo: String, path: String },
    PathNotDir { repo: String, path: String },
    DuplicateRepoId(String),
    EmptyIgnoreReason(String),
    InvalidVexScope(String),
    EmptyAssertionReason(String),
    EmptyAssertionApprover(String),
    InvalidVexJustification { id: String, justification: String },
}

impl DeepView for ConfigError {
    type V = ConfigErrorM;

    open spec fn deep_view(&self) -> ConfigErrorM {
        match self {
            ConfigError::Read { path, message } => ConfigErrorM::Read {
                path: path@,
                message: message@,
            },
            ConfigError::Parse { path, message } => ConfigErrorM::Parse {
                path: path@,
                message: message@,
            },
            ConfigError::PathMissing { repo, path } => ConfigErrorM::PathMissing {
                repo: repo@,
                path: path@,
            },
            ConfigError::PathNotDir { repo, path } => ConfigErrorM::PathNotDir {
                repo: repo@,
                path: path@,
            },
            ConfigError::DuplicateRepoId(id) => ConfigErrorM::DuplicateRepoId(id@),
            ConfigError::EmptyIgnoreReason(id) => ConfigErrorM::EmptyIgnoreReason(id@),
            ConfigError::InvalidVexScope(s) => ConfigErrorM::InvalidVexScope(s@),
            ConfigError::EmptyAssertionReason(id) => ConfigErrorM::EmptyAssertionReason(id@),
            ConfigError::EmptyAssertionApprover(id) => ConfigErrorM::EmptyAssertionApprover(id@),
            ConfigError::InvalidVexJustification { id, justification } =>
                ConfigErrorM::InvalidVexJustification { id: id@, justification: justification@ },
        }
    }
}

/// The text of an error.
pub open spec fn error_text(e: ConfigErrorM) -> Seq<char> {
    match e {
        ConfigErrorM::Read { path, message } => "failed to read config `"@ + path + "`: "@
            + message,
        ConfigErrorM::Parse { path, message } => "failed to parse config `"@ + path + "`: "@
            + message,
        ConfigErrorM::PathMissing { repo, path } => "repo `"@ + repo + "`: path `"@ + path
            + "` does not exist"@,
        ConfigErrorM::PathNotDir { repo, path } => "repo `"@ + repo + "`: path `"@ + path
            + "` is not a directory"@,
        ConfigErrorM::DuplicateRepoId(id) => "repo id `"@ + id + "` is declared more than once"@,
        ConfigErrorM::EmptyIgnoreReason(id) => "ignore `"@ + id
            + "` must have a non-empty `reason`"@,
        ConfigErrorM::InvalidVexScope(s) => "settings.vex.scope `"@ + s
            + "` is not one of `runtime`, `build`"@,
        ConfigErrorM::EmptyAssertionReason(id) => "vex_assertion `"@ + id
            + "` must have a non-empty `reason`"@,
        ConfigErrorM::EmptyAssertionApprover(id) => "vex_assertion `"@ + id
            + "` (a not_affected statement) must have a non-empty `approved_by`"@,
        ConfigErrorM::InvalidVexJustification { id, justification } => "vex_assertion `"@ + id
            + "`: justification `"@ + justification + "` is not a VEX WG label"@,
    }
}

fn sentence(a: &str, x: &str, b: &str, y: &str, c: &str) -> (r: String)
    ensures
        r@ == a@ + x@ + b@ + y@ + c@,
{
    let mut r: String = a.to_owned();
    r.append(x);
    r.append(b);
    r.append(y);
    r.append(c);
    r
}

impl ConfigError {
    /// The text of the error.
    pub fn to_string(&self) -> (r: String)
        ensures
            r@ == error_text(self.deep_view()),
    {
        proof {
            reveal_strlit("");
            assert(""@ =~= Seq::empty());
        }
        let r: String = match self {
            ConfigError::Read { path, message } => sentence(
                "failed to read config `",
                path.as_str(),
                "`: ",
                message.as_str(),
                "",
            ),
            ConfigError::Parse { path, message } => sentence(
                "failed to parse config `",
                path.as_str(),
                "`: ",
                message.as_str(),
                "",
            ),
            ConfigError::PathMissing { repo, path } => sentence(
                "repo `",
                repo.as_str(),
                "`: path `",
                path.as_str(),
                "` does not exist",
            ),
            ConfigError::PathNotDir { repo, path } => sentence(
                "repo `",
                repo.as_str(),
                "`: path `",
                path.as_str(),
                "` is not a directory",
            ),
            ConfigError::DuplicateRepoId(id) => sentence(
                "repo id `",
                id.as_str(),
                "` is declared more than once",
                "",
                "",
            ),
            ConfigError::EmptyIgnoreReason(id) => sentence(
                "ignore `",
                id.as_str(),
                "` must have a non-empty `reason`",
                "",
                "",
            ),
            ConfigError::InvalidVexScope(s) => sentence(
                "settings.vex.scope `",
                s.as_str(),
                "` is not one of `runtime`, `build`",
                "",
                "",
            ),
            ConfigError::EmptyAssertionReason(id) => sentence(
                "vex_assertion `",
                id.as_str(),
                "` must have a non-empty `reason`",
                "",
                "",
            ),
            ConfigError::EmptyAssertionApprover(id) => sentence(
                "vex_assertion `",
                id.as_str(),
                "` (a not_affected statement) must have a non-empty `approved_by`",
                "",
                "",
            ),
            ConfigError::InvalidVexJustification { id, justification } => sentence(
                "vex_assertion `",
                id.as_str(),
                "`: justification `",
                justification.as_str(),
                "` is not a VEX WG label",
            ),
        };
        assert(r@ =~= error_text(self.deep_view()));
        r
    }
}

// --- The checks ---

/// What is wrong with a repository that is declared after `before`.
pub open spec fn repo_error(before: Seq<RawRepoM>, r: RawRepoM) -> Option<ConfigErrorM> {
    if exists|i: int| 0 <= i < before.len() && (#[trigger] before[i]).id == r.id {
        Some(ConfigErrorM::DuplicateRepoId(r.id))
    } else if r.state == PathState::Missing {
        Some(ConfigErrorM::PathMissing { repo: r.id, path: r.path })
    } else if r.state == PathState::NotDirectory {
        Some(ConfigErrorM::PathNotDir { repo: r.id, path: r.path })
    } else {
        None
    }
}

/// What is wrong with the first bad repository.
pub open spec fn repos_error(repos: Seq<RawRepoM>) -> Option<ConfigErrorM>
    decreases repos.len(),
{
    if repos.len() == 0 {
        None
    } else {
        match repos_error(repos.drop_last()) {
            Some(e) => Some(e),
            None => repo_error(repos.drop_last(), repos.last()),
        }
    }
}

pub open spec fn ignore_error(i: RawIgnoreM) -> Option<ConfigErrorM> {
    if text::blank(i.reason) {
        Some(ConfigErrorM::EmptyIgnoreReason(i.id))
    } else {
        None
    }
}

/// What is wrong with the first bad ignore.
pub open spec fn ignores_error(s: Seq<RawIgnoreM>) -> Option<ConfigErrorM>
    decreases s.len(),
{
    if s.len() == 0 {
        None
    } else {
        match ignores_error(s.drop_last()) {
            Some(e) => Some(e),
            None => ignore_error(s.last()),
        }
    }
}

pub open spec fn scope_error(scope: Option<Seq<char>>) -> Option<ConfigErrorM> {
    match scope {
        Some(s) => if scope_named(s) is None {
            Some(ConfigErrorM::InvalidVexScope(s))
        } else {
            None
        },
        None => None,
    }
}

/// What is wrong with an assertion: it needs a reason, then an approver, then a known label.
pub open spec fn assertion_error(a: RawVexAssertionM) -> Option<ConfigErrorM> {
    if text::blank(a.reason) {
        Some(ConfigErrorM::EmptyAssertionReason(a.id))
    } else if text::blank(a.approved_by) {
        Some(ConfigErrorM::EmptyAssertionApprover(a.id))
    } else {
        match a.justification {
            Some(j) => if is_justification_m(j) {
                None
            } else {
                Some(ConfigErrorM::InvalidVexJustification { id: a.id, justification: j })
            },
            None => None,
        }
    }
}

/// What is wrong with the first bad assertion.
pub open spec fn assertions_error(s: Seq<RawVexAssertionM>) -> Option<ConfigErrorM>
    decreases s.len(),
{
    if s.len() == 0 {
        None
    } else {
        match assertions_error(s.drop_last()) {
            Some(e) => Some(e),
            None => assertion_error(s.last()),
        }
    }
}

/// The first thing that is wrong with a configuration.
pub open spec fn config_error(raw: RawConfigM) -> Option<ConfigErrorM> {
    match repos_error(raw.repo) {
        Some(e) => Some(e),
        None => match ignores_error(raw.ignore) {
            Some(e) => Some(e),
            None => match scope_error(raw.vex.scope) {
                Some(e) => Some(e),
                None => assertions_error(raw.vex_assertion),
            },
        },
    }
}

pub open spec fn checked_repo(r: RawRepoM) -> RepoM {
    RepoM {
        id: r.id,
        path: r.path,
        glob: r.glob,
        glob_max_depth: match r.glob_max_depth {
            Some(d) => d,
            None => DEFAULT_GLOB_MAX_DEPTH,
        },
        vex_product_id: r.vex_product_id,
        ecosystem: r.ecosystem,
    }
}

pub open spec fn checked_assertion(a: RawVexAssertionM) -> VexAssertionM {
    VexAssertionM {
        id: a.id,
        repo: a.repo,
        justification: a.justification,
        reason: a.reason,
        approved_by: a.approved_by,
    }
}

/// What a configuration without errors comes to.
pub open spec fn checked_config(raw: RawConfigM) -> ConfigM {
    ConfigM {
        repos: raw.repo.map_values(|r: RawRepoM| checked_repo(r)),
        ignores: raw.ignore.map_values(|i: RawIgnoreM| IgnoreM { id: i.id, reason: i.reason }),
        vex: VexConfigM {
            author: raw.vex.author,
            role: raw.vex.role,
            scope: match raw.vex.scope {
                Some(s) => scope_named(s),
                None => None,
            },
            product_id_base: raw.vex.product_id_base,
        },
        vex_assertions: raw.vex_assertion.map_values(
            |a: RawVexAssertionM| checked_assertion(a),
        ),
    }
}

fn is_declared(repos: &Vec<Repo>, id: &String) -> (r: bool)
    ensures
        r == (exists|i: int| 0 <= i < repos.len() && (#[trigger] repos.deep_view()[i]).id == id@),
{
    let mut i: usize = 0;
    while i < repos.len()
        invariant
            i <= repos.len(),
            forall|j: int| 0 <= j < i ==> (#[trigger] repos.deep_view()[j]).id != id@,
        decreases repos.len() - i,
    {
        if repos[i].id.0 == *id {
            assert(repos.deep_view()[i as int].id == id@);
            return true;
        }
        i += 1;
    }
    false
}

fn check_repos(raw: Vec<RawRepo>) -> (r: Result<Vec<Repo>, ConfigError>)
    ensures
        match r {
            Ok(repos) => repos_error(raw.deep_view()) is None && repos.deep_view()
                == raw.deep_view().map_values(|r: RawRepoM| checked_repo(r)),
            Err(e) => repos_error(raw.deep_view()) == Some(e.deep_view()),
        },
{
    let ghost all = raw.deep_view();
    let ghost want = all.map_values(|r: RawRepoM| checked_repo(r));
    let mut repos: Vec<Repo> = Vec::new();
    let ghost mut n: int = 0;
    proof {
        assert(all.take(0) =~= Seq::empty());
        assert(repos.deep_view() =~= want.take(0));
    }
    for r in it: raw
        invariant
            it.seq() == raw@,
            all == raw.deep_view(),
            want == all.map_values(|r: RawRepoM| checked_repo(r)),
            want.len() == all.len(),
            n == it.index(),
            n <= all.len(),
            repos.len() == n,
            repos.deep_view() == want.take(n),
            repos_error(all.take(n)) is None,
    {
        proof {
            assert(all.take(n + 1).drop_last() =~= all.take(n));
            assert(all.take(n + 1).last() == r.deep_view());
            assert(all[n] == r.deep_view());
            if exists|i: int|
                0 <= i < repos.len() && (#[trigger] repos.deep_view()[i]).id == r.id@ {
                let i = choose|i: int|
                    0 <= i < repos.len() && (#[trigger] repos.deep_view()[i]).id == r.id@;
                assert(repos.deep_view()[i] == want[i]);
                assert(all.take(n)[i].id == r.id@);
            }
            if exists|i: int| 0 <= i < n && (#[trigger] all.take(n)[i]).id == r.id@ {
                let i = choose|i: int| 0 <= i < n && (#[trigger] all.take(n)[i]).id == r.id@;
                assert(repos.deep_view()[i] == want[i]);
                assert(repos.deep_view()[i].id == r.id@);
            }
            if repo_error(all.take(n), r.deep_view()) is Some {
                lemma_repos_error_stays(all, n + 1);
            }
        }
        if is_declared(&repos, &r.id) {
            return Err(ConfigError::DuplicateRepoId(r.id));
        }
        match r.state {
            PathState::Missing => {
                return Err(ConfigError::PathMissing { repo: r.id, path: r.path });
            },
            PathState::NotDirectory => {
                return Err(ConfigError::PathNotDir { repo: r.id, path: r.path });
            },
            PathState::Directory => {},
        }
        let repo = Repo {
            id: RepoId(r.id),
            path: r.path,
            glob: r.glob,
            glob_max_depth: match r.glob_max_depth {
                Some(d) => d,
                None => DEFAULT_GLOB_MAX_DEPTH,
            },
            vex_product_id: r.vex_product_id,
            ecosystem: r.ecosystem,
        };
        let ghost before = repos.deep_view();
        repos.push(repo);
        proof {
            assert(repos.deep_view() =~= before.push(repo.deep_view()));
            assert(want[n] == repo.deep_view());
            assert(want.take(n + 1) =~= want.take(n).push(want[n]));
            n = n + 1;
        }
    }
    assert(all.take(n) =~= all);
    assert(want.take(n) =~= want);
    Ok(repos)
}

proof fn lemma_repos_error_stays(s: Seq<RawRepoM>, n: int)
    requires
        0 <= n <= s.len(),
        repos_error(s.take(n)) is Some,
    ensures
        repos_error(s) == repos_error(s.take(n)),
    decreases s.len() - n,
{
    if n < s.len() {
        assert(s.take(n + 1).drop_last() =~= s.take(n));
        lemma_repos_error_stays(s, n + 1);
    } else {
        assert(s.take(n) =~= s);
    }
}

fn check_ignores(raw: Vec<RawIgnore>) -> (r: Result<Vec<Ignore>, ConfigError>)
    ensures
        match r {
            Ok(ignores) => ignores_error(raw.deep_view()) is None && ignores.deep_view()
                == raw.deep_view().map_values(
                |i: RawIgnoreM| IgnoreM { id: i.id, reason: i.reason },
            ),
            Err(e) => ignores_error(raw.deep_view()) == Some(e.deep_view()),
        },
{
    let ghost all = raw.deep_view();
    let ghost want = all.map_values(|i: RawIgnoreM| IgnoreM { id: i.id, reason: i.reason });
    let mut out: Vec<Ignore> = Vec::new();
    let ghost mut n: int = 0;
    proof {
        assert(all.take(0) =~= Seq::empty());
        assert(out.deep_view() =~= want.take(0));
    }
    for i in it: raw
        invariant
            it.seq() == raw@,
            all == raw.deep_view(),
            want == all.map_values(|i: RawIgnoreM| IgnoreM { id: i.id, reason: i.reason }),
            n == it.index(),
            n <= all.len(),
            out.deep_view() == want.take(n),
            ignores_error(all.take(n)) is None,
    {
        proof {
            assert(all.take(n + 1).drop_last() =~= all.take(n));
            assert(all.take(n + 1).last() == i.deep_view());
            assert(all[n] == i.deep_view());
            if ignore_error(i.deep_view()) is Some {
                lemma_ignores_error_stays(all, n + 1);
            }
        }
        if text::is_blank(i.reason.as_str()) {
            return Err(ConfigError::EmptyIgnoreReason(i.id));
        }
        let ignore = Ignore { id: i.id, reason: i.reason };
        let ghost before = out.deep_view();
        out.push(ignore);
        proof {
            assert(out.deep_view() =~= before.push(ignore.deep_view()));
            assert(want[n] == ignore.deep_view());
            assert(want.take(n + 1) =~= want.take(n).push(want[n]));
            n = n + 1;
        }
    }
    assert(all.take(n) =~= all);
    assert(want.take(n) =~= want);
    Ok(out)
}

proof fn lemma_ignores_error_stays(s: Seq<RawIgnoreM>, n: int)
    requires
        0 <= n <= s.len(),
        ignores_error(s.take(n)) is Some,
    ensures
        ignores_error(s) == ignores_error(s.take(n)),
    decreases s.len() - n,
{
    if n < s.len() {
        assert(s.take(n + 1).drop_last() =~= s.take(n));
        lemma_ignores_error_stays(s, n + 1);
    } else {
        assert(s.take(n) =~= s);
    }
}

fn check_assertions(raw: Vec<RawVexAssertion>) -> (r: Result<Vec<VexAssertion>, ConfigError>)
    ensures
        match r {
            Ok(list) => assertions_error(raw.deep_view()) is None && list.deep_view()
                == raw.deep_view().map_values(|a: RawVexAssertionM| checked_assertion(a)),
            Err(e) => assertions_error(raw.deep_view()) == Some(e.deep_view()),
        },
{
    let ghost all = raw.deep_view();
    let ghost want = all.map_values(|a: RawVexAssertionM| checked_assertion(a));
    let mut out: Vec<VexAssertion> = Vec::new();
    let ghost mut n: int = 0;
    proof {
        assert(all.take(0) =~= Seq::empty());
        assert(out.deep_view() =~= want.take(0));
    }
    for a in it: raw
        invariant
            it.seq() == raw@,
            all == raw.deep_view(),
            want == all.map_values(|a: RawVexAssertionM| checked_assertion(a)),
            n == it.index(),
            n <= all.len(),
            out.deep_view() == want.take(n),
            assertions_error(all.take(n)) is None,
    {
        proof {
            assert(all.take(n + 1).drop_last() =~= all.take(n));
            assert(all.take(n + 1).last() == a.deep_view());
            assert(all[n] == a.deep_view());
            if assertion_error(a.deep_view()) is Some {
                lemma_assertions_error_stays(all, n + 1);
            }
        }
        if text::is_blank(a.reason.as_str()) {
            return Err(ConfigError::EmptyAssertionReason(a.id));
        }
        if text::is_blank(a.approved_by.as_str()) {
            return Err(ConfigError::EmptyAssertionApprover(a.id));
        }
        if let Some(j) = &a.justification {
            if !is_justification(j.as_str()) {
                let justification: String = j.clone();
                return Err(ConfigError::InvalidVexJustification { id: a.id, justification });
            }
        }
        let repo: Option<RepoId> = match a.repo {
            Some(r) => Some(RepoId(r)),
            None => None,
        };
        let assertion = VexAssertion {
            id: a.id,
            repo,
            justification: a.justification,
            reason: a.reason,
            approved_by: a.approved_by,
        };
        let ghost before = out.deep_view();
        out.push(assertion);
        proof {
            assert(out.deep_view() =~= before.push(assertion.deep_view()));
            assert(want[n] == assertion.deep_view());
            assert(want.take(n + 1) =~= want.take(n).push(want[n]));
            n = n + 1;
        }
    }
    assert(all.take(n) =~= all);
    assert(want.take(n) =~= want);
    Ok(out)
}

proof fn lemma_assertions_error_stays(s: Seq<RawVexAssertionM>, n: int)
    requires
        0 <= n <= s.len(),
        assertions_error(s.take(n)) is Some,
    ensures
        assertions_error(s) == assertions_error(s.take(n)),
    decreases s.len() - n,
{
    if n < s.len() {
        assert(s.take(n + 1).drop_last() =~= s.take(n));
        lemma_assertions_error_stays(s, n + 1);
    } else {
        assert(s.take(n) =~= s);
    }
}

impl Config {
    /// Checks a raw configuration: repositories first, then ignores, the scope, and the
    /// assertions. The first thing that is wrong is the error.
    pub fn from_raw(raw: RawConfig) -> (r: Result<Config, ConfigError>)
        ensures
            match r {
                Ok(c) => config_error(raw.deep_view()) is None && c.deep_view() == checked_config(
                    raw.deep_view(),
                ),
                Err(e) => config_error(raw.deep_view()) == Some(e.deep_view()),
            },
    {
        let repos: Vec<Repo> = match check_repos(raw.repo) {
            Ok(v) => v,
            Err(e) => {
                return Err(e);
            },
        };
        let ignores: Vec<Ignore> = match check_ignores(raw.ignore) {
            Ok(v) => v,
            Err(e) => {
                return Err(e);
            },
        };
        let scope: Option<VexScope> = match raw.vex.scope {
            Some(s) => match VexScope::parse(s.as_str()) {
                Some(v) => Some(v),
                None => {
                    return Err(ConfigError::InvalidVexScope(s));
                },
            },
            None => None,
        };
        let vex_assertions: Vec<VexAssertion> = match check_assertions(raw.vex_assertion) {
            Ok(v) => v,
            Err(e) => {
                return Err(e);
            },
        };
        Ok(
            Config {
                repos,
                ignores,
                vex: VexConfig {
                    author: raw.vex.author,
                    role: raw.vex.role,
                    scope,
                    product_id_base: raw.vex.product_id_base,
                },
                vex_assertions,
            },
        )
    }
}

/// What the checks guarantee: repository names are distinct, every repository is a directory,
/// every ignore has a reason, and every assertion has a reason, an approver and at most a
/// known label.
pub proof fn checked_config_is_sound(raw: RawConfigM)
    requires
        config_error(raw) is None,
    ensures
        forall|i: int, j: int|
            0 <= i < j < raw.repo.len() ==> (#[trigger] raw.repo[i]).id != (
            #[trigger] raw.repo[j]).id,
        forall|i: int|
            0 <= i < raw.repo.len() ==> (#[trigger] raw.repo[i]).state == PathState::Directory,
        forall|i: int| 0 <= i < raw.ignore.len() ==> !text::blank((#[trigger] raw.ignore[i]).reason),
        forall|i: int|
            0 <= i < raw.vex_assertion.len() ==> !text::blank(
                (#[trigger] raw.vex_assertion[i]).reason,
            ) && !text::blank(raw.vex_assertion[i].approved_by) && (
            raw.vex_assertion[i].justification matches Some(j) ==> is_justification_m(j)),
{
    assert forall|i: int, j: int| 0 <= i < j < raw.repo.len() implies (#[trigger] raw.repo[i]).id
        != (#[trigger] raw.repo[j]).id by {
        lemma_no_repo_error(raw.repo, j);
        assert(raw.repo.take(j)[i] == raw.repo[i]);
    }
    assert forall|i: int| 0 <= i < raw.repo.len() implies (#[trigger] raw.repo[i]).state
        == PathState::Directory by {
        lemma_no_repo_error(raw.repo, i);
    }
    assert forall|i: int| 0 <= i < raw.ignore.len() implies !text::blank(
        (#[trigger] raw.ignore[i]).reason,
    ) by {
        lemma_no_ignore_error(raw.ignore, i);
    }
    assert forall|i: int| 0 <= i < raw.vex_assertion.len() implies !text::blank(
        (#[trigger] raw.vex_assertion[i]).reason,
    ) && !text::blank(raw.vex_assertion[i].approved_by) && (
    raw.vex_assertion[i].justification matches Some(j) ==> is_justification_m(j)) by {
        lemma_no_assertion_error(raw.vex_assertion, i);
    }
}

proof fn lemma_no_repo_error(s: Seq<RawRepoM>, i: int)
    requires
        repos_error(s) is None,
        0 <= i < s.len(),
    ensures
        repo_error(s.take(i), s[i]) is None,
    decreases s.len(),
{
    if i < s.len() - 1 {
        lemma_no_repo_error(s.drop_last(), i);
        assert(s.drop_last().take(i) =~= s.take(i));
    } else {
        assert(s.drop_last() =~= s.take(i));
    }
}

proof fn lemma_no_ignore_error(s: Seq<RawIgnoreM>, i: int)
    requires
        ignores_error(s) is None,
        0 <= i < s.len(),
    ensures
        ignore_error(s[i]) is None,
    decreases s.len(),
{
    if i < s.len() - 1 {
        lemma_no_ignore_error(s.drop_last(), i);
    }
}

proof fn lemma_no_assertion_error(s: Seq<RawVexAssertionM>, i: int)
    requires
        assertions_error(s) is None,
        0 <= i < s.len(),
    ensures
        assertion_error(s[i]) is None,
    decreases s.len(),
{
    if i < s.len() - 1 {
        lemma_no_assertion_error(s.drop_last(), i);
    }
}

/// Whether a label is one that a statement may carry.
pub open spec fn may_justify(label: Seq<char>) -> bool {
    label == "component_not_present"@ || label == "vulnerable_code_not_present"@ || label
        == "vulnerable_code_not_in_execute_path"@ || label
        == "vulnerable_code_cannot_be_controlled_by_adversary"@ || label
        == "inline_mitigations_already_exist"@
}

/// A configuration is accepted exactly where its repositories are directories with names of
/// their own, its ignores have reasons, its scope is one of the two, and its assertions have
/// reasons, names of those who approved them, and no label but a known one.
pub proof fn only_what_is_sound_is_accepted(raw: RawConfigM)
    ensures
        config_error(raw) is None <==> {
            &&& forall|i: int, j: int|
                0 <= i < j < raw.repo.len() ==> (#[trigger] raw.repo[i]).id != (
                #[trigger] raw.repo[j]).id
            &&& forall|i: int|
                0 <= i < raw.repo.len() ==> (#[trigger] raw.repo[i]).state == PathState::Directory
            &&& forall|i: int|
                0 <= i < raw.ignore.len() ==> !text::blank((#[trigger] raw.ignore[i]).reason)
            &&& raw.vex.scope is None || raw.vex.scope == Some("runtime"@) || raw.vex.scope == Some(
                "build"@,
            )
            &&& forall|i: int|
                0 <= i < raw.vex_assertion.len() ==> !text::blank(
                    (#[trigger] raw.vex_assertion[i]).reason,
                ) && !text::blank(raw.vex_assertion[i].approved_by) && (
                raw.vex_assertion[i].justification is None || may_justify(
                    raw.vex_assertion[i].justification->0,
                ))
        },
{
    if config_error(raw) is None {
        checked_config_is_sound(raw);
        assert forall|i: int| 0 <= i < raw.vex_assertion.len() implies !text::blank(
            (#[trigger] raw.vex_assertion[i]).reason,
        ) && !text::blank(raw.vex_assertion[i].approved_by) && (
        raw.vex_assertion[i].justification is None || may_justify(
            raw.vex_assertion[i].justification->0,
        )) by {
            if let Some(j) = raw.vex_assertion[i].justification {
                assert(is_justification_m(j));
            }
        }
    }
    if (forall|i: int, j: int|
        0 <= i < j < raw.repo.len() ==> (#[trigger] raw.repo[i]).id != (
        #[trigger] raw.repo[j]).id) && (forall|i: int|
        0 <= i < raw.repo.len() ==> (#[trigger] raw.repo[i]).state == PathState::Directory) {
        lemma_repos_accepted(raw.repo);
    }
    if forall|i: int| 0 <= i < raw.ignore.len() ==> !text::blank((#[trigger] raw.ignore[i]).reason) {
        lemma_ignores_accepted(raw.ignore);
    }
    if forall|i: int|
        0 <= i < raw.vex_assertion.len() ==> !text::blank((#[trigger] raw.vex_assertion[i]).reason)
            && !text::blank(raw.vex_assertion[i].approved_by) && (
        raw.vex_assertion[i].justification is None || may_justify(
            raw.vex_assertion[i].justification->0,
        )) {
        lemma_assertions_accepted(raw.vex_assertion);
    }
}

proof fn lemma_repos_accepted(s: Seq<RawRepoM>)
    requires
        forall|i: int, j: int|
            0 <= i < j < s.len() ==> (#[trigger] s[i]).id != (#[trigger] s[j]).id,
        forall|i: int| 0 <= i < s.len() ==> (#[trigger] s[i]).state == PathState::Directory,
    ensures
        repos_error(s) is None,
    decreases s.len(),
{
    if s.len() > 0 {
        let l = s.drop_last();
        assert forall|i: int| 0 <= i < l.len() implies #[trigger] l[i] == s[i] by {}
        lemma_repos_accepted(l);
        assert(s[l.len() as int] == s.last());
        if exists|i: int| 0 <= i < l.len() && (#[trigger] l[i]).id == s.last().id {
            let i = choose|i: int| 0 <= i < l.len() && (#[trigger] l[i]).id == s.last().id;
            assert(s[i].id != s[l.len() as int].id);
        }
    }
}

proof fn lemma_ignores_accepted(s: Seq<RawIgnoreM>)
    requires
        forall|i: int| 0 <= i < s.len() ==> !text::blank((#[trigger] s[i]).reason),
    ensures
        ignores_error(s) is None,
    decreases s.len(),
{
    if s.len() > 0 {
        let l = s.drop_last();
        assert forall|i: int| 0 <= i < l.len() implies #[trigger] l[i] == s[i] by {}
        lemma_ignores_accepted(l);
        assert(s[l.len() as int] == s.last());
    }
}

proof fn lemma_assertions_accepted(s: Seq<RawVexAssertionM>)
    requires
        forall|i: int|
            0 <= i < s.len() ==> !text::blank((#[trigger] s[i]).reason) && !text::blank(
                s[i].approved_by,
            ) && (s[i].justification is None || may_justify(s[i].justification->0)),
    ensures
        assertions_error(s) is None,
    decreases s.len(),
{
    if s.len() > 0 {
        let l = s.drop_last();
        assert forall|i: int| 0 <= i < l.len() implies #[trigger] l[i] == s[i] by {}
        lemma_assertions_accepted(l);
        assert(s[l.len() as int] == s.last());
    }
}

/// What is wrong with a repository comes before what is wrong with an ignore, that before what is
/// wrong with the scope, and that before what is wrong with an assertion. Of a repository the
/// name is looked at first; of an assertion the reason, then who approved it, then its label.
pub proof fn the_first_error_is_told(
    raw: RawConfigM,
    before: Seq<RawRepoM>,
    r: RawRepoM,
    a: RawVexAssertionM,
)
    ensures
        repos_error(raw.repo) is Some ==> config_error(raw) == repos_error(raw.repo),
        repos_error(raw.repo) is None && ignores_error(raw.ignore) is Some ==> config_error(raw)
            == ignores_error(raw.ignore),
        repos_error(raw.repo) is None && ignores_error(raw.ignore) is None && (
        raw.vex.scope matches Some(s) && s != "runtime"@ && s != "build"@) ==> config_error(raw)
            == Some(ConfigErrorM::InvalidVexScope(raw.vex.scope->0)),
        (exists|i: int| 0 <= i < before.len() && (#[trigger] before[i]).id == r.id) ==> repo_error(
            before,
            r,
        ) == Some(ConfigErrorM::DuplicateRepoId(r.id)),
        (forall|i: int| 0 <= i < before.len() ==> (#[trigger] before[i]).id != r.id) && r.state
            == PathState::Missing ==> repo_error(before, r) == Some(
            ConfigErrorM::PathMissing { repo: r.id, path: r.path },
        ),
        (forall|i: int| 0 <= i < before.len() ==> (#[trigger] before[i]).id != r.id) && r.state
            == PathState::NotDirectory ==> repo_error(before, r) == Some(
            ConfigErrorM::PathNotDir { repo: r.id, path: r.path },
        ),
        text::blank(a.reason) ==> assertion_error(a) == Some(
            ConfigErrorM::EmptyAssertionReason(a.id),
        ),
        !text::blank(a.reason) && text::blank(a.approved_by) ==> assertion_error(a) == Some(
            ConfigErrorM::EmptyAssertionApprover(a.id),
        ),
        !text::blank(a.reason) && !text::blank(a.approved_by) && (a.justification matches Some(j)
            && !may_justify(j)) ==> assertion_error(a) == Some(
            ConfigErrorM::InvalidVexJustification {
                id: a.id,
                justification: a.justification->0,
            },
        ),
{
}

/// What is accepted is taken over as it stands: every repository, ignore and assertion, in order,
/// with a depth of three where none is given.
pub proof fn what_is_accepted_is_taken_over(raw: RawConfigM)
    ensures
        ({
            let c = checked_config(raw);
            &&& c.repos.len() == raw.repo.len()
            &&& c.ignores.len() == raw.ignore.len()
            &&& c.vex_assertions.len() == raw.vex_assertion.len()
            &&& forall|i: int|
                0 <= i < raw.repo.len() ==> {
                    let r = #[trigger] c.repos[i];
                    &&& r.id == raw.repo[i].id
                    &&& r.path == raw.repo[i].path
                    &&& r.glob == raw.repo[i].glob
                    &&& raw.repo[i].glob_max_depth is None ==> r.glob_max_depth == 3
                    &&& raw.repo[i].glob_max_depth matches Some(d) ==> r.glob_max_depth == d
                    &&& r.vex_product_id == raw.repo[i].vex_product_id
                    &&& r.ecosystem == raw.repo[i].ecosystem
                }
            &&& forall|i: int|
                0 <= i < raw.ignore.len() ==> (#[trigger] c.ignores[i]).id == raw.ignore[i].id
                    && c.ignores[i].reason == raw.ignore[i].reason
            &&& forall|i: int|
                0 <= i < raw.vex_assertion.len() ==> {
                    let a = #[trigger] c.vex_assertions[i];
                    &&& a.id == raw.vex_assertion[i].id
                    &&& a.repo == raw.vex_assertion[i].repo
                    &&& a.justification == raw.vex_assertion[i].justification
                    &&& a.reason == raw.vex_assertion[i].reason
                    &&& a.approved_by == raw.vex_assertion[i].approved_by
                }
            &&& c.vex.author == raw.vex.author
            &&& c.vex.role == raw.vex.role
            &&& c.vex.product_id_base == raw.vex.product_id_base
            &&& raw.vex.scope is None ==> c.vex.scope is None
            &&& raw.vex.scope == Some("runtime"@) ==> c.vex.scope == Some(VexScope::Runtime)
            &&& raw.vex.scope == Some("build"@) ==> c.vex.scope == Some(VexScope::Build)
        }),
{
    reveal_strlit("runtime");
    reveal_strlit("build");
    assert("runtime"@.len() == 7 && "build"@.len() == 5);
}

/// Each name of an ecosystem means that ecosystem: the tool, the registry or the language.
pub proof fn every_name_means_its_ecosystem(n: Seq<char>)
    ensures
        n == "cargo"@ || n == "rust"@ <==> ecosystem_named_m(n) == Some(Ecosystem::Cargo),
        n == "go"@ <==> ecosystem_named_m(n) == Some(Ecosystem::Go),
        n == "npm"@ <==> ecosystem_named_m(n) == Some(Ecosystem::Npm),
        n == "pypi"@ || n == "python"@ <==> ecosystem_named_m(n) == Some(Ecosystem::Pypi),
        n == "rubygems"@ || n == "ruby"@ <==> ecosystem_named_m(n) == Some(Ecosystem::RubyGems),
        n == "packagist"@ || n == "composer"@ || n == "php"@ <==> ecosystem_named_m(n) == Some(
            Ecosystem::Packagist,
        ),
        n == "nuget"@ || n == "dotnet"@ <==> ecosystem_named_m(n) == Some(Ecosystem::NuGet),
        n == "julia"@ <==> ecosystem_named_m(n) == Some(Ecosystem::Julia),
        n == "swift"@ <==> ecosystem_named_m(n) == Some(Ecosystem::Swift),
        n == "hex"@ || n == "elixir"@ <==> ecosystem_named_m(n) == Some(Ecosystem::Hex),
        n == "maven"@ || n == "gradle"@ || n == "java"@ <==> ecosystem_named_m(n) == Some(
            Ecosystem::Maven,
        ),
        n == "githubactions"@ || n == "actions"@ || n == "gha"@ <==> ecosystem_named_m(n) == Some(
            Ecosystem::GitHubActions,
        ),
{
    reveal_strlit("cargo");
    reveal_strlit("rust");
    reveal_strlit("go");
    reveal_strlit("npm");
    reveal_strlit("pypi");
    reveal_strlit("python");
    reveal_strlit("rubygems");
    reveal_strlit("ruby");
    reveal_strlit("packagist");
    reveal_strlit("composer");
    reveal_strlit("php");
    reveal_strlit("nuget");
    reveal_strlit("dotnet");
    reveal_strlit("julia");
    reveal_strlit("swift");
    reveal_strlit("hex");
    reveal_strlit("elixir");
    reveal_strlit("maven");
    reveal_strlit("gradle");
    reveal_strlit("java");
    reveal_strlit("githubactions");
    reveal_strlit("actions");
    reveal_strlit("gha");
    assert("go"@.len() == 2);
    assert("npm"@.len() == 3 && "php"@.len() == 3 && "hex"@.len() == 3 && "gha"@.len() == 3);
    assert("npm"@[0] == 'n' && "php"@[0] == 'p' && "hex"@[0] == 'h' && "gha"@[0] == 'g');
    assert("rust"@.len() == 4 && "pypi"@.len() == 4 && "ruby"@.len() == 4 && "java"@.len() == 4);
    assert("rust"@[2] == 's' && "pypi"@[2] == 'p' && "ruby"@[2] == 'b' && "java"@[2] == 'v');
    assert("cargo"@.len() == 5 && "nuget"@.len() == 5 && "julia"@.len() == 5 && "swift"@.len() == 5
        && "maven"@.len() == 5);
    assert("cargo"@[0] == 'c' && "nuget"@[0] == 'n' && "julia"@[0] == 'j' && "swift"@[0] == 's'
        && "maven"@[0] == 'm');
    assert("python"@.len() == 6 && "dotnet"@.len() == 6 && "elixir"@.len() == 6 && "gradle"@.len()
        == 6);
    assert("python"@[0] == 'p' && "dotnet"@[0] == 'd' && "elixir"@[0] == 'e' && "gradle"@[0] == 'g');
    assert("actions"@.len() == 7);
    assert("rubygems"@.len() == 8 && "composer"@.len() == 8);
    assert("rubygems"@[0] == 'r' && "composer"@[0] == 'c');
    assert("packagist"@.len() == 9 && "githubactions"@.len() == 13);
}

} // verus!
