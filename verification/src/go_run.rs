//! Running the Go vulnerability checker: how it is confined, what it is given, and what its
//! end means.
use vstd::prelude::*;
use crate::finding::{RepoId, VulnFinding, VulnFindingM};
use crate::go;
use crate::go::{Dropped, Message, MessageM};
use crate::number;
use crate::text;
use crate::cut;
use crate::value;

verus! {

/// Whether a build is confined.
#[derive(Debug, Clone, Copy, PartialEq, Eq, Structural)]
pub enum SandboxPolicy {
    /// Where it can be.
    Auto,
    /// Always, or not at all.
    Require,
    /// Never.
    Off,
}

/// Why a Go repository could not be checked.
#[derive(Debug)]
pub enum GoError {
    /// The messages cannot be read.
    Parse(String),
    /// The checker could not be run.
    Spawn(String),
    /// The checker wrote nothing.
    NoOutput { stderr: String },
    /// The checker failed.
    Failed { stderr: String },
    /// The build could not be confined.
    Sandbox(String),
    /// The checker took too long.
    Timeout { secs: u64 },
    /// The network is denied, and there is no mirror of the database.
    MirrorRequired,
    /// A file cannot be read.
    Db { path: String, source: String },
}

#[verifier::ext_equal]
pub enum GoErrorM {
    Parse(Seq<char>),
    Spawn(Seq<char>),
    NoOutput { stderr: Seq<char> },
    Failed { stderr: Seq<char> },
    Sandbox(Seq<char>),
    Timeout { secs: u64 },
    MirrorRequired,
    Db { path: Seq<char>, source: Seq<char> },
}

impl DeepView for GoError {
    type V = GoErrorM;

    open spec fn deep_view(&self) -> GoErrorM {
        match self {
            GoError::Parse(e) => GoErrorM::Parse(e@),
            GoError::Spawn(e) => GoErrorM::Spawn(e@),
            GoError::NoOutput { stderr } => GoErrorM::NoOutput { stderr: stderr@ },
            GoError::Failed { stderr } => GoErrorM::Failed { stderr: stderr@ },
            GoError::Sandbox(e) => GoErrorM::Sandbox(e@),
            GoError::Timeout { secs } => GoErrorM::Timeout { secs: *secs },
            GoError::MirrorRequired => GoErrorM::MirrorRequired,
            GoError::Db { path, source } => GoErrorM::Db { path: path@, source: source@ },
        }
    }
}

pub open spec fn error_text(e: GoErrorM) -> Seq<char> {
    match e {
        GoErrorM::Parse(e) => "parsing govulncheck JSON: "@ + e,
        GoErrorM::Spawn(e) => "running govulncheck: "@ + e,
        GoErrorM::NoOutput { stderr } => "govulncheck produced no output: "@ + stderr,
        GoErrorM::Failed { stderr } => "govulncheck failed: "@ + stderr,
        GoErrorM::Sandbox(e) => "build sandbox: "@ + e,
        GoErrorM::Timeout { secs } => "govulncheck timed out after "@ + text::decimal(secs as nat)
            + "s (a hostile or oversized module may be hanging the build)"@,
        GoErrorM::MirrorRequired =>
            "a confined/offline Go scan denies the network but no offline vulnerability DB is set; pass --go-vuln-db=file://<mirror> (or GOVULNDB)"@,
        GoErrorM::Db { path, source } => "offline vulnerability DB "@ + path + ": "@ + source,
    }
}

impl GoError {
    /// The error in words.
    pub fn to_string(&self) -> (r: String)
        ensures
            r@ == error_text(self.deep_view()),
    {
        match self {
            GoError::Parse(e) => text::join("parsing govulncheck JSON: ", e.as_str()),
            GoError::Spawn(e) => text::join("running govulncheck: ", e.as_str()),
            GoError::NoOutput { stderr } => text::join(
                "govulncheck produced no output: ",
                stderr.as_str(),
            ),
            GoError::Failed { stderr } => text::join("govulncheck failed: ", stderr.as_str()),
            GoError::Sandbox(e) => text::join("build sandbox: ", e.as_str()),
            GoError::Timeout { secs } => {
                let mut r: String = text::join(
                    "govulncheck timed out after ",
                    text::show(*secs).as_str(),
                );
                r.append("s (a hostile or oversized module may be hanging the build)");
                r
            },
            GoError::MirrorRequired =>
                "a confined/offline Go scan denies the network but no offline vulnerability DB is set; pass --go-vuln-db=file://<mirror> (or GOVULNDB)".to_owned(),
            GoError::Db { path, source } => {
                let mut r: String = text::join("offline vulnerability DB ", path.as_str());
                r.append(": ");
                r.append(source.as_str());
                r
            },
        }
    }
}

// --- Before the run ---

/// A database that can be read while the network is denied: a local mirror.
pub open spec fn offline_db(db: Seq<char>) -> bool {
    text::occurs_at(db, "file://"@, 0)
}

/// Whether a database can be read while the network is denied.
pub fn is_offline_db(db: &str) -> (r: bool)
    ensures
        r == offline_db(db@),
{
    cut::starts_with(db, "file://")
}

/// The policy that holds: where confinement is optional and there is no database to read
/// offline, none.
pub fn effective_policy(requested: SandboxPolicy, has_offline_db: bool) -> (r: SandboxPolicy)
    ensures
        r == (if requested == SandboxPolicy::Auto && !has_offline_db {
            SandboxPolicy::Off
        } else {
            requested
        }),
{
    match requested {
        SandboxPolicy::Auto => if has_offline_db {
            SandboxPolicy::Auto
        } else {
            SandboxPolicy::Off
        },
        other => other,
    }
}

/// How to run the checker.
#[derive(Debug)]
pub struct GoScanOptions {
    pub govulncheck: String,
    pub sandbox: SandboxPolicy,
    pub vuln_db: Option<String>,
    /// No network at all.
    pub offline: bool,
}

pub open spec fn has_offline_db(db: Option<Seq<char>>) -> bool {
    match db {
        Some(d) => offline_db(d),
        None => false,
    }
}

/// The policy that a run is confined under: always where there may be no network at all.
pub open spec fn policy_for(sandbox: SandboxPolicy, db: Option<Seq<char>>, offline: bool) -> SandboxPolicy {
    if offline {
        SandboxPolicy::Require
    } else if sandbox == SandboxPolicy::Auto && !has_offline_db(db) {
        SandboxPolicy::Off
    } else {
        sandbox
    }
}

/// What to do once it is known whether the run is confined.
#[derive(Debug, Clone, Copy, PartialEq, Eq, Structural)]
pub struct GoRun {
    /// Warn that the run is not confined.
    pub warn_unconfined: bool,
    /// Fetch the modules beforehand.
    pub prefetch: bool,
    /// Give the run an environment of its own.
    pub isolate: bool,
}

/// What to do once it is known whether the run is confined; nothing where a confined run has no
/// database that can be read offline.
pub open spec fn prepared(
    sandbox: SandboxPolicy,
    db: Option<Seq<char>>,
    offline: bool,
    confined: bool,
) -> Option<GoRun> {
    if confined && !has_offline_db(db) {
        None
    } else {
        Some(
            GoRun {
                warn_unconfined: sandbox == SandboxPolicy::Auto && !confined && !has_offline_db(db),
                prefetch: confined && !offline,
                isolate: confined,
            },
        )
    }
}

impl GoScanOptions {
    fn offline_mirror(&self) -> (r: bool)
        ensures
            r == has_offline_db(self.vuln_db.deep_view()),
    {
        match &self.vuln_db {
            Some(d) => is_offline_db(d.as_str()),
            None => false,
        }
    }

    /// The policy that the run is confined under.
    pub fn policy(&self) -> (r: SandboxPolicy)
        ensures
            r == policy_for(self.sandbox, self.vuln_db.deep_view(), self.offline),
    {
        if self.offline {
            SandboxPolicy::Require
        } else {
            effective_policy(self.sandbox, self.offline_mirror())
        }
    }

    /// What to do once it is known whether the run is confined. A confined run needs a database
    /// that can be read offline.
    pub fn prepare(&self, confined: bool) -> (r: Result<GoRun, GoError>)
        ensures
            match r {
                Ok(g) => prepared(self.sandbox, self.vuln_db.deep_view(), self.offline, confined)
                    == Some(g),
                Err(e) => prepared(
                    self.sandbox,
                    self.vuln_db.deep_view(),
                    self.offline,
                    confined,
                ) is None && e.deep_view() == GoErrorM::MirrorRequired,
            },
    {
        let mirror: bool = self.offline_mirror();
        if confined && !mirror {
            return Err(GoError::MirrorRequired);
        }
        Ok(
            GoRun {
                warn_unconfined: self.sandbox == SandboxPolicy::Auto && !confined && !mirror,
                prefetch: confined && !self.offline,
                isolate: confined,
            },
        )
    }
}

/// Where there may be no network, confinement is required, nothing is fetched beforehand, and a
/// confined run reads a database offline.
pub proof fn offline_runs_touch_no_network(
    sandbox: SandboxPolicy,
    db: Option<Seq<char>>,
    confined: bool,
)
    ensures
        policy_for(sandbox, db, true) == SandboxPolicy::Require,
        prepared(sandbox, db, true, confined) matches Some(g) ==> !g.prefetch && (confined
            ==> has_offline_db(db)),
{
}

/// Where confinement is required, it holds whatever else is given.
pub proof fn required_confinement_holds(db: Option<Seq<char>>, offline: bool)
    ensures
        policy_for(SandboxPolicy::Require, db, offline) == SandboxPolicy::Require,
{
}

/// The arguments of the checker.
pub open spec fn argv_for(govulncheck: Seq<char>, db: Option<Seq<char>>) -> Seq<Seq<char>> {
    match db {
        Some(d) => seq![govulncheck, "-format"@, "json"@, "-db"@, d, "./..."@],
        None => seq![govulncheck, "-format"@, "json"@, "./..."@],
    }
}

/// The arguments of the checker: the whole module, as JSON, with the database where one is
/// given.
pub fn govulncheck_argv(govulncheck: &str, db: &Option<String>) -> (r: Vec<String>)
    ensures
        r.deep_view() == argv_for(govulncheck@, db.deep_view()),
{
    let mut r: Vec<String> = Vec::new();
    r.push(govulncheck.to_owned());
    r.push("-format".to_owned());
    r.push("json".to_owned());
    if let Some(d) = db {
        r.push("-db".to_owned());
        r.push(d.clone());
    }
    r.push("./...".to_owned());
    assert(r.deep_view() =~= argv_for(govulncheck@, db.deep_view()));
    r
}

/// What is said before a run that goes online unconfined though confinement was wanted.
pub fn unconfined_warning() -> (r: String)
    ensures
        r@
            == "warning: scanning Go repo UNCONFINED (online): --build-sandbox=auto can only confine govulncheck offline, which needs a local vulnerability DB. Pass --go-vuln-db=file://<mirror> (or GOVULNDB) to confine it offline, or --build-sandbox=require to require confinement."@,
{
    "warning: scanning Go repo UNCONFINED (online): --build-sandbox=auto can only confine govulncheck offline, which needs a local vulnerability DB. Pass --go-vuln-db=file://<mirror> (or GOVULNDB) to confine it offline, or --build-sandbox=require to require confinement.".to_owned()
}

/// The directory of caches: the one that is set, else the one in the home directory, else that
/// of temporary files.
pub open spec fn cache_home(
    caches: Option<Seq<char>>,
    home: Option<Seq<char>>,
    temp: Seq<char>,
) -> Seq<char> {
    match (caches, home) {
        (Some(c), _) => c,
        (None, Some(h)) => text::within(h, ".cache"@),
        (None, None) => temp,
    }
}

/// The build cache that confined runs share. It is never the operator's own.
pub fn persistent_go_cache(caches: &Option<String>, home: &Option<String>, temp: &str) -> (r: String)
    ensures
        r@ == text::within(
            text::within(
                cache_home(caches.deep_view(), home.deep_view(), temp@),
                "fleetreach"@,
            ),
            "go-build"@,
        ),
{
    let base: String = match (caches, home) {
        (Some(c), _) => c.clone(),
        (None, Some(h)) => text::path_within(h.as_str(), ".cache"),
        (None, None) => temp.to_owned(),
    };
    let own = text::path_within(base.as_str(), "fleetreach");
    text::path_within(own.as_str(), "go-build")
}

/// How long the checker may run where nothing else is asked for, in seconds.
pub const DEFAULT_TIMEOUT_SECS: u64 = 600;

/// How long the checker may run, in seconds: what was asked for, where that is a number.
pub fn go_timeout(asked: &Option<String>) -> (r: u64)
    ensures
        r == (match asked.deep_view() {
            Some(t) => match number::unsigned_in(t) {
                Some(n) => n,
                None => DEFAULT_TIMEOUT_SECS as int,
            },
            None => DEFAULT_TIMEOUT_SECS as int,
        }),
{
    match asked {
        Some(t) => match number::parse_unsigned(t.as_str()) {
            Some(n) => n,
            None => DEFAULT_TIMEOUT_SECS,
        },
        None => DEFAULT_TIMEOUT_SECS,
    }
}

// --- The environment ---

/// The value of a variable, the first where it is there more than once.
pub open spec fn value_of(env: Seq<(Seq<char>, Seq<char>)>, name: Seq<char>) -> Option<Seq<char>>
    decreases env.len(),
{
    if env.len() == 0 {
        None
    } else {
        match value_of(env.drop_last(), name) {
            Some(v) => Some(v),
            None => if env.last().0 == name {
                Some(env.last().1)
            } else {
                None
            },
        }
    }
}

proof fn lemma_value_stays(env: Seq<(Seq<char>, Seq<char>)>, name: Seq<char>, n: int)
    requires
        0 <= n <= env.len(),
        value_of(env.take(n), name) is Some,
    ensures
        value_of(env, name) == value_of(env.take(n), name),
    decreases env.len(),
{
    if n < env.len() {
        assert(env.drop_last().take(n) =~= env.take(n));
        lemma_value_stays(env.drop_last(), name, n);
    } else {
        assert(env.take(n) =~= env);
    }
}

fn find_value(env: &Vec<(String, String)>, name: &str) -> (r: Option<String>)
    ensures
        r.deep_view() == value_of(env.deep_view(), name@),
{
    let ghost all = env.deep_view();
    let mut i: usize = 0;
    assert(all.take(0) =~= Seq::empty());
    while i < env.len()
        invariant
            i <= env.len(),
            all == env.deep_view(),
            value_of(all.take(i as int), name@) is None,
        decreases env.len() - i,
    {
        proof {
            assert(all.take(i + 1).drop_last() =~= all.take(i as int));
            assert(all.take(i + 1).last() == env[i as int].deep_view());
        }
        if text::same(env[i].0.as_str(), name) {
            proof {
                lemma_value_stays(all, name@, i + 1);
            }
            return Some(env[i].1.clone());
        }
        i += 1;
    }
    assert(all.take(i as int) =~= all);
    None
}

/// The variables that a confined run keeps: those by which the toolchain finds itself and its
/// modules.
pub open spec fn kept_names() -> Seq<Seq<char>> {
    seq![
        "PATH"@,
        "HOME"@,
        "USER"@,
        "LOGNAME"@,
        "TERM"@,
        "LANG"@,
        "GOPATH"@,
        "GOROOT"@,
        "GOMODCACHE"@,
    ]
}

pub open spec fn kept(
    env: Seq<(Seq<char>, Seq<char>)>,
    names: Seq<Seq<char>>,
) -> Seq<(Seq<char>, Seq<char>)>
    decreases names.len(),
{
    if names.len() == 0 {
        Seq::empty()
    } else {
        let front = kept(env, names.drop_last());
        match value_of(env, names.last()) {
            Some(v) => front.push((names.last(), v)),
            None => front,
        }
    }
}

/// The variables that a confined run gets of its own: where it may write, and no network.
pub open spec fn set_values(gocache: Seq<char>, gotmp: Seq<char>) -> Seq<(Seq<char>, Seq<char>)> {
    seq![
        ("GOCACHE"@, gocache),
        ("GOTMPDIR"@, gotmp),
        ("GOPROXY"@, "off"@),
        ("GOSUMDB"@, "off"@),
        ("GOTOOLCHAIN"@, "local"@),
    ]
}

/// The whole environment of a confined run: what is kept of the given one, and what is set.
pub fn isolate_env(env: &Vec<(String, String)>, gocache: &str, gotmp: &str) -> (r: Vec<
    (String, String),
>)
    ensures
        r.deep_view() == kept(env.deep_view(), kept_names()) + set_values(gocache@, gotmp@),
{
    let mut names: Vec<String> = Vec::new();
    names.push("PATH".to_owned());
    names.push("HOME".to_owned());
    names.push("USER".to_owned());
    names.push("LOGNAME".to_owned());
    names.push("TERM".to_owned());
    names.push("LANG".to_owned());
    names.push("GOPATH".to_owned());
    names.push("GOROOT".to_owned());
    names.push("GOMODCACHE".to_owned());
    let ghost all = names.deep_view();
    assert(all =~= kept_names());
    let mut r: Vec<(String, String)> = Vec::new();
    let mut i: usize = 0;
    proof {
        assert(all.take(0) =~= Seq::empty());
        assert(r.deep_view() =~= Seq::empty());
    }
    while i < names.len()
        invariant
            i <= names.len(),
            all == names.deep_view(),
            r.deep_view() == kept(env.deep_view(), all.take(i as int)),
        decreases names.len() - i,
    {
        assert(all.take(i + 1).drop_last() =~= all.take(i as int));
        if let Some(v) = find_value(env, names[i].as_str()) {
            let ghost before = r.deep_view();
            let pair = (names[i].clone(), v);
            r.push(pair);
            assert(r.deep_view() =~= before.push(pair.deep_view()));
        }
        i += 1;
    }
    assert(all.take(i as int) =~= all);
    let mut own: Vec<(String, String)> = Vec::new();
    own.push(("GOCACHE".to_owned(), gocache.to_owned()));
    own.push(("GOTMPDIR".to_owned(), gotmp.to_owned()));
    own.push(("GOPROXY".to_owned(), "off".to_owned()));
    own.push(("GOSUMDB".to_owned(), "off".to_owned()));
    own.push(("GOTOOLCHAIN".to_owned(), "local".to_owned()));
    assert(own.deep_view() =~= set_values(gocache@, gotmp@));
    value::append(&mut r, own);
    r
}

/// Nothing but what is kept by name and what is set gets into a confined run.
pub proof fn nothing_else_gets_in(
    env: Seq<(Seq<char>, Seq<char>)>,
    gocache: Seq<char>,
    gotmp: Seq<char>,
    i: int,
)
    requires
        0 <= i < (kept(env, kept_names()) + set_values(gocache, gotmp)).len(),
    ensures
        ({
            let name = (kept(env, kept_names()) + set_values(gocache, gotmp))[i].0;
            kept_names().contains(name) || name == "GOCACHE"@ || name == "GOTMPDIR"@ || name
                == "GOPROXY"@ || name == "GOSUMDB"@ || name == "GOTOOLCHAIN"@
        }),
{
    let k = kept(env, kept_names());
    if i < k.len() {
        lemma_kept(env, kept_names(), i);
    } else {
        assert((k + set_values(gocache, gotmp))[i] == set_values(gocache, gotmp)[i - k.len()]);
    }
}

proof fn lemma_kept(env: Seq<(Seq<char>, Seq<char>)>, names: Seq<Seq<char>>, i: int)
    requires
        0 <= i < kept(env, names).len(),
    ensures
        names.contains(kept(env, names)[i].0),
    decreases names.len(),
{
    let l = names.drop_last();
    let front = kept(env, l);
    if i < front.len() {
        lemma_kept(env, l, i);
        let j = choose|j: int| 0 <= j < l.len() && l[j] == front[i].0;
        assert(names[j] == front[i].0);
    } else {
        assert(names[names.len() - 1] == kept(env, names)[i].0);
    }
}

// --- After the run ---

/// What a run of the checker comes to. One that wrote nothing, whose messages cannot be read,
/// or that failed, gives no findings at all.
pub open spec fn concluded(
    stdout: Seq<char>,
    stderr: Seq<char>,
    success: bool,
    messages: Result<Seq<MessageM>, Seq<char>>,
    repo: Seq<char>,
    direct: Seq<Seq<char>>,
) -> Result<Seq<VulnFindingM>, GoErrorM> {
    if text::blank(stdout) {
        Err(GoErrorM::NoOutput { stderr: cut::trimmed(stderr) })
    } else {
        match messages {
            Err(e) => Err(GoErrorM::Parse(e)),
            Ok(m) => if success {
                let g = go::gathered(m);
                Ok(go::found_for(value::text_set(go::ids_in(g.findings)), g, repo, direct))
            } else {
                Err(GoErrorM::Failed { stderr: cut::trimmed(stderr) })
            },
        }
    }
}

/// The messages that came back, or why they cannot be read, as values.
pub open spec fn read_messages(m: Result<Vec<Message>, String>) -> Result<Seq<MessageM>, Seq<char>> {
    match m {
        Ok(v) => Ok(v.deep_view()),
        Err(e) => Err(e@),
    }
}

/// What a run of the checker comes to: its findings, with what was dropped, or why there are
/// none.
pub fn conclude(
    stdout: &str,
    stderr: &str,
    success: bool,
    messages: Result<Vec<Message>, String>,
    repo: &RepoId,
    direct: &Vec<String>,
) -> (r: Result<(Vec<VulnFinding>, Vec<Dropped>), GoError>)
    ensures
        match r {
            Ok(v) => concluded(
                stdout@,
                stderr@,
                success,
                read_messages(messages),
                repo.deep_view(),
                direct.deep_view(),
            ) == Ok::<Seq<VulnFindingM>, GoErrorM>(v.0.deep_view()),
            Err(e) => concluded(
                stdout@,
                stderr@,
                success,
                read_messages(messages),
                repo.deep_view(),
                direct.deep_view(),
            ) == Err::<Seq<VulnFindingM>, GoErrorM>(e.deep_view()),
        },
        r matches Ok(v) ==> (messages matches Ok(m) && ({
            let g = go::gathered(m.deep_view());
            v.1.deep_view() == go::dropped_for(
                value::text_set(go::ids_in(g.findings)),
                g,
                repo.deep_view(),
                direct.deep_view(),
            )
        })),
{
    if text::is_blank(stdout) {
        return Err(GoError::NoOutput { stderr: cut::trim(stderr) });
    }
    match messages {
        Err(e) => Err(GoError::Parse(e)),
        Ok(m) => {
            let found = go::parse_findings(&m, repo, direct);
            if !success {
                return Err(GoError::Failed { stderr: cut::trim(stderr) });
            }
            Ok(found)
        },
    }
}

/// A run that failed, or that wrote nothing, is never a clean result.
pub proof fn a_failed_run_is_no_result(
    stdout: Seq<char>,
    stderr: Seq<char>,
    success: bool,
    messages: Result<Seq<MessageM>, Seq<char>>,
    repo: Seq<char>,
    direct: Seq<Seq<char>>,
)
    requires
        !success || text::blank(stdout) || messages is Err,
    ensures
        concluded(stdout, stderr, success, messages, repo, direct) is Err,
{
}

/// A run is confined whenever that is required or there may be no network, never where it is
/// turned off and there may be one, and where it is left open exactly where a database can be
/// read offline.
pub proof fn confinement_goes_by_what_can_be_read(
    sandbox: SandboxPolicy,
    db: Option<Seq<char>>,
    offline: bool,
)
    ensures
        offline || sandbox == SandboxPolicy::Require <==> policy_for(sandbox, db, offline)
            == SandboxPolicy::Require,
        !offline && sandbox == SandboxPolicy::Off ==> policy_for(sandbox, db, offline)
            == SandboxPolicy::Off,
        !offline && sandbox == SandboxPolicy::Auto && db is None ==> policy_for(sandbox, db, offline)
            == SandboxPolicy::Off,
        !offline && sandbox == SandboxPolicy::Auto && (db matches Some(d) && text::occurs_at(
            d,
            "file://"@,
            0,
        )) ==> policy_for(sandbox, db, offline) == SandboxPolicy::Auto,
        !offline && sandbox == SandboxPolicy::Auto && (db matches Some(d) && !text::occurs_at(
            d,
            "file://"@,
            0,
        )) ==> policy_for(sandbox, db, offline) == SandboxPolicy::Off,
{
}

/// A confined run needs a database that can be read offline, and is isolated; what it needs is
/// fetched before it, unless there may be no network. One that is not confined is neither, and
/// is warned of exactly where confinement was left open and no such database is there.
pub proof fn a_confined_run_is_isolated(
    sandbox: SandboxPolicy,
    db: Option<Seq<char>>,
    offline: bool,
    confined: bool,
)
    ensures
        prepared(sandbox, db, offline, confined) is None <==> confined && (db is None
            || !text::occurs_at(db->0, "file://"@, 0)),
        prepared(sandbox, db, offline, confined) matches Some(g) ==> {
            &&& g.isolate == confined
            &&& g.prefetch <==> confined && !offline
            &&& g.warn_unconfined <==> !confined && sandbox == SandboxPolicy::Auto && (db is None
                || !text::occurs_at(db->0, "file://"@, 0))
        },
{
}

/// The first value of a variable counts; there is none exactly where the variable is not set.
pub proof fn the_first_value_counts(env: Seq<(Seq<char>, Seq<char>)>, name: Seq<char>, i: int)
    requires
        0 <= i <= env.len(),
        i < env.len() ==> env[i].0 == name,
        forall|k: int| 0 <= k < i ==> (#[trigger] env[k]).0 != name,
    ensures
        value_of(env, name) == (if i < env.len() {
            Some(env[i].1)
        } else {
            None
        }),
    decreases env.len(),
{
    if env.len() > 0 {
        let l = env.drop_last();
        let n = l.len() as int;
        assert forall|k: int| 0 <= k < n implies #[trigger] l[k] == env[k] by {}
        assert(env[n] == env.last());
        if i < env.len() {
            the_first_value_counts(l, name, i);
        } else {
            the_first_value_counts(l, name, n);
        }
    }
}

/// A variable that is kept by name is kept with its value, where it has one.
pub proof fn what_is_kept_keeps_its_value(
    env: Seq<(Seq<char>, Seq<char>)>,
    names: Seq<Seq<char>>,
    i: int,
)
    requires
        0 <= i < names.len(),
    ensures
        value_of(env, names[i]) matches Some(v) ==> kept(env, names).contains((names[i], v)),
    decreases names.len(),
{
    let l = names.drop_last();
    let front = kept(env, l);
    let all = kept(env, names);
    if let Some(v) = value_of(env, names[i]) {
        if i < l.len() {
            assert(l[i] == names[i]);
            what_is_kept_keeps_its_value(env, l, i);
            let j = choose|j: int| 0 <= j < front.len() && front[j] == (names[i], v);
            assert(all[j] == (names[i], v));
        } else {
            assert(all[front.len() as int] == (names[i], v));
        }
    }
}

/// A confined run cannot reach the network through the toolchain: neither modules nor their sums
/// nor another toolchain are fetched, and what it writes goes where it is told.
pub proof fn a_confined_run_fetches_nothing(
    env: Seq<(Seq<char>, Seq<char>)>,
    gocache: Seq<char>,
    gotmp: Seq<char>,
)
    ensures
        ({
            let all = kept(env, kept_names()) + set_values(gocache, gotmp);
            &&& all.contains(("GOPROXY"@, "off"@))
            &&& all.contains(("GOSUMDB"@, "off"@))
            &&& all.contains(("GOTOOLCHAIN"@, "local"@))
            &&& all.contains(("GOCACHE"@, gocache))
            &&& all.contains(("GOTMPDIR"@, gotmp))
        }),
{
    let a = kept(env, kept_names());
    let n = a.len() as int;
    let all = a + set_values(gocache, gotmp);
    assert(all[n] == ("GOCACHE"@, gocache));
    assert(all[n + 1] == ("GOTMPDIR"@, gotmp));
    assert(all[n + 2] == ("GOPROXY"@, "off"@));
    assert(all[n + 3] == ("GOSUMDB"@, "off"@));
    assert(all[n + 4] == ("GOTOOLCHAIN"@, "local"@));
}

/// A run that wrote something that can be read and that did not fail gives the findings of what
/// it wrote. Of what goes wrong the missing output is told first, then what cannot be read, then
/// the failure.
pub proof fn a_good_run_gives_its_findings(
    stdout: Seq<char>,
    stderr: Seq<char>,
    success: bool,
    messages: Result<Seq<MessageM>, Seq<char>>,
    repo: Seq<char>,
    direct: Seq<Seq<char>>,
)
    ensures
        !text::blank(stdout) && success && messages is Ok <==> concluded(
            stdout,
            stderr,
            success,
            messages,
            repo,
            direct,
        ) is Ok,
        text::blank(stdout) ==> concluded(stdout, stderr, success, messages, repo, direct) == Err::<
            Seq<VulnFindingM>,
            GoErrorM,
        >(GoErrorM::NoOutput { stderr: cut::trimmed(stderr) }),
        !text::blank(stdout) && messages is Err ==> concluded(
            stdout,
            stderr,
            success,
            messages,
            repo,
            direct,
        ) == Err::<Seq<VulnFindingM>, GoErrorM>(GoErrorM::Parse(messages->Err_0)),
        !text::blank(stdout) && messages is Ok && !success ==> concluded(
            stdout,
            stderr,
            success,
            messages,
            repo,
            direct,
        ) == Err::<Seq<VulnFindingM>, GoErrorM>(
            GoErrorM::Failed { stderr: cut::trimmed(stderr) },
        ),
{
}

} // verus!
