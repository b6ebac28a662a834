//! Semantic versions and version requirements as plain values, with the `semver` crate
//! behind a few wrappers.
use vstd::prelude::*;
use crate::order;
use crate::order::{Order, Rel};
use crate::text;

verus! {

/// A semantic version: what a [`Version`] holds.
#[verifier::ext_equal]
pub struct VersionM {
    pub major: u64,
    pub minor: u64,
    pub patch: u64,
    pub pre: Seq<char>,
    pub build: Seq<char>,
}

/// The version that a text spells by the Semantic Versioning grammar, if it spells one.
pub uninterp spec fn semver_version(text: Seq<char>) -> Option<VersionM>;

/// The comparators that a text spells as a version requirement, if it spells one.
pub uninterp spec fn semver_requirement(text: Seq<char>) -> Option<Seq<ComparatorM>>;

/// Whether a version satisfies a requirement.
pub uninterp spec fn semver_satisfies(req: Seq<ComparatorM>, version: VersionM) -> bool;

/// A requirement written out.
pub uninterp spec fn semver_requirement_text(req: Seq<ComparatorM>) -> Seq<char>;

/// A version without a pre-release and without build metadata, or one that some text spells.
pub open spec fn valid_version(v: VersionM) -> bool {
    (v.pre.len() == 0 && v.build.len() == 0) || exists|t: Seq<char>| #[trigger]
        semver_version(t) == Some(v)
}

pub open spec fn release(major: u64, minor: u64, patch: u64) -> VersionM {
    VersionM {
        major,
        minor,
        patch,
        pre: Seq::empty(),
        build: Seq::empty(),
    }
}

/// A version written out.
pub open spec fn version_text(v: VersionM) -> Seq<char> {
    text::decimal(v.major as nat) + "."@ + text::decimal(v.minor as nat) + "."@ + text::decimal(
        v.patch as nat,
    ) + (if v.pre.len() == 0 {
        Seq::empty()
    } else {
        "-"@ + v.pre
    }) + (if v.build.len() == 0 {
        Seq::empty()
    } else {
        "+"@ + v.build
    })
}

/// The version with these numbers and this pre-release, if that is one.
pub open spec fn version_of(major: u64, minor: u64, patch: u64, pre: Seq<char>) -> Option<VersionM> {
    if pre.len() == 0 {
        Some(release(major, minor, patch))
    } else {
        semver_version(version_text(VersionM { major, minor, patch, pre, build: Seq::empty() }))
    }
}

// --- The order of versions ---

pub open spec fn is_digit(c: char) -> bool {
    '0' <= c <= '9'
}

pub open spec fn all_digits(s: Seq<char>) -> bool {
    forall|i: int| 0 <= i < s.len() ==> is_digit(#[trigger] s[i])
}

/// A text without its leading zeros.
pub open spec fn trim_zeros(s: Seq<char>) -> Seq<char>
    decreases s.len(),
{
    if s.len() > 0 && s[0] == '0' {
        trim_zeros(s.drop_first())
    } else {
        s
    }
}

/// The key of one identifier: digits come before anything else and go by their value, then
/// by how many leading zeros there are; others go character by character.
pub open spec fn identifier_key(id: Seq<char>) -> Seq<int> {
    if all_digits(id) {
        seq![1int, trim_zeros(id).len() as int] + text::text_key(trim_zeros(id)) + seq![
            id.len() as int,
        ]
    } else {
        seq![2int] + text::text_key(id)
    }
}

/// The key of dot-separated identifiers: one after the other, fewer before more.
pub open spec fn identifiers_key(ids: Seq<Seq<char>>) -> Seq<int>
    decreases ids.len(),
{
    if ids.len() == 0 {
        seq![0int]
    } else {
        identifier_key(ids[0]) + identifiers_key(ids.drop_first())
    }
}

/// The key of a version: the three numbers, then the pre-release (none comes last), then the
/// build metadata.
pub open spec fn version_key(v: VersionM) -> Seq<int> {
    seq![v.major as int, v.minor as int, v.patch as int] + (if v.pre.len() == 0 {
        seq![1int]
    } else {
        seq![0int] + identifiers_key(text::split_on(v.pre, '.'))
    }) + identifiers_key(text::split_on(v.build, '.'))
}

pub open spec fn version_le(a: VersionM, b: VersionM) -> bool {
    order::lex_le(version_key(a), version_key(b))
}

pub open spec fn version_lt(a: VersionM, b: VersionM) -> bool {
    order::lex_lt(version_key(a), version_key(b))
}

/// A semantic version.
#[derive(Debug, PartialEq, Eq, Hash)]
pub struct Version {
    pub(crate) major: u64,
    pub(crate) minor: u64,
    pub(crate) patch: u64,
    pub(crate) pre: String,
    pub(crate) build: String,
}

impl DeepView for Version {
    type V = VersionM;

    closed spec fn deep_view(&self) -> VersionM {
        VersionM {
            major: self.major,
            minor: self.minor,
            patch: self.patch,
            pre: self.pre@,
            build: self.build@,
        }
    }
}

/// The outside parser's view of a version text.
///
/// Calls `semver::Version::parse`: the result is what the text spells by that grammar, with
/// the three numbers, the pre-release and the build metadata taken out as they stand.
#[verifier::external_body]
fn parse_semver(text: &str) -> (r: Option<(u64, u64, u64, String, String)>)
    ensures
        semver_version(text@) == (match r {
            Some(p) => Some(
                (VersionM { major: p.0, minor: p.1, patch: p.2, pre: p.3@, build: p.4@ }),
            ),
            None => None,
        }),
{
    semver::Version::parse(text).ok().map(
        |v|
            (v.major, v.minor, v.patch, v.pre.as_str().to_string(), v.build.as_str().to_string()),
    )
}

/// The order of two versions.
///
/// Calls `semver::Version`'s `cmp`: numbers first, then pre-release (a version without one is
/// the higher), then build metadata, identifier by identifier; versions that compare equal are
/// equal.
#[verifier::external_body]
fn rel_semver(a: &Version, b: &Version) -> (r: Rel)
    requires
        valid_version(a.deep_view()),
        valid_version(b.deep_view()),
    ensures
        r == order::rel_of(version_key(a.deep_view()), version_key(b.deep_view())),
        (r == Rel::Equal) == (a.deep_view() == b.deep_view()),
{
    let mut x = semver::Version::new(a.major, a.minor, a.patch);
    x.pre = semver::Prerelease::new(&a.pre).unwrap();
    x.build = semver::BuildMetadata::new(&a.build).unwrap();
    let mut y = semver::Version::new(b.major, b.minor, b.patch);
    y.pre = semver::Prerelease::new(&b.pre).unwrap();
    y.build = semver::BuildMetadata::new(&b.build).unwrap();
    match x.cmp(&y) {
        std::cmp::Ordering::Less => Rel::Less,
        std::cmp::Ordering::Equal => Rel::Equal,
        std::cmp::Ordering::Greater => Rel::Greater,
    }
}

impl Version {
    #[verifier::type_invariant]
    pub(crate) open spec fn valid(self) -> bool {
        valid_version(self.deep_view())
    }

    /// The release `major.minor.patch`.
    pub fn new(major: u64, minor: u64, patch: u64) -> (r: Version)
        ensures
            r.deep_view() == release(major, minor, patch),
    {
        let pre = String::new();
        let build = String::new();
        assert(pre@ =~= Seq::<char>::empty());
        Version { major, minor, patch, pre, build }
    }

    /// The version that `text` spells.
    pub fn parse(text: &str) -> (r: Option<Version>)
        ensures
            r.deep_view() == semver_version(text@),
    {
        match parse_semver(text) {
            Some(p) => {
                let (major, minor, patch, pre, build) = p;
                Some(Version { major, minor, patch, pre, build })
            },
            None => None,
        }
    }

    /// The version with these numbers and this pre-release.
    pub fn of(major: u64, minor: u64, patch: u64, pre: &str) -> (r: Option<Version>)
        ensures
            r.deep_view() == version_of(major, minor, patch, pre@),
    {
        if pre.is_empty() {
            return Some(Version::new(major, minor, patch));
        }
        let mut t: String = text::show(major);
        t.append(".");
        t.append(text::show(minor).as_str());
        t.append(".");
        t.append(text::show(patch).as_str());
        t.append("-");
        t.append(pre);
        proof {
            let v = VersionM { major, minor, patch, pre: pre@, build: Seq::empty() };
            assert(t@ =~= version_text(v));
        }
        Version::parse(t.as_str())
    }

    pub fn major(&self) -> (r: u64)
        ensures
            r == self.deep_view().major,
    {
        self.major
    }

    pub fn minor(&self) -> (r: u64)
        ensures
            r == self.deep_view().minor,
    {
        self.minor
    }

    pub fn patch(&self) -> (r: u64)
        ensures
            r == self.deep_view().patch,
    {
        self.patch
    }

    /// The pre-release identifiers, empty for a release.
    pub fn pre(&self) -> (r: &str)
        ensures
            r@ == self.deep_view().pre,
    {
        self.pre.as_str()
    }

    /// The version written out.
    pub fn to_string(&self) -> (r: String)
        ensures
            r@ == version_text(self.deep_view()),
    {
        let mut r: String = text::show(self.major);
        r.append(".");
        r.append(text::show(self.minor).as_str());
        r.append(".");
        r.append(text::show(self.patch).as_str());
        if !self.pre.as_str().is_empty() {
            r.append("-");
            r.append(self.pre.as_str());
        }
        if !self.build.as_str().is_empty() {
            r.append("+");
            r.append(self.build.as_str());
        }
        assert(r@ =~= version_text(self.deep_view()));
        r
    }

    /// The order of two versions.
    pub fn rel(&self, other: &Version) -> (r: Rel)
        ensures
            r == order::rel_of(version_key(self.deep_view()), version_key(other.deep_view())),
            (r == Rel::Equal) == (self.deep_view() == other.deep_view()),
    {
        proof {
            use_type_invariant(self);
            use_type_invariant(other);
        }
        rel_semver(self, other)
    }

    /// Whether `self` comes before `other`.
    pub fn before(&self, other: &Version) -> (r: bool)
        ensures
            r == version_lt(self.deep_view(), other.deep_view()),
            !r == version_le(other.deep_view(), self.deep_view()),
    {
        proof {
            order::lemma_lex_total(version_key(self.deep_view()), version_key(other.deep_view()));
        }
        match self.rel(other) {
            Rel::Less => true,
            _ => false,
        }
    }
}

impl Clone for Version {
    fn clone(&self) -> (r: Version)
        ensures
            r.deep_view() == self.deep_view(),
    {
        proof {
            use_type_invariant(self);
        }
        let pre = self.pre.clone();
        let build = self.build.clone();
        Version { major: self.major, minor: self.minor, patch: self.patch, pre, build }
    }
}

/// Versions by their order.
pub struct ByVersion;

impl Order for ByVersion {
    type M = VersionM;

    type Item = Version;

    open spec fn key(m: VersionM) -> Seq<int> {
        version_key(m)
    }

    fn rel(a: &Version, b: &Version) -> (r: Rel) {
        a.rel(b)
    }
}

// --- Requirements ---

#[derive(Debug, Clone, Copy, PartialEq, Eq, Hash, Structural)]
pub enum Op {
    Exact,
    Greater,
    GreaterEq,
    Less,
    LessEq,
    Tilde,
    Caret,
    Wildcard,
}

/// One bound of a requirement: what a [`Comparator`] holds.
#[verifier::ext_equal]
pub struct ComparatorM {
    pub op: Op,
    pub major: u64,
    pub minor: Option<u64>,
    pub patch: Option<u64>,
    pub pre: Seq<char>,
}

/// One bound of a requirement.
#[derive(Debug, PartialEq, Eq, Hash)]
pub struct Comparator {
    pub op: Op,
    pub major: u64,
    pub minor: Option<u64>,
    pub patch: Option<u64>,
    pub pre: String,
}

impl DeepView for Comparator {
    type V = ComparatorM;

    open spec fn deep_view(&self) -> ComparatorM {
        ComparatorM {
            op: self.op,
            major: self.major,
            minor: self.minor,
            patch: self.patch,
            pre: self.pre@,
        }
    }
}

impl Clone for Comparator {
    fn clone(&self) -> (r: Comparator)
        ensures
            r.deep_view() == self.deep_view(),
    {
        Comparator {
            op: self.op,
            major: self.major,
            minor: self.minor,
            patch: self.patch,
            pre: self.pre.clone(),
        }
    }
}

/// `>=` the version `v`.
pub open spec fn from_version(v: VersionM) -> ComparatorM {
    ComparatorM {
        op: Op::GreaterEq,
        major: v.major,
        minor: Some(v.minor),
        patch: Some(v.patch),
        pre: v.pre,
    }
}

/// The text is how the version is written.
pub open spec fn spells(t: Seq<char>, v: VersionM) -> bool {
    semver_version(t) == Some(v) || (valid_version(v) && t == version_text(v))
}

/// The requirement lets a version through and every release whose numbers are at least its own,
/// and no release whose numbers are below.
pub open spec fn starts_at(req: Seq<ComparatorM>, v: VersionM) -> bool {
    &&& semver_satisfies(req, v)
    &&& forall|w: VersionM|
        valid_version(w) && w.pre.len() == 0 ==> (#[trigger] semver_satisfies(req, w)
            == !order::lex_lt(
            number_key(w.major, w.minor, w.patch),
            number_key(v.major, v.minor, v.patch),
        ))
}

/// The outside parser's view of a requirement text.
///
/// Calls `semver::VersionReq::parse`: the result is the comparators that the text spells, in
/// the order in which they stand, each field taken out as it stands. `>=` and a version is one
/// comparator with the fields of that version, and `semver::VersionReq::matches` takes for it
/// that version and, of the releases, those that have at least its numbers.
#[verifier::external_body]
fn parse_semver_req(text: &str) -> (r: Option<Vec<Comparator>>)
    ensures
        r.deep_view() == semver_requirement(text@),
        forall|t: Seq<char>, v: VersionM| #[trigger]
            spells(t, v) && text@ == ">="@ + t ==> r.deep_view() == Some(seq![from_version(v)]),
        forall|t: Seq<char>, v: VersionM| #[trigger]
            spells(t, v) && text@ == ">="@ + t ==> starts_at(r.deep_view()->0, v),
{
    let req = semver::VersionReq::parse(text).ok()?;
    Some(req.comparators.iter().map(|c| Comparator {
        op: match c.op {
            semver::Op::Exact => Op::Exact, semver::Op::Greater => Op::Greater,
            semver::Op::GreaterEq => Op::GreaterEq, semver::Op::Less => Op::Less,
            semver::Op::LessEq => Op::LessEq, semver::Op::Tilde => Op::Tilde,
            semver::Op::Caret => Op::Caret, _ => Op::Wildcard,
        },
        major: c.major, minor: c.minor, patch: c.patch, pre: c.pre.as_str().to_string(),
    }).collect())
}

/// `>=` a full version.
pub open spec fn at_least(c: ComparatorM) -> bool {
    c.op == Op::GreaterEq && c.minor is Some && c.patch is Some
}

pub open spec fn number_key(major: u64, minor: u64, patch: u64) -> Seq<int> {
    seq![major as int, minor as int, patch as int]
}

/// Whether a version satisfies the requirement that `req` spells.
///
/// Calls `semver::VersionReq::matches`. Of a requirement that is one `>=` with three numbers,
/// and of a version without a pre-release, it says that the numbers are at least those.
#[verifier::external_body]
fn semver_matches(req: &str, version: &Version) -> (r: bool)
    requires
        semver_requirement(req@) is Some,
        valid_version(version.deep_view()),
    ensures
        r == semver_satisfies(semver_requirement(req@)->0, version.deep_view()),
        ({
            let c = semver_requirement(req@)->0;
            let v = version.deep_view();
            c.len() == 1 && at_least(c[0]) && v.pre.len() == 0 ==> r == !order::lex_lt(
                number_key(v.major, v.minor, v.patch),
                number_key(c[0].major, c[0].minor->0, c[0].patch->0),
            )
        }),
{
    let mut v = semver::Version::new(version.major, version.minor, version.patch);
    v.pre = semver::Prerelease::new(&version.pre).unwrap();
    v.build = semver::BuildMetadata::new(&version.build).unwrap();
    semver::VersionReq::parse(req).unwrap().matches(&v)
}

/// The requirement that `req` spells, written out.
///
/// Calls `semver::VersionReq`'s `to_string`.
#[verifier::external_body]
fn semver_req_text(req: &str) -> (r: String)
    requires
        semver_requirement(req@) is Some,
    ensures
        r@ == semver_requirement_text(semver_requirement(req@)->0),
{
    semver::VersionReq::parse(req).unwrap().to_string()
}

/// A version requirement: comparators that must all hold.
#[derive(Debug)]
pub struct VersionReq {
    pub(crate) text: String,
    pub(crate) comparators: Vec<Comparator>,
}

impl DeepView for VersionReq {
    type V = Seq<ComparatorM>;

    closed spec fn deep_view(&self) -> Seq<ComparatorM> {
        self.comparators.deep_view()
    }
}

impl PartialEq for VersionReq {
    fn eq(&self, other: &VersionReq) -> (r: bool) {
        self.same(other)
    }
}

impl vstd::std_specs::cmp::PartialEqSpecImpl for VersionReq {
    open spec fn obeys_eq_spec() -> bool {
        true
    }

    open spec fn eq_spec(&self, other: &VersionReq) -> bool {
        self.deep_view() == other.deep_view()
    }
}

pub fn same_comparator(a: &Comparator, b: &Comparator) -> (r: bool)
    ensures
        r == (a.deep_view() == b.deep_view()),
{
    a.op == b.op && a.major == b.major && a.minor == b.minor && a.patch == b.patch && a.pre == b.pre
}

impl VersionReq {
    #[verifier::type_invariant]
    pub(crate) closed spec fn valid(self) -> bool {
        semver_requirement(self.text@) == Some(self.comparators.deep_view())
    }

    /// The requirement that `text` spells.
    pub fn parse(text: &str) -> (r: Option<VersionReq>)
        ensures
            r.deep_view() == semver_requirement(text@),
            forall|t: Seq<char>, v: VersionM| #[trigger]
                spells(t, v) && text@ == ">="@ + t ==> r.deep_view() == Some(seq![from_version(v)])
                    && starts_at(seq![from_version(v)], v),
    {
        match parse_semver_req(text) {
            Some(comparators) => Some(VersionReq { text: text.to_owned(), comparators }),
            None => None,
        }
    }

    /// The comparators.
    pub fn list(&self) -> (r: &Vec<Comparator>)
        ensures
            r.deep_view() == self.deep_view(),
    {
        &self.comparators
    }

    /// Whether `version` satisfies the requirement.
    pub fn matches(&self, version: &Version) -> (r: bool)
        ensures
            r == semver_satisfies(self.deep_view(), version.deep_view()),
            self.deep_view().len() == 1 && at_least(self.deep_view()[0])
                && version.deep_view().pre.len() == 0 ==> r == !order::lex_lt(
                number_key(
                    version.deep_view().major,
                    version.deep_view().minor,
                    version.deep_view().patch,
                ),
                number_key(
                    self.deep_view()[0].major,
                    self.deep_view()[0].minor->0,
                    self.deep_view()[0].patch->0,
                ),
            ),
    {
        proof {
            use_type_invariant(self);
            use_type_invariant(version);
        }
        semver_matches(self.text.as_str(), version)
    }

    /// The requirement written out.
    pub fn to_string(&self) -> (r: String)
        ensures
            r@ == semver_requirement_text(self.deep_view()),
    {
        proof {
            use_type_invariant(self);
        }
        semver_req_text(self.text.as_str())
    }

    /// Whether two requirements hold the same comparators.
    pub fn same(&self, other: &VersionReq) -> (r: bool)
        ensures
            r == (self.deep_view() == other.deep_view()),
    {
        let a: &Vec<Comparator> = &self.comparators;
        let b: &Vec<Comparator> = &other.comparators;
        if a.len() != b.len() {
            assert(a.deep_view().len() != b.deep_view().len());
            return false;
        }
        let mut i: usize = 0;
        while i < a.len()
            invariant
                a.len() == b.len(),
                i <= a.len(),
                a.deep_view() == self.deep_view(),
                b.deep_view() == other.deep_view(),
                forall|j: int| 0 <= j < i ==> a.deep_view()[j] == b.deep_view()[j],
            decreases a.len() - i,
        {
            if !same_comparator(&a[i], &b[i]) {
                assert(a.deep_view()[i as int] != b.deep_view()[i as int]);
                return false;
            }
            i += 1;
        }
        assert(a.deep_view() =~= b.deep_view());
        true
    }
}

impl Clone for VersionReq {
    fn clone(&self) -> (r: VersionReq)
        ensures
            r.deep_view() == self.deep_view(),
    {
        proof {
            use_type_invariant(self);
        }
        let text = self.text.clone();
        let comparators = clone_comparators(&self.comparators);
        VersionReq { text, comparators }
    }
}

fn clone_comparators(v: &Vec<Comparator>) -> (r: Vec<Comparator>)
    ensures
        r.deep_view() == v.deep_view(),
{
    let mut r: Vec<Comparator> = Vec::new();
    let mut i: usize = 0;
    while i < v.len()
        invariant
            i <= v.len(),
            r.deep_view() == v.deep_view().take(i as int),
        decreases v.len() - i,
    {
        let c = v[i].clone();
        let ghost before = r.deep_view();
        r.push(c);
        i += 1;
        assert(r.deep_view() =~= before.push(c.deep_view()));
        assert(v.deep_view().take(i as int) =~= v.deep_view().take(i - 1).push(
            v.deep_view()[i - 1],
        ));
    }
    assert(r.deep_view() =~= v.deep_view());
    r
}

/// The requirement of at least the version that the text spells. Where it spells none, it is
/// what the text says after `>=` as a requirement, if anything.
pub open spec fn at_least_text(t: Seq<char>) -> Seq<Seq<ComparatorM>> {
    match semver_version(t) {
        Some(v) => seq![seq![from_version(v)]],
        None => match semver_requirement(">="@ + t) {
            Some(r) => seq![r],
            None => Seq::empty(),
        },
    }
}

/// The requirement of at least the version that the text spells.
pub fn require_at_least(t: &str) -> (r: Vec<VersionReq>)
    ensures
        r.deep_view() == at_least_text(t@),
        r.deep_view() == (match semver_requirement(">="@ + t@) {
            Some(c) => seq![c],
            None => Seq::empty(),
        }),
        forall|v: VersionM| #[trigger]
            spells(t@, v) ==> r.deep_view() == seq![seq![from_version(v)]] && starts_at(
                seq![from_version(v)],
                v,
            ),
{
    let mut out: Vec<VersionReq> = Vec::new();
    assert(out.deep_view() =~= Seq::empty());
    let ghost whole = ">="@ + t@;
    let req: Option<VersionReq> = VersionReq::parse(text::join(">=", t).as_str());
    proof {
        if let Some(v) = semver_version(t@) {
            assert(spells(t@, v));
        }
        assert(req.deep_view() == semver_requirement(whole));
    }
    match req {
        Some(req) => {
            out.push(req);
            assert(out.deep_view() =~= seq![req.deep_view()]);
        },
        None => {},
    }
    out
}

/// The requirement of at least a version: one bound, with the numbers and the pre-release of
/// the version.
pub open spec fn at_least_version(v: VersionM) -> Seq<Seq<ComparatorM>> {
    seq![seq![from_version(v)]]
}

/// The requirement of at least a version.
pub fn require_version(v: &Version) -> (r: Vec<VersionReq>)
    ensures
        r.deep_view() == at_least_version(v.deep_view()),
        r.deep_view() == (match semver_requirement(">="@ + version_text(v.deep_view())) {
            Some(c) => seq![c],
            None => Seq::empty(),
        }),
        starts_at(seq![from_version(v.deep_view())], v.deep_view()),
{
    proof {
        use_type_invariant(v);
        assert(spells(version_text(v.deep_view()), v.deep_view()));
    }
    require_at_least(v.to_string().as_str())
}

/// Whether the numbers of `a` come before those of `b`.
pub open spec fn numbers_below(a: VersionM, b: VersionM) -> bool {
    a.major < b.major || (a.major == b.major && (a.minor < b.minor || (a.minor == b.minor && a.patch
        < b.patch)))
}

/// The numbers decide which of two versions comes first: the major one, then the minor one, then
/// the patch. Among versions with the same numbers a pre-release comes before the release.
pub proof fn numbers_decide_first(a: VersionM, b: VersionM)
    ensures
        numbers_below(a, b) ==> version_lt(a, b) && !version_lt(b, a) && version_le(a, b)
            && !version_le(b, a),
        a.major == b.major && a.minor == b.minor && a.patch == b.patch && a.pre.len() > 0
            && b.pre.len() == 0 ==> version_lt(a, b) && !version_lt(b, a) && version_le(a, b)
            && !version_le(b, a),
        order::lex_lt(
            number_key(a.major, a.minor, a.patch),
            number_key(b.major, b.minor, b.patch),
        ) == numbers_below(a, b),
{
    reveal_with_fuel(order::lex_lt, 5);
    let x = version_key(a);
    let y = version_key(b);
    assert(x[0] == a.major && x[1] == a.minor && x[2] == a.patch);
    assert(y[0] == b.major && y[1] == b.minor && y[2] == b.patch);
    assert(x[3] == (if a.pre.len() == 0 {
        1int
    } else {
        0int
    }));
    assert(y[3] == (if b.pre.len() == 0 {
        1int
    } else {
        0int
    }));
    let x1 = x.drop_first();
    let x2 = x1.drop_first();
    let x3 = x2.drop_first();
    let y1 = y.drop_first();
    let y2 = y1.drop_first();
    let y3 = y2.drop_first();
    assert(x1[0] == x[1] && x2[0] == x[2] && x3[0] == x[3]);
    assert(y1[0] == y[1] && y2[0] == y[2] && y3[0] == y[3]);
    let n = number_key(a.major, a.minor, a.patch);
    let m = number_key(b.major, b.minor, b.patch);
    assert(n.drop_first()[0] == n[1] && n.drop_first().drop_first()[0] == n[2]);
    assert(m.drop_first()[0] == m[1] && m.drop_first().drop_first()[0] == m[2]);
}

/// Where the text is not a version, what is required is what the text says after `>=`, and at
/// most one requirement; where it is one, the requirement is one bound from that version on.
pub proof fn at_least_is_one_bound(t: Seq<char>)
    ensures
        at_least_text(t).len() <= 1,
        semver_version(t) matches Some(v) ==> {
            &&& at_least_text(t).len() == 1
            &&& at_least_text(t)[0].len() == 1
            &&& at_least_text(t)[0][0].op == Op::GreaterEq
            &&& at_least_text(t)[0][0].major == v.major
            &&& at_least_text(t)[0][0].minor == Some(v.minor)
            &&& at_least_text(t)[0][0].patch == Some(v.patch)
            &&& at_least_text(t)[0][0].pre == v.pre
        },
        semver_version(t) is None ==> (at_least_text(t).len() == 1 <==> semver_requirement(">="@ + t)
            is Some),
{
}

} // verus!
