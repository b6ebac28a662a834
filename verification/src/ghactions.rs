//! GitHub Actions: which actions workflows use, and matching them against a mirror of
//! advisories.
use vstd::prelude::*;
use crate::correlate;
use crate::cut;
use crate::cut::Class;
use crate::finding;
use crate::finding::{
    DependencyKind, Ecosystem, OccurrenceM, RepoId, VulnFinding, VulnFindingM,
};
use crate::number;
use crate::order;
use crate::order::{Order, Rel};
use crate::osv;
use crate::osv::{
    Advisory, AdvisoryM, OsvDb, OsvRecord, OsvRecordM, Scheme, Spec, TierCFinding, TierCFindingM,
    TierCScan, TierCScanM,
};
use crate::reach;
use crate::text;
use crate::tier_c;
use crate::value;
use crate::value::Plain;
use crate::version;
use crate::version::{Version, VersionM, VersionReq};

verus! {

/// The path of a mirror that a `file://` location names; none for any other location.
pub fn ghactions_db_path(db: &str) -> (r: Option<String>)
    ensures
        r.deep_view() == cut::after_prefix(db@, "file://"@),
{
    cut::strip_prefix(db, "file://")
}

// --- Workflows ---

/// What a [`UsedAction`] stands for.
#[verifier::ext_equal]
pub struct UsedActionM {
    pub name: Seq<char>,
    pub version_ref: Seq<char>,
}

/// An action that a workflow uses.
#[derive(Debug, PartialEq)]
pub struct UsedAction {
    /// In lower case.
    pub name: String,
    /// A tag, a branch or a commit.
    pub version_ref: String,
}

impl DeepView for UsedAction {
    type V = UsedActionM;

    open spec fn deep_view(&self) -> UsedActionM {
        UsedActionM {
            name: self.name@,
            version_ref: self.version_ref@,
        }
    }
}

impl Plain for UsedAction {
    fn copy(&self) -> (r: UsedAction) {
        UsedAction {
            name: self.name.clone(),
            version_ref: self.version_ref.clone(),
        }
    }

    fn same(&self, other: &UsedAction) -> (r: bool) {
        self.name == other.name
            && self.version_ref == other.version_ref
    }
}

impl Clone for UsedAction {
    fn clone(&self) -> (r: UsedAction)
        ensures
            r.deep_view() == self.deep_view(),
    {
        self.copy()
    }
}

/// Actions by name, then by reference.
pub struct ByAction;

impl Order for ByAction {
    type M = UsedActionM;

    type Item = UsedAction;

    open spec fn key(m: UsedActionM) -> Seq<int> {
        text::text_key(m.name) + text::text_key(m.version_ref)
    }

    fn rel(a: &UsedAction, b: &UsedAction) -> (r: Rel) {
        proof {
            assert(a.deep_view().name == a.name@ && b.deep_view().name == b.name@);
            assert(a.deep_view().version_ref == a.version_ref@ && b.deep_view().version_ref
                == b.version_ref@);
            correlate::lemma_text_first(
                a.name@,
                b.name@,
                text::text_key(a.version_ref@),
                text::text_key(b.version_ref@),
            );
        }
        match text::rel_text(a.name.as_str(), b.name.as_str()) {
            Rel::Equal => text::rel_text(a.version_ref.as_str(), b.version_ref.as_str()),
            r => r,
        }
    }
}

/// The value after `uses:`, where that is a key: at the start, after white space or after a
/// hyphen. Quotes around it and a comment behind it are left out.
pub open spec fn value_in(line: Seq<char>) -> Option<Seq<char>> {
    match cut::halves(line, "uses:"@) {
        None => None,
        Some((before, behind)) => if before.len() > 0 && !text::white(before.last())
            && before.last() != '-' {
            None
        } else {
            let words = cut::words_of(cut::without_start(cut::trimmed(behind), Class::Quote));
            if words.len() == 0 {
                None
            } else {
                let token = cut::before_mark(cut::without_end(words[0], Class::Quote), "#"@);
                if token.len() == 0 {
                    None
                } else {
                    Some(token)
                }
            }
        },
    }
}

/// The value after `uses:` on a line.
pub fn uses_value(line: &str) -> (r: Option<String>)
    ensures
        r.deep_view() == value_in(line@),
{
    match cut::split_once(line, "uses:") {
        None => None,
        Some((before, behind)) => {
            let b: Vec<char> = text::chars(before.as_str());
            if b.len() > 0 && !text::is_white(b[b.len() - 1]) && b[b.len() - 1] != '-' {
                return None;
            }
            let inner: String = cut::trim_start(cut::trim(behind.as_str()).as_str(), Class::Quote);
            let words: Vec<String> = cut::words(inner.as_str());
            let ghost w = words.deep_view();
            assert(w.len() == words.len());
            if words.len() == 0 {
                return None;
            }
            assert(w[0] == words[0]@);
            let bare: String = cut::trim_end(words[0].as_str(), Class::Quote);
            let token: String = cut::before(bare.as_str(), "#");
            if token.as_str().is_empty() {
                None
            } else {
                Some(token)
            }
        },
    }
}

/// The action that a line uses: an owner and a name, and a reference. Local and container
/// references are none.
pub open spec fn action_in(line: Seq<char>) -> Option<UsedActionM> {
    match value_in(line) {
        None => None,
        Some(value) => if text::occurs_at(value, "./"@, 0) || text::occurs_at(value, "../"@, 0)
            || text::occurs_at(value, "docker://"@, 0) {
            None
        } else {
            match cut::halves(value, "@"@) {
                None => None,
                Some((name, reference)) => if name.len() == 0 || reference.len() == 0
                    || !text::occurs(name, "/"@) {
                    None
                } else {
                    Some(UsedActionM { name: text::ascii_lower(name), version_ref: reference })
                },
            }
        },
    }
}

/// The action that a line uses.
pub fn line_action(line: &str) -> (r: Option<UsedAction>)
    ensures
        r.deep_view() == action_in(line@),
{
    match uses_value(line) {
        None => None,
        Some(value) => {
            let v: &str = value.as_str();
            if cut::starts_with(v, "./") || cut::starts_with(v, "../") || cut::starts_with(
                v,
                "docker://",
            ) {
                return None;
            }
            match cut::split_once(v, "@") {
                None => None,
                Some((name, reference)) => {
                    if name.as_str().is_empty() || reference.as_str().is_empty() || !text::contains(
                        name.as_str(),
                        "/",
                    ) {
                        return None;
                    }
                    Some(
                        UsedAction {
                            name: text::to_lower(name.as_str()),
                            version_ref: reference,
                        },
                    )
                },
            }
        },
    }
}

pub open spec fn actions_in(lines: Seq<Seq<char>>) -> Seq<UsedActionM>
    decreases lines.len(),
{
    if lines.len() == 0 {
        Seq::empty()
    } else {
        let front = actions_in(lines.drop_last());
        match action_in(lines.last()) {
            Some(a) => front.push(a),
            None => front,
        }
    }
}

/// The actions in order, each once.
pub open spec fn action_set(s: Seq<UsedActionM>) -> Seq<UsedActionM> {
    order::without_repeats(order::in_order::<ByAction>(s))
}

/// The actions that a workflow uses, in order and each once.
pub open spec fn actions_of(workflow: Seq<char>) -> Seq<UsedActionM> {
    action_set(actions_in(cut::lines_of(workflow)))
}

/// The actions that a workflow uses, in order and each once.
pub fn used_actions(workflow: &str) -> (r: Vec<UsedAction>)
    ensures
        r.deep_view() == actions_of(workflow@),
{
    let lines: Vec<String> = cut::lines(workflow);
    let ghost all = lines.deep_view();
    let mut out: Vec<UsedAction> = Vec::new();
    let mut i: usize = 0;
    proof {
        assert(all.take(0) =~= Seq::empty());
        assert(out.deep_view() =~= Seq::empty());
    }
    while i < lines.len()
        invariant
            i <= lines.len(),
            all == lines.deep_view(),
            out.deep_view() == actions_in(all.take(i as int)),
        decreases lines.len() - i,
    {
        assert(all.take(i + 1).drop_last() =~= all.take(i as int));
        if let Some(a) = line_action(lines[i].as_str()) {
            let ghost before = out.deep_view();
            out.push(a);
            assert(out.deep_view() =~= before.push(a.deep_view()));
        }
        i += 1;
    }
    assert(all.take(i as int) =~= all);
    value::dedup(order::sort::<ByAction>(out))
}

proof fn lemma_action_keys(a: UsedActionM, b: UsedActionM)
    requires
        ByAction::key(a) == ByAction::key(b),
    ensures
        a == b,
{
    correlate::lemma_text_first(
        a.name,
        b.name,
        text::text_key(a.version_ref),
        text::text_key(b.version_ref),
    );
    text::lemma_text_key_apart(a.version_ref, b.version_ref);
}

/// The set holds the same actions, no action twice, and is in order.
pub proof fn actions_are_distinct(s: Seq<UsedActionM>)
    ensures
        order::strictly_sorted::<ByAction>(action_set(s)),
        forall|a: UsedActionM| #[trigger] action_set(s).contains(a) == s.contains(a),
{
    let t = order::in_order::<ByAction>(s);
    order::lemma_in_order::<ByAction>(s);
    assert forall|i: int, j: int|
        0 <= i < t.len() && 0 <= j < t.len() && #[trigger] ByAction::key(t[i])
            == #[trigger] ByAction::key(t[j]) implies t[i] == t[j] by {
        lemma_action_keys(t[i], t[j]);
    }
    order::lemma_set_strict::<ByAction>(t);
    order::lemma_without_repeats(t);
    assert forall|a: UsedActionM| #[trigger] action_set(s).contains(a) == s.contains(a) by {
        order::lemma_in_order_contains::<ByAction>(s, a);
    }
}

/// What the lines of a workflow use is what some line uses.
proof fn lemma_actions_in(lines: Seq<Seq<char>>, a: UsedActionM)
    ensures
        actions_in(lines).contains(a) == exists|i: int|
            0 <= i < lines.len() && action_in(#[trigger] lines[i]) == Some(a),
    decreases lines.len(),
{
    if lines.len() > 0 {
        let front = lines.drop_last();
        let f = actions_in(front);
        lemma_actions_in(front, a);
        if f.contains(a) {
            let i = choose|i: int|
                0 <= i < front.len() && action_in(#[trigger] front[i]) == Some(a);
            assert(action_in(lines[i]) == Some(a));
            let k = choose|k: int| 0 <= k < f.len() && f[k] == a;
            assert(actions_in(lines)[k] == a);
        }
        if action_in(lines.last()) == Some(a) {
            assert(actions_in(lines)[f.len() as int] == a);
            assert(action_in(lines[lines.len() - 1]) == Some(a));
        }
        if exists|i: int| 0 <= i < lines.len() && action_in(#[trigger] lines[i]) == Some(a) {
            let i = choose|i: int|
                0 <= i < lines.len() && action_in(#[trigger] lines[i]) == Some(a);
            if i < front.len() {
                assert(front[i] == lines[i]);
            }
        }
        if actions_in(lines).contains(a) && action_in(lines.last()) != Some(a) {
            let k = choose|k: int| 0 <= k < actions_in(lines).len() && actions_in(lines)[k] == a;
            assert(f[k] == a);
        }
    }
}

/// An action of the registry: its name is in lower case, holds a slash and is no local path, and
/// it is used by a reference.
pub open spec fn is_registry_action(a: UsedActionM) -> bool {
    &&& a.name == text::ascii_lower(a.name)
    &&& text::occurs(a.name, "/"@)
    &&& !text::occurs_at(a.name, "./"@, 0)
    &&& !text::occurs_at(a.name, "../"@, 0)
    &&& a.version_ref.len() > 0
}

proof fn lemma_line_action(line: Seq<char>)
    ensures
        action_in(line) matches Some(a) ==> is_registry_action(a),
{
    reveal_strlit("/");
    reveal_strlit("./");
    reveal_strlit("../");
    reveal_strlit("@");
    if let Some(a) = action_in(line) {
        let value = value_in(line)->0;
        cut::lemma_halves(value, "@"@);
        let (name, reference) = cut::halves(value, "@"@)->0;
        let low = text::ascii_lower(name);
        assert(a.name == low);
        assert(text::ascii_lower(low) =~= low);
        let i = choose|i: int| text::occurs_at(name, "/"@, i);
        assert(name.subrange(i, i + 1)[0] == '/');
        assert(low.subrange(i, i + 1) =~= "/"@);
        assert(text::occurs_at(low, "/"@, i));
        if text::occurs_at(low, "./"@, 0) {
            assert(low.subrange(0, 2)[0] == '.' && low.subrange(0, 2)[1] == '/');
            assert(value.subrange(0, 2) =~= "./"@);
            assert(text::occurs_at(value, "./"@, 0));
        }
        if text::occurs_at(low, "../"@, 0) {
            let t = low.subrange(0, 3);
            assert(t[0] == '.' && t[1] == '.' && t[2] == '/');
            assert(value.subrange(0, 3) =~= "../"@);
            assert(text::occurs_at(value, "../"@, 0));
        }
    }
}

/// Whatever a workflow holds, what is read off it are actions of the registry.
pub proof fn only_registry_actions_are_read(workflow: Seq<char>, i: int)
    requires
        0 <= i < actions_of(workflow).len(),
    ensures
        is_registry_action(actions_of(workflow)[i]),
{
    let lines = cut::lines_of(workflow);
    let a = actions_of(workflow)[i];
    actions_are_distinct(actions_in(lines));
    assert(actions_of(workflow).contains(a));
    lemma_actions_in(lines, a);
    let k = choose|k: int| 0 <= k < lines.len() && action_in(#[trigger] lines[k]) == Some(a);
    lemma_line_action(lines[k]);
}

/// A carriage return at the end of a line does not matter.
proof fn lemma_return_is_white(line: Seq<char>)
    ensures
        action_in(line.push('\r')) == action_in(line),
{
    reveal_strlit("uses:");
    let mark = "uses:"@;
    let long = line.push('\r');
    text::lemma_seek(line, mark, 0);
    text::lemma_seek(long, mark, 0);
    assert forall|j: int| 0 <= j implies text::occurs_at(line, mark, j) == text::occurs_at(
        long,
        mark,
        j,
    ) by {
        if j + 5 <= line.len() {
            assert(line.subrange(j, j + 5) =~= long.subrange(j, j + 5));
        } else if j + 5 == long.len() {
            assert(long.subrange(j, j + 5)[4] == '\r');
            assert(mark[4] == ':');
        }
    }
    match (text::seek(line, mark, 0), text::seek(long, mark, 0)) {
        (Some(i), Some(j)) => {
            assert(i == j);
            assert(long.take(i) =~= line.take(i));
            assert(long.skip(i + 5) =~= line.skip(i + 5).push('\r'));
            cut::lemma_trimmed_push(line.skip(i + 5), '\r');
        },
        (Some(i), None) => {
            assert(!text::occurs_at(long, mark, i));
        },
        (None, Some(j)) => {
            assert(!text::occurs_at(line, mark, j));
        },
        (None, None) => {},
    }
}

/// What some piece of a workflow between line feeds uses, and nothing else, is used by a line.
proof fn lemma_lines_use(workflow: Seq<char>, a: UsedActionM)
    ensures
        actions_in(cut::lines_of(workflow)).contains(a) == exists|i: int|
            0 <= i < text::split_on(workflow, '\n').len() && action_in(
                #[trigger] text::split_on(workflow, '\n')[i],
            ) == Some(a),
{
    let p = text::split_on(workflow, '\n');
    let lines = cut::lines_of(workflow);
    cut::lemma_split_joined(workflow, Seq::empty(), '\n');
    lemma_actions_in(lines, a);
    assert forall|i: int| 0 <= i < p.len() implies action_in(cut::without_return(#[trigger] p[i]))
        == action_in(p[i]) by {
        if p[i].len() > 0 && p[i].last() == '\r' {
            assert(p[i] =~= p[i].drop_last().push('\r'));
            lemma_return_is_white(p[i].drop_last());
        }
    }
    assert(action_in(Seq::empty()) is None) by {
        reveal_strlit("uses:");
        text::lemma_seek(Seq::empty(), "uses:"@, 0);
    }
    if exists|i: int| 0 <= i < p.len() && action_in(#[trigger] p[i]) == Some(a) {
        let i = choose|i: int| 0 <= i < p.len() && action_in(#[trigger] p[i]) == Some(a);
        if i < p.len() - 1 {
            assert(lines[i] == cut::without_return(p[i]));
        } else if p.last().len() > 0 {
            assert(lines[i] == p[i]);
        } else {
            assert(p[i] =~= Seq::empty());
        }
        assert(action_in(lines[i]) == Some(a));
    }
    if exists|i: int| 0 <= i < lines.len() && action_in(#[trigger] lines[i]) == Some(a) {
        let i = choose|i: int| 0 <= i < lines.len() && action_in(#[trigger] lines[i]) == Some(a);
        if i < p.len() - 1 {
            assert(lines[i] == cut::without_return(p[i]));
        }
        assert(action_in(p[i]) == Some(a));
    }
}

/// A text that is there twice gives what it gives once.
pub proof fn reading_twice_changes_nothing(workflow: Seq<char>)
    ensures
        actions_of(workflow.push('\n') + workflow) == actions_of(workflow),
{
    let double = workflow.push('\n') + workflow;
    let p = text::split_on(workflow, '\n');
    let q = text::split_on(double, '\n');
    cut::lemma_split_joined(workflow, workflow, '\n');
    let once = actions_in(cut::lines_of(workflow));
    let twice = actions_in(cut::lines_of(double));
    actions_are_distinct(once);
    actions_are_distinct(twice);
    assert forall|a: UsedActionM| action_set(twice).contains(a) == action_set(once).contains(a) by {
        lemma_lines_use(workflow, a);
        lemma_lines_use(double, a);
        if once.contains(a) {
            let i = choose|i: int| 0 <= i < p.len() && action_in(#[trigger] p[i]) == Some(a);
            assert(q[i] == p[i]);
        }
        if twice.contains(a) {
            let i = choose|i: int| 0 <= i < q.len() && action_in(#[trigger] q[i]) == Some(a);
            if i < p.len() {
                assert(q[i] == p[i]);
            } else {
                assert(q[i] == p[i - p.len()]);
            }
        }
        assert(action_set(twice).contains(a) == twice.contains(a));
        assert(action_set(once).contains(a) == once.contains(a));
    }
    order::lemma_strict_unique::<ByAction>(action_set(twice), action_set(once));
}

/// A local action or a container is never taken for an action of the registry.
pub proof fn local_references_are_passed_over(line: Seq<char>)
    requires
        value_in(line) matches Some(v) && (text::occurs_at(v, "./"@, 0) || text::occurs_at(
            v,
            "../"@,
            0,
        ) || text::occurs_at(v, "docker://"@, 0)),
    ensures
        action_in(line) is None,
{
}

// --- Versions ---

/// The text without the letter that marks a version.
pub open spec fn unmarked(s: Seq<char>) -> Seq<char> {
    if s.len() > 0 && (s[0] == 'v' || s[0] == 'V') {
        s.skip(1)
    } else {
        s
    }
}

/// The numbers of a tag, padded with zeros to three; none where a part is no number or there
/// are more.
pub open spec fn tag_numbers(core: Seq<char>) -> Option<(int, int, int)> {
    let parts = text::split_on(core, '.');
    if parts.len() > 3 || exists|i: int|
        0 <= i < parts.len() && number::unsigned_in(#[trigger] parts[i]) is None {
        None
    } else {
        Some(
            (
                number::unsigned_in(parts[0])->0,
                if parts.len() > 1 {
                    number::unsigned_in(parts[1])->0
                } else {
                    0
                },
                if parts.len() > 2 {
                    number::unsigned_in(parts[2])->0
                } else {
                    0
                },
            ),
        )
    }
}

/// The full version that a tag spells: its numbers, padded, and what follows them.
pub open spec fn full_text(raw: Seq<char>) -> Option<Seq<char>> {
    let s = unmarked(cut::trimmed(raw));
    let e = cut::run_end(s, 0, Class::Dotted);
    match tag_numbers(s.take(e)) {
        None => None,
        Some((a, b, c)) => Some(
            text::decimal(a as nat) + "."@ + text::decimal(b as nat) + "."@ + text::decimal(
                c as nat,
            ) + s.skip(e),
        ),
    }
}

/// The version that a reference means; none for a branch or a commit.
pub open spec fn gha_version(raw: Seq<char>) -> Option<VersionM> {
    match full_text(raw) {
        Some(t) => version::semver_version(t),
        None => None,
    }
}

fn read_numbers(core: &str) -> (r: Option<(u64, u64, u64)>)
    ensures
        match r {
            Some((a, b, c)) => tag_numbers(core@) == Some((a as int, b as int, c as int)),
            None => tag_numbers(core@) is None,
        },
{
    let parts: Vec<String> = cut::split(core, '.');
    let ghost all = parts.deep_view();
    assert(all.len() == parts.len());
    if parts.len() > 3 {
        return None;
    }
    let mut nums: Vec<u64> = Vec::new();
    let mut i: usize = 0;
    while i < parts.len()
        invariant
            i <= parts.len(),
            all == parts.deep_view(),
            all == text::split_on(core@, '.'),
            nums.len() == i,
            forall|j: int|
                0 <= j < i ==> number::unsigned_in(#[trigger] all[j]) == Some(nums@[j] as int),
        decreases parts.len() - i,
    {
        assert(parts[i as int]@ == all[i as int]);
        match number::parse_unsigned(parts[i].as_str()) {
            Some(n) => {
                nums.push(n);
            },
            None => {
                assert(number::unsigned_in(all[i as int]) is None);
                return None;
            },
        }
        i += 1;
    }
    proof {
        assert(number::unsigned_in(all[0]) == Some(nums@[0] as int));
        if all.len() > 1 {
            assert(number::unsigned_in(all[1]) == Some(nums@[1] as int));
        }
        if all.len() > 2 {
            assert(number::unsigned_in(all[2]) == Some(nums@[2] as int));
        }
    }
    let second: u64 = if nums.len() > 1 {
        nums[1]
    } else {
        0
    };
    let third: u64 = if nums.len() > 2 {
        nums[2]
    } else {
        0
    };
    Some((nums[0], second, third))
}

/// The full version that a tag spells: its numbers, padded, and what follows them.
pub fn pad_version(raw: &str) -> (r: Option<String>)
    ensures
        r.deep_view() == full_text(raw@),
{
    let t: String = cut::trim(raw);
    let v: Vec<char> = text::chars(t.as_str());
    let from: usize = if v.len() > 0 && (v[0] == 'v' || v[0] == 'V') {
        1
    } else {
        0
    };
    let s: String = text::text_of(&v, from, v.len());
    assert(s@ =~= unmarked(t@));
    let w: Vec<char> = text::chars(s.as_str());
    let e: usize = cut::run(&w, 0, Class::Dotted);
    proof {
        assert(w@.take(e as int) =~= w@.subrange(0, e as int));
        assert(w@.skip(e as int) =~= w@.subrange(e as int, w@.len() as int));
    }
    let core: String = text::text_of(&w, 0, e);
    let tail: String = text::text_of(&w, e, w.len());
    match read_numbers(core.as_str()) {
        None => None,
        Some((a, b, c)) => {
            let mut r: String = text::show(a);
            r.append(".");
            r.append(text::show(b).as_str());
            r.append(".");
            r.append(text::show(c).as_str());
            r.append(tail.as_str());
            Some(r)
        },
    }
}

/// The version that a reference means; none for a branch or a commit. A tag with fewer than
/// three numbers is padded with zeros.
pub fn parse_gha_version(raw: &str) -> (r: Option<Version>)
    ensures
        r.deep_view() == gha_version(raw@),
{
    match pad_version(raw) {
        Some(t) => Version::parse(t.as_str()),
        None => None,
    }
}

// --- The mirror ---

/// How actions are read from advisory records: tags as versions, names in lower case.
pub struct ActionVersions;

impl Order for ActionVersions {
    type M = VersionM;

    type Item = Version;

    open spec fn key(m: VersionM) -> Seq<int> {
        version::version_key(m)
    }

    fn rel(a: &Version, b: &Version) -> (r: Rel) {
        a.rel(b)
    }
}

impl Scheme for ActionVersions {
    open spec fn bound(t: Seq<char>) -> Option<VersionM> {
        gha_version(t)
    }

    open spec fn reached(v: VersionM, introduced: VersionM) -> bool {
        version::version_le(introduced, v)
    }

    fn copy_version(v: &Version) -> (r: Version) {
        v.clone()
    }

    fn parse_bound(t: &str) -> (r: Option<Version>) {
        parse_gha_version(t)
    }

    fn at_or_after_introduced(v: &Version, introduced: &Version) -> (r: bool) {
        !v.before(introduced)
    }
}

impl Spec for ActionVersions {
    open spec fn ecosystem_name() -> Seq<char> {
        "GitHub Actions"@
    }

    open spec fn range_kind() -> Seq<char> {
        "ECOSYSTEM"@
    }

    open spec fn uses_versions() -> bool {
        true
    }

    open spec fn normalized(name: Seq<char>) -> Seq<char> {
        text::ascii_lower(name)
    }

    fn ecosystem() -> (r: &'static str) {
        "GitHub Actions"
    }

    fn range_type() -> (r: &'static str) {
        "ECOSYSTEM"
    }

    fn use_versions() -> (r: bool) {
        true
    }

    fn normalize_name(name: &str) -> (r: String) {
        text::to_lower(name)
    }
}

/// A mirror of the advisories about actions.
#[derive(Debug)]
pub struct GhActionsDb(pub OsvDb<Version>);

/// What the records add to the index, record by record.
pub open spec fn index_of(records: Seq<OsvRecordM>) -> Seq<Seq<(Seq<char>, AdvisoryM<VersionM>)>> {
    Seq::new(
        records.len(),
        |i: int|
            osv::indexed_all::<ActionVersions>(
                records[i],
                osv::severity_given(
                    osv::record_label(records[i]),
                    osv::record_scores(records[i]),
                ),
                records[i].affected,
            ),
    )
}

impl GhActionsDb {
    /// The database of the records.
    pub fn from_records(records: &Vec<OsvRecord>) -> (r: GhActionsDb)
        ensures
            osv::is_index(r.0.deep_view(), index_of(records.deep_view()).flatten()),
    {
        let ghost want = index_of(records.deep_view());
        let mut per_file: Vec<Vec<(String, Advisory<Version>)>> = Vec::new();
        let mut i: usize = 0;
        assert(per_file.deep_view() =~= want.take(0));
        while i < records.len()
            invariant
                i <= records.len(),
                want == index_of(records.deep_view()),
                per_file.deep_view() == want.take(i as int),
            decreases records.len() - i,
        {
            let ghost before = per_file.deep_view();
            let one = osv::advisories_from::<ActionVersions>(&records[i]);
            per_file.push(one);
            i += 1;
            proof {
                assert(per_file.deep_view() =~= before.push(one.deep_view()));
                assert(want.take(i as int) =~= want.take(i - 1).push(want[i - 1]));
            }
        }
        assert(want.take(i as int) =~= want);
        GhActionsDb(OsvDb::from_records(per_file))
    }

    /// The advisories about a package.
    pub fn advisories_for(&self, package: &str) -> (r: &Vec<Advisory<Version>>)
        ensures
            r.deep_view() == osv::advisories_of(self.0.deep_view(), text::ascii_lower(package@)),
    {
        self.0.advisories_for(text::to_lower(package).as_str())
    }

    /// How many advisories are indexed, each package counting its own.
    pub fn len(&self) -> (r: usize)
        requires
            osv::entry_count(self.0.deep_view(), osv::sorted_names(self.0.deep_view()))
                <= usize::MAX,
        ensures
            r == osv::entry_count(self.0.deep_view(), osv::sorted_names(self.0.deep_view())),
    {
        self.0.len()
    }

    /// Whether no advisory is indexed.
    pub fn is_empty(&self) -> (r: bool)
        ensures
            r == (self.0.deep_view() == Map::<Seq<char>, Seq<AdvisoryM<VersionM>>>::empty()),
    {
        self.0.is_empty()
    }
}

// --- Scanning ---

/// Whether a file holds a workflow, by its name.
pub fn is_yaml(name: &str) -> (r: bool)
    ensures
        r == (reach::extension_of(name@) == Some("yml"@) || reach::extension_of(name@) == Some(
            "yaml"@,
        )),
{
    let e: Option<String> = reach::extension(name);
    text::is_text(&e, "yml") || text::is_text(&e, "yaml")
}

/// The finding for an action, where the advisory affects its version.
pub open spec fn matched(
    adv: AdvisoryM<VersionM>,
    action: UsedActionM,
    v: VersionM,
    repo: Seq<char>,
) -> Option<VulnFindingM> {
    match tier_c::hit::<ActionVersions>(adv, v) {
        None => None,
        Some(fixed) => Some(
            osv::tier_c_finding(
                TierCFindingM {
                    ecosystem: Ecosystem::GitHubActions,
                    advisory_id: adv.id,
                    aliases: adv.aliases,
                    title: match adv.summary {
                        Some(s) => s,
                        None => adv.id,
                    },
                    severity: adv.severity,
                    cvss_score: adv.cvss_score,
                    package: action.name,
                    installed: v,
                    patched: tier_c::patched_from(fixed),
                    direct: true,
                    dependency_path: Seq::empty(),
                    repo,
                    reach_reason: "workflow scan (no toolchain): action version match only"@,
                },
            ),
        ),
    }
}

/// Makes a finding where the advisory affects the version of the action.
pub fn match_advisory(
    adv: &Advisory<Version>,
    action: &UsedAction,
    v: &Version,
    repo: &RepoId,
) -> (r: Option<VulnFinding>)
    ensures
        r.deep_view() == matched(
            adv.deep_view(),
            action.deep_view(),
            v.deep_view(),
            repo.deep_view(),
        ),
        tier_c::hit::<ActionVersions>(adv.deep_view(), v.deep_view()) matches Some(fixed)
            && tier_c::before_fix(v.deep_view(), fixed) ==> (r.deep_view() matches Some(x)
            && finding::vulnerable(x.occurrences[0])),
{
    let fixed: Option<Version> = match tier_c::match_version::<ActionVersions>(adv, v) {
        Some(f) => f,
        None => {
            return None;
        },
    };
    let title: String = match &adv.summary {
        Some(s) => s.clone(),
        None => adv.id.clone(),
    };
    let none: Vec<String> = Vec::new();
    assert(none.deep_view() =~= Seq::empty());
    let patched: Vec<VersionReq> = tier_c::patched_by(&fixed);
    proof {
        use_type_invariant(v);
        let safe = patched.deep_view();
        if let Some(f) = fixed.deep_view() {
            version::numbers_decide_first(v.deep_view(), f);
            if tier_c::before_fix(v.deep_view(), Some(f)) {
                assert(!version::semver_satisfies(safe[0], v.deep_view()));
                assert(!finding::safe(safe, v.deep_view()));
            }
        }
    }
    let f = TierCFinding {
        ecosystem: Ecosystem::GitHubActions,
        advisory_id: adv.id.clone(),
        aliases: adv.aliases.copy(),
        title,
        severity: adv.severity,
        cvss_score: adv.cvss_score,
        package: action.name.clone(),
        installed: v.clone(),
        patched,
        direct: true,
        dependency_path: none,
        repo,
        reach_reason: "workflow scan (no toolchain): action version match only",
    };
    Some(f.build())
}

pub open spec fn matched_advisories(
    advs: Seq<AdvisoryM<VersionM>>,
    action: UsedActionM,
    v: VersionM,
    repo: Seq<char>,
) -> Seq<VulnFindingM>
    decreases advs.len(),
{
    if advs.len() == 0 {
        Seq::empty()
    } else {
        let front = matched_advisories(advs.drop_last(), action, v, repo);
        match matched(advs.last(), action, v, repo) {
            Some(f) => front.push(f),
            None => front,
        }
    }
}

/// The findings for the actions whose reference is a version.
pub open spec fn matched_actions(
    db: Map<Seq<char>, Seq<AdvisoryM<VersionM>>>,
    actions: Seq<UsedActionM>,
    repo: Seq<char>,
) -> Seq<VulnFindingM>
    decreases actions.len(),
{
    if actions.len() == 0 {
        Seq::empty()
    } else {
        let front = matched_actions(db, actions.drop_last(), repo);
        let a = actions.last();
        match gha_version(a.version_ref) {
            Some(v) => front + matched_advisories(
                osv::advisories_of(db, text::ascii_lower(a.name)),
                a,
                v,
                repo,
            ),
            None => front,
        }
    }
}

/// How many actions have a reference that is no version.
pub open spec fn unversioned_in(actions: Seq<UsedActionM>) -> nat
    decreases actions.len(),
{
    if actions.len() == 0 {
        0
    } else {
        unversioned_in(actions.drop_last()) + (if gha_version(actions.last().version_ref) is None {
            1nat
        } else {
            0nat
        })
    }
}

/// The actions of several workflows.
pub open spec fn all_actions(workflows: Seq<Seq<char>>) -> Seq<UsedActionM>
    decreases workflows.len(),
{
    if workflows.len() == 0 {
        Seq::empty()
    } else {
        all_actions(workflows.drop_last()) + actions_of(workflows.last())
    }
}

/// What matching workflows against the mirror comes to.
pub open spec fn scanned(
    db: Map<Seq<char>, Seq<AdvisoryM<VersionM>>>,
    workflows: Seq<Seq<char>>,
    repo: Seq<char>,
) -> TierCScanM {
    let actions = action_set(all_actions(workflows));
    TierCScanM {
        findings: osv::ordered_findings(matched_actions(db, actions, repo)),
        skipped_unparseable: unversioned_in(actions) as u32,
    }
}

fn collect_matched(
    advs: &Vec<Advisory<Version>>,
    action: &UsedAction,
    v: &Version,
    repo: &RepoId,
) -> (r: Vec<VulnFinding>)
    ensures
        r.deep_view() == matched_advisories(
            advs.deep_view(),
            action.deep_view(),
            v.deep_view(),
            repo.deep_view(),
        ),
{
    let ghost all = advs.deep_view();
    let mut r: Vec<VulnFinding> = Vec::new();
    let mut i: usize = 0;
    proof {
        assert(all.take(0) =~= Seq::empty());
        assert(r.deep_view() =~= Seq::empty());
    }
    while i < advs.len()
        invariant
            i <= advs.len(),
            all == advs.deep_view(),
            r.deep_view() == matched_advisories(
                all.take(i as int),
                action.deep_view(),
                v.deep_view(),
                repo.deep_view(),
            ),
        decreases advs.len() - i,
    {
        proof {
            assert(all.take(i + 1).drop_last() =~= all.take(i as int));
            assert(all.take(i + 1).last() == advs[i as int].deep_view());
        }
        if let Some(f) = match_advisory(&advs[i], action, v, repo) {
            let ghost before = r.deep_view();
            r.push(f);
            assert(r.deep_view() =~= before.push(f.deep_view()));
        }
        i += 1;
    }
    assert(all.take(i as int) =~= all);
    r
}

proof fn lemma_unversioned_grows(actions: Seq<UsedActionM>, n: int)
    requires
        0 <= n <= actions.len(),
    ensures
        unversioned_in(actions.take(n)) <= unversioned_in(actions),
    decreases actions.len(),
{
    if n < actions.len() {
        lemma_unversioned_grows(actions.drop_last(), n);
        assert(actions.drop_last().take(n) =~= actions.take(n));
    } else {
        assert(actions.take(n) =~= actions);
    }
}

/// The actions of several workflows, in order and each once.
pub fn gather_actions(workflows: &Vec<String>) -> (r: Vec<UsedAction>)
    ensures
        r.deep_view() == action_set(all_actions(workflows.deep_view())),
{
    let ghost texts = workflows.deep_view();
    let mut used: Vec<UsedAction> = Vec::new();
    let mut k: usize = 0;
    proof {
        assert(texts.take(0) =~= Seq::empty());
        assert(used.deep_view() =~= Seq::empty());
    }
    while k < workflows.len()
        invariant
            k <= workflows.len(),
            texts == workflows.deep_view(),
            used.deep_view() == all_actions(texts.take(k as int)),
        decreases workflows.len() - k,
    {
        assert(texts.take(k + 1).drop_last() =~= texts.take(k as int));
        value::append(&mut used, used_actions(workflows[k].as_str()));
        k += 1;
    }
    assert(texts.take(k as int) =~= texts);
    value::dedup(order::sort::<ByAction>(used))
}

/// How many actions of several workflows have a reference that is no version.
pub fn count_unversioned(workflows: &Vec<String>) -> (r: usize)
    ensures
        r == unversioned_in(action_set(all_actions(workflows.deep_view()))),
{
    let actions: Vec<UsedAction> = gather_actions(workflows);
    let ghost all = actions.deep_view();
    let mut n: usize = 0;
    let mut i: usize = 0;
    assert(all.take(0) =~= Seq::empty());
    while i < actions.len()
        invariant
            i <= actions.len(),
            all == actions.deep_view(),
            n == unversioned_in(all.take(i as int)),
            n <= i,
        decreases actions.len() - i,
    {
        proof {
            assert(all.take(i + 1).drop_last() =~= all.take(i as int));
            assert(all.take(i + 1).last() == actions[i as int].deep_view());
        }
        if parse_gha_version(actions[i].version_ref.as_str()).is_none() {
            n += 1;
        }
        i += 1;
    }
    assert(all.take(i as int) =~= all);
    n
}

/// Matches the actions that workflows use against the mirror.
pub fn scan_offline(workflows: &Vec<String>, db: &GhActionsDb, repo: &RepoId) -> (r: TierCScan)
    requires
        unversioned_in(action_set(all_actions(workflows.deep_view()))) <= u32::MAX,
    ensures
        r.deep_view() == scanned(db.0.deep_view(), workflows.deep_view(), repo.deep_view()),
{
    let actions: Vec<UsedAction> = gather_actions(workflows);
    let ghost all = actions.deep_view();
    let mut out: Vec<VulnFinding> = Vec::new();
    let mut skipped_unparseable: u32 = 0;
    let mut i: usize = 0;
    proof {
        assert(all.take(0) =~= Seq::empty());
        assert(out.deep_view() =~= Seq::empty());
    }
    while i < actions.len()
        invariant
            i <= actions.len(),
            all == actions.deep_view(),
            unversioned_in(all) <= u32::MAX,
            out.deep_view() == matched_actions(
                db.0.deep_view(),
                all.take(i as int),
                repo.deep_view(),
            ),
            skipped_unparseable == unversioned_in(all.take(i as int)),
        decreases actions.len() - i,
    {
        let a: &UsedAction = &actions[i];
        proof {
            assert(all.take(i + 1).drop_last() =~= all.take(i as int));
            assert(all.take(i + 1).last() == a.deep_view());
            lemma_unversioned_grows(all, i + 1);
        }
        match parse_gha_version(a.version_ref.as_str()) {
            None => {
                skipped_unparseable += 1;
            },
            Some(v) => {
                let more: Vec<VulnFinding> = collect_matched(
                    db.advisories_for(a.name.as_str()),
                    a,
                    &v,
                    repo,
                );
                value::append(&mut out, more);
            },
        }
        i += 1;
    }
    assert(all.take(i as int) =~= all);
    osv::sort_dedup_findings(&mut out);
    TierCScan { findings: out, skipped_unparseable }
}

/// Matches the actions that workflows use against the mirror, as long as those whose reference is
/// no version can be counted.
pub fn try_scan_offline(workflows: &Vec<String>, db: &GhActionsDb, repo: &RepoId) -> (r: Option<
    TierCScan,
>)
    ensures
        r.deep_view() == (if unversioned_in(action_set(all_actions(workflows.deep_view())))
            <= u32::MAX {
            Some(scanned(db.0.deep_view(), workflows.deep_view(), repo.deep_view()))
        } else {
            None
        }),
{
    if count_unversioned(workflows) <= 0xffff_ffff {
        Some(scan_offline(workflows, db, repo))
    } else {
        None
    }
}

proof fn lemma_matched_advisories(
    advs: Seq<AdvisoryM<VersionM>>,
    action: UsedActionM,
    v: VersionM,
    repo: Seq<char>,
)
    ensures
        osv::all_version_matches(
            matched_advisories(advs, action, v, repo),
            Ecosystem::GitHubActions,
            repo,
        ),
    decreases advs.len(),
{
    if advs.len() > 0 {
        lemma_matched_advisories(advs.drop_last(), action, v, repo);
    }
}

proof fn lemma_matched_actions(
    db: Map<Seq<char>, Seq<AdvisoryM<VersionM>>>,
    actions: Seq<UsedActionM>,
    repo: Seq<char>,
)
    ensures
        osv::all_version_matches(
            matched_actions(db, actions, repo),
            Ecosystem::GitHubActions,
            repo,
        ),
    decreases actions.len(),
{
    if actions.len() > 0 {
        lemma_matched_actions(db, actions.drop_last(), repo);
        let a = actions.last();
        if let Some(v) = gha_version(a.version_ref) {
            lemma_matched_advisories(
                osv::advisories_of(db, text::ascii_lower(a.name)),
                a,
                v,
                repo,
            );
        }
    }
}

/// A version match never proves that code cannot run: every finding of a scan is undecided. It
/// is at one place, in the repository that was scanned.
pub proof fn version_match_is_unknown(
    db: Map<Seq<char>, Seq<AdvisoryM<VersionM>>>,
    workflows: Seq<Seq<char>>,
    repo: Seq<char>,
)
    ensures
        osv::all_version_matches(
            scanned(db, workflows, repo).findings,
            Ecosystem::GitHubActions,
            repo,
        ),
{
    let actions = action_set(all_actions(workflows));
    lemma_matched_actions(db, actions, repo);
    osv::lemma_ordered_matches(
        matched_actions(db, actions, repo),
        Ecosystem::GitHubActions,
        repo,
    );
}

proof fn lemma_same_advisories(
    advs: Seq<AdvisoryM<VersionM>>,
    a: UsedActionM,
    b: UsedActionM,
    v: VersionM,
    repo: Seq<char>,
)
    ensures
        matched_advisories(advs, a, v, repo).len() == matched_advisories(advs, b, v, repo).len(),
        forall|i: int|
            0 <= i < matched_advisories(advs, a, v, repo).len() ==> (
            #[trigger] matched_advisories(advs, a, v, repo)[i]).advisory_id
                == matched_advisories(advs, b, v, repo)[i].advisory_id,
    decreases advs.len(),
{
    if advs.len() > 0 {
        lemma_same_advisories(advs.drop_last(), a, b, v, repo);
    }
}

/// The case of an action's name does not matter: two uses that differ in it only are affected
/// by the same advisories.
pub proof fn case_does_not_matter(
    db: Map<Seq<char>, Seq<AdvisoryM<VersionM>>>,
    a: UsedActionM,
    b: UsedActionM,
    repo: Seq<char>,
)
    requires
        text::ascii_lower(a.name) == text::ascii_lower(b.name),
        a.version_ref == b.version_ref,
    ensures
        matched_actions(db, seq![a], repo).len() == matched_actions(db, seq![b], repo).len(),
        forall|i: int|
            0 <= i < matched_actions(db, seq![a], repo).len() ==> (#[trigger] matched_actions(
                db,
                seq![a],
                repo,
            )[i]).advisory_id == matched_actions(db, seq![b], repo)[i].advisory_id,
{
    let x = seq![a];
    let y = seq![b];
    assert(x.drop_last() =~= Seq::empty());
    assert(y.drop_last() =~= Seq::empty());
    assert(matched_actions(db, x.drop_last(), repo) =~= Seq::empty());
    assert(matched_actions(db, y.drop_last(), repo) =~= Seq::empty());
    if let Some(v) = gha_version(a.version_ref) {
        let advs = osv::advisories_of(db, text::ascii_lower(a.name));
        lemma_same_advisories(advs, a, b, v, repo);
        assert(matched_actions(db, x, repo) =~= matched_advisories(advs, a, v, repo));
        assert(matched_actions(db, y, repo) =~= matched_advisories(advs, b, v, repo));
    }
}

proof fn lemma_from_advisory(
    advs: Seq<AdvisoryM<VersionM>>,
    action: UsedActionM,
    v: VersionM,
    repo: Seq<char>,
    x: VulnFindingM,
) -> (a: int)
    requires
        matched_advisories(advs, action, v, repo).contains(x),
    ensures
        0 <= a < advs.len(),
        matched(advs[a], action, v, repo) == Some(x),
    decreases advs.len(),
{
    let all = matched_advisories(advs, action, v, repo);
    let l = advs.drop_last();
    let front = matched_advisories(l, action, v, repo);
    let i = choose|i: int| 0 <= i < all.len() && all[i] == x;
    if i < front.len() {
        assert(front[i] == x);
        let a = lemma_from_advisory(l, action, v, repo, x);
        assert(l[a] == advs[a]);
        a
    } else {
        advs.len() - 1
    }
}

proof fn lemma_from_action(
    db: Map<Seq<char>, Seq<AdvisoryM<VersionM>>>,
    actions: Seq<UsedActionM>,
    repo: Seq<char>,
    x: VulnFindingM,
) -> (p: int)
    requires
        matched_actions(db, actions, repo).contains(x),
    ensures
        0 <= p < actions.len(),
        gha_version(actions[p].version_ref) matches Some(v) && matched_advisories(
            osv::advisories_of(db, text::ascii_lower(actions[p].name)),
            actions[p],
            v,
            repo,
        ).contains(x),
    decreases actions.len(),
{
    let all = matched_actions(db, actions, repo);
    let l = actions.drop_last();
    let front = matched_actions(db, l, repo);
    let i = choose|i: int| 0 <= i < all.len() && all[i] == x;
    if i < front.len() {
        assert(front[i] == x);
        let p = lemma_from_action(db, l, repo, x);
        assert(l[p] == actions[p]);
        p
    } else {
        let q = actions.last();
        let v = gha_version(q.version_ref)->0;
        let back = matched_advisories(
            osv::advisories_of(db, text::ascii_lower(q.name)),
            q,
            v,
            repo,
        );
        assert(back[i - front.len()] == x);
        actions.len() - 1
    }
}

proof fn lemma_advisory_stays(
    advs: Seq<AdvisoryM<VersionM>>,
    action: UsedActionM,
    v: VersionM,
    repo: Seq<char>,
    a: int,
)
    requires
        0 <= a < advs.len(),
    ensures
        matched(advs[a], action, v, repo) matches Some(x) ==> matched_advisories(
            advs,
            action,
            v,
            repo,
        ).contains(x),
    decreases advs.len(),
{
    if let Some(x) = matched(advs[a], action, v, repo) {
        let l = advs.drop_last();
        let all = matched_advisories(advs, action, v, repo);
        let front = matched_advisories(l, action, v, repo);
        if a < l.len() {
            assert(l[a] == advs[a]);
            lemma_advisory_stays(l, action, v, repo, a);
            let i = choose|i: int| 0 <= i < front.len() && front[i] == x;
            assert(all[i] == x);
        } else {
            assert(all[front.len() as int] == x);
        }
    }
}

proof fn lemma_action_stays(
    db: Map<Seq<char>, Seq<AdvisoryM<VersionM>>>,
    actions: Seq<UsedActionM>,
    repo: Seq<char>,
    p: int,
    x: VulnFindingM,
)
    requires
        0 <= p < actions.len(),
        gha_version(actions[p].version_ref) matches Some(v) && matched_advisories(
            osv::advisories_of(db, text::ascii_lower(actions[p].name)),
            actions[p],
            v,
            repo,
        ).contains(x),
    ensures
        matched_actions(db, actions, repo).contains(x),
    decreases actions.len(),
{
    let l = actions.drop_last();
    let all = matched_actions(db, actions, repo);
    let front = matched_actions(db, l, repo);
    if p < l.len() {
        assert(l[p] == actions[p]);
        lemma_action_stays(db, l, repo, p, x);
        let i = choose|i: int| 0 <= i < front.len() && front[i] == x;
        assert(all[i] == x);
    } else {
        let q = actions.last();
        let back = matched_advisories(
            osv::advisories_of(db, text::ascii_lower(q.name)),
            q,
            gha_version(q.version_ref)->0,
            repo,
        );
        let i = choose|i: int| 0 <= i < back.len() && back[i] == x;
        assert(all[front.len() + i] == x);
    }
}

/// Whether a finding comes of an action that is used and an advisory that hits it: it tells
/// what the advisory says of it, and where.
pub open spec fn comes_of(
    db: Map<Seq<char>, Seq<AdvisoryM<VersionM>>>,
    p: UsedActionM,
    a: int,
    repo: Seq<char>,
    x: VulnFindingM,
) -> bool {
    &&& db.dom().contains(text::ascii_lower(p.name))
    &&& 0 <= a < db[text::ascii_lower(p.name)].len()
    &&& gha_version(p.version_ref) matches Some(v) && tier_c::hit::<ActionVersions>(db[text::ascii_lower(p.name)][a], v)
        matches Some(fixed) && tier_c::tells(x, db[text::ascii_lower(p.name)][a], fixed, p.name, v)
    &&& x.occurrences[0] matches OccurrenceM::InRepo { repo: at, dependency_kind, .. } && at == repo
        && dependency_kind == DependencyKind::Direct
}

/// Every finding of a scan comes of a used action and an advisory that hits it. Where
/// that names a fix, what is safe is one bound from the fix on; where it names none, nothing is.
pub proof fn every_finding_is_a_hit(
    db: Map<Seq<char>, Seq<AdvisoryM<VersionM>>>,
    workflows: Seq<Seq<char>>,
    repo: Seq<char>,
    j: int,
)
    requires
        0 <= j < scanned(db, workflows, repo).findings.len(),
    ensures
        exists|p: int, a: int|
            0 <= p < action_set(all_actions(workflows)).len() && #[trigger] comes_of(
                db,
                action_set(all_actions(workflows))[p],
                a,
                repo,
                scanned(db, workflows, repo).findings[j],
            ),
{
    let actions = action_set(all_actions(workflows));
    let s = matched_actions(db, actions, repo);
    let x = scanned(db, workflows, repo).findings[j];
    osv::ordered_findings_are_distinct(s);
    assert(s.contains(osv::ordered_findings(s)[j]));
    let p = lemma_from_action(db, actions, repo, x);
    let q = actions[p];
    let v = gha_version(q.version_ref)->0;
    let advs = osv::advisories_of(db, text::ascii_lower(q.name));
    let a = lemma_from_advisory(advs, q, v, repo, x);
    tier_c::a_fix_is_the_only_bound(tier_c::hit::<ActionVersions>(advs[a], v)->0);
    assert(comes_of(db, actions[p], a, repo, x));
}

/// Every advisory that hits a used action has a finding of the action.
pub proof fn every_hit_has_a_finding(
    db: Map<Seq<char>, Seq<AdvisoryM<VersionM>>>,
    workflows: Seq<Seq<char>>,
    repo: Seq<char>,
    p: int,
    a: int,
)
    requires
        0 <= p < action_set(all_actions(workflows)).len(),
        db.dom().contains(text::ascii_lower(action_set(all_actions(workflows))[p].name)),
        0 <= a < db[text::ascii_lower(action_set(all_actions(workflows))[p].name)].len(),
        gha_version(action_set(all_actions(workflows))[p].version_ref) matches Some(v) && tier_c::hit::<ActionVersions>(
            db[text::ascii_lower(action_set(all_actions(workflows))[p].name)][a],
            v,
        ) is Some,
    ensures
        exists|j: int|
            0 <= j < scanned(db, workflows, repo).findings.len() && (#[trigger] scanned(
                db,
                workflows,
                repo,
            ).findings[j]).advisory_id == db[text::ascii_lower(action_set(all_actions(workflows))[p].name)][a].id && osv::first_package(
                scanned(db, workflows, repo).findings[j],
            ) == action_set(all_actions(workflows))[p].name,
{
    let actions = action_set(all_actions(workflows));
    let s = matched_actions(db, actions, repo);
    let q = actions[p];
    let v = gha_version(q.version_ref)->0;
    let advs = osv::advisories_of(db, text::ascii_lower(q.name));
    let x = matched(advs[a], q, v, repo)->0;
    lemma_advisory_stays(advs, q, v, repo, a);
    lemma_action_stays(db, actions, repo, p, x);
    let i = choose|i: int| 0 <= i < s.len() && s[i] == x;
    osv::ordered_findings_are_distinct(s);
    assert(s[i].advisory_id == advs[a].id);
    let j = choose|j: int|
        0 <= j < osv::ordered_findings(s).len() && (#[trigger] osv::ordered_findings(
            s,
        )[j]).advisory_id == s[i].advisory_id && osv::first_package(osv::ordered_findings(s)[j])
            == osv::first_package(s[i]);
    assert(scanned(db, workflows, repo).findings[j].advisory_id == advs[a].id);
}

/// Bounds and versions are in the order of versions: a version has reached a bound unless it is
/// below it.
pub proof fn bounds_are_in_order(v: VersionM, b: VersionM)
    ensures
        version::numbers_below(v, b) ==> !ActionVersions::reached(v, b)
            && osv::lt::<ActionVersions>(v, b),
        version::numbers_below(b, v) ==> ActionVersions::reached(v, b)
            && !osv::lt::<ActionVersions>(v, b),
        ActionVersions::reached(v, v),
        !osv::lt::<ActionVersions>(v, v),
{
    version::numbers_decide_first(v, b);
    version::numbers_decide_first(b, v);
    order::lemma_lex_irreflexive(version::version_key(v));
}

/// A text that can stand in a reference: no white space, quote, comment mark or at sign.
pub open spec fn plain_part(s: Seq<char>) -> bool {
    s.len() > 0 && forall|i: int|
        0 <= i < s.len() ==> !text::white(#[trigger] s[i]) && s[i] != '\'' && s[i] != '"' && s[i]
            != '#' && s[i] != '@'
}

/// A step that uses an action of a registry is read as that action, its name in lower case, with
/// the reference behind the at sign, however far the step is indented and whether or not it is
/// the first key of its list item.
pub proof fn a_used_action_is_read(lead: Seq<char>, name: Seq<char>, reference: Seq<char>)
    requires
        !lead.contains('u'),
        lead.len() == 0 || text::white(lead.last()) || lead.last() == '-',
        plain_part(name),
        plain_part(reference),
        name.contains('/'),
        name[0] != '.',
        !name.contains(':'),
    ensures
        action_in(lead + "uses:"@ + (seq![' '] + (name.push('@') + reference))) == Some(
            UsedActionM { name: text::ascii_lower(name), version_ref: reference },
        ),
{
    reveal_strlit("uses:");
    reveal_strlit("#");
    reveal_strlit("@");
    reveal_strlit("/");
    reveal_strlit("./");
    reveal_strlit("../");
    reveal_strlit("docker://");
    let value = name.push('@') + reference;
    let behind = seq![' '] + value;
    cut::lemma_halves_at(lead, "uses:"@, behind);
    assert forall|i: int| 0 <= i < value.len() implies !text::white(#[trigger] value[i]) && value[i]
        != '\'' && value[i] != '"' && value[i] != '#' by {
        if i < name.len() {
            assert(value[i] == name[i]);
        } else if i > name.len() {
            assert(value[i] == reference[i - name.len() - 1]);
        }
    }
    assert(value[0] == name[0]);
    assert(value.last() == reference.last());
    assert(!text::white(value[0]));
    assert(text::white(' '));
    cut::lemma_run_end_at(behind, 0, 1, Class::White);
    assert(behind.skip(1) =~= value);
    assert(value[value.len() - 1] == value.last());
    assert(cut::trimmed(behind) == value);
    cut::lemma_run_end_at(value, 0, 0, Class::Quote);
    assert(value.skip(0) =~= value);
    cut::lemma_words_plain(value);
    assert(cut::without_end(value, Class::Quote) == value);
    if value.contains('#') {
        let i = choose|i: int| 0 <= i < value.len() && value[i] == '#';
        assert(value[i] != '#');
    }
    cut::lemma_no_mark(value, "#"@);
    assert(value_in(lead + "uses:"@ + behind) == Some(value));
    if text::occurs_at(value, "./"@, 0) {
        assert(value.subrange(0, 2)[0] == value[0]);
    }
    if text::occurs_at(value, "../"@, 0) {
        assert(value.subrange(0, 3)[0] == value[0]);
    }
    if text::occurs_at(value, "docker://"@, 0) {
        assert(value.subrange(0, 9)[6] == value[6]);
        assert forall|i: int| 0 <= i < 6 implies #[trigger] value[i] == "docker://"@[i] by {
            assert(value.subrange(0, 9)[i] == value[i]);
        }
        if name.len() > 6 {
            assert(name[6] == ':');
        } else {
            let k = choose|k: int| 0 <= k < name.len() && name[k] == '/';
            assert(value[k] == '/');
            assert(value[k] == "docker://"@[k]);
        }
    }
    if name.contains('@') {
        let i = choose|i: int| 0 <= i < name.len() && name[i] == '@';
        assert(name[i] != '@');
    }
    cut::lemma_halves_at(name, "@"@, reference);
    assert(name + "@"@ + reference =~= value);
    let k = choose|k: int| 0 <= k < name.len() && name[k] == '/';
    assert(name.subrange(k, k + 1) =~= "/"@);
    assert(text::occurs_at(name, "/"@, k));
}

/// A tag of one, two or three numbers spells the version of those numbers and zeros, with or
/// without the letter that marks a version.
pub proof fn a_tag_is_padded_with_zeros(a: u64, b: u64, c: u64)
    ensures
        ({
            let x = text::decimal(a as nat);
            let y = text::decimal(b as nat);
            let z = text::decimal(c as nat);
            let dot = seq!['.'];
            &&& full_text(seq!['v'] + x) == Some(x + dot + seq!['0'] + dot + seq!['0'])
            &&& full_text(x) == Some(x + dot + seq!['0'] + dot + seq!['0'])
            &&& full_text(seq!['v'] + (x.push('.') + y)) == Some(x + dot + y + dot + seq!['0'])
            &&& full_text(seq!['v'] + (x.push('.') + (y.push('.') + z))) == Some(
                x + dot + y + dot + z,
            )
        }),
{
    let x = text::decimal(a as nat);
    let y = text::decimal(b as nat);
    let z = text::decimal(c as nat);
    let s2 = x.push('.') + y;
    let s3 = x.push('.') + (y.push('.') + z);
    reveal_strlit(".");
    assert("."@ =~= seq!['.']);
    assert(text::decimal(0) =~= seq!['0']);
    number::lemma_decimal(a as nat);
    number::lemma_decimal(b as nat);
    number::lemma_decimal(c as nat);
    number::a_number_is_read_back(a as int);
    number::a_number_is_read_back(b as int);
    number::a_number_is_read_back(c as int);
    lemma_no_dot(x);
    lemma_no_dot(y);
    lemma_no_dot(z);
    cut::lemma_split_plain(x, '.');
    cut::lemma_split_plain(y, '.');
    cut::lemma_split_plain(z, '.');
    cut::lemma_split_joined(x, y, '.');
    cut::lemma_split_joined(y, z, '.');
    cut::lemma_split_joined(x, y.push('.') + z, '.');
    assert(text::split_on(s2, '.') =~= seq![x, y]);
    assert(text::split_on(s3, '.') =~= seq![x, y, z]);
    lemma_tag(x, x);
    assert forall|i: int| 0 <= i < s2.len() implies cut::in_class(
        Class::Dotted,
        #[trigger] s2[i],
    ) by {
        if i < x.len() {
            assert(s2[i] == x[i]);
        } else if i > x.len() {
            assert(s2[i] == y[i - x.len() - 1]);
        }
    }
    assert forall|i: int| 0 <= i < s3.len() implies cut::in_class(
        Class::Dotted,
        #[trigger] s3[i],
    ) by {
        if i < x.len() {
            assert(s3[i] == x[i]);
        } else if x.len() < i < x.len() + 1 + y.len() {
            assert(s3[i] == y[i - x.len() - 1]);
        } else if i > x.len() + 1 + y.len() {
            assert(s3[i] == z[i - x.len() - 2 - y.len()]);
        }
    }
    lemma_tag(s2, y);
    lemma_tag(s3, z);
    assert(tag_numbers(x) == Some((a as int, 0int, 0int)));
    assert(tag_numbers(s2) == Some((a as int, b as int, 0int)));
    assert(tag_numbers(s3) == Some((a as int, b as int, c as int)));
    let none = Seq::<char>::empty();
    assert(x + "."@ + seq!['0'] + "."@ + seq!['0'] + none =~= x + seq!['.'] + seq!['0'] + seq!['.']
        + seq!['0']);
    assert(x + "."@ + y + "."@ + seq!['0'] + none =~= x + seq!['.'] + y + seq!['.'] + seq!['0']);
    assert(x + "."@ + y + "."@ + z + none =~= x + seq!['.'] + y + seq!['.'] + z);
}

proof fn lemma_no_dot(s: Seq<char>)
    requires
        number::is_digits(s),
    ensures
        !s.contains('.'),
{
    if s.contains('.') {
        let i = choose|i: int| 0 <= i < s.len() && s[i] == '.';
        assert(cut::digit(s[i]));
    }
}

/// A dotted text that starts and ends with a digit is what is left of it, marked or not.
proof fn lemma_tag(s: Seq<char>, end: Seq<char>)
    requires
        number::is_digits(end),
        s.len() > 0,
        s.last() == end.last(),
        cut::digit(s[0]),
        forall|i: int| 0 <= i < s.len() ==> cut::in_class(Class::Dotted, #[trigger] s[i]),
    ensures
        ({
            let m = seq!['v'] + s;
            &&& unmarked(cut::trimmed(m)) == s
            &&& unmarked(cut::trimmed(s)) == s
            &&& cut::run_end(s, 0, Class::Dotted) == s.len()
            &&& s.take(s.len() as int) == s
            &&& s.skip(s.len() as int) == Seq::<char>::empty()
        }),
{
    let m = seq!['v'] + s;
    assert(cut::digit(end[end.len() - 1]));
    assert(!text::white(s.last()));
    assert(!text::white(s[0]));
    assert(!text::white('v'));
    assert(m.last() == s.last());
    cut::lemma_trimmed_plain(m);
    cut::lemma_trimmed_plain(s);
    assert(m.skip(1) =~= s);
    cut::lemma_run_end_at(s, 0, s.len() as int, Class::Dotted);
    assert(s.take(s.len() as int) =~= s);
    assert(s.skip(s.len() as int) =~= Seq::<char>::empty());
}

/// What is skipped is counted: the actions whose reference is no version.
pub proof fn what_is_no_version_is_counted(actions: Seq<UsedActionM>)
    ensures
        unversioned_in(actions) == actions.filter(
            |a: UsedActionM| gha_version(a.version_ref) is None,
        ).len(),
    decreases actions.len(),
{
    reveal(Seq::filter);
    if actions.len() > 0 {
        what_is_no_version_is_counted(actions.drop_last());
    }
}

} // verus!
