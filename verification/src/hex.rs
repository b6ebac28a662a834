//! Elixir packages: what a lockfile pins and which package brings in which, and matching them
//! against a mirror of advisories.
use vstd::prelude::*;
use crate::correlate;
use crate::cut;
use crate::cut::Class;
use crate::depgraph::{DepGraph, DepGraphM};
use crate::finding;
use crate::finding::{
    DependencyKind, Ecosystem, OccurrenceM, RepoId, VulnFinding, VulnFindingM,
};
use crate::go;
use crate::order;
use crate::order::{Order, Rel};
use crate::osv;
use crate::osv::{
    Advisory, AdvisoryM, OsvDb, OsvRecord, OsvRecordM, Scheme, Spec, TierCFinding, TierCFindingM,
    TierCScan, TierCScanM,
};
use crate::text;
use crate::tier_c;
use crate::value;
use crate::value::Plain;
use crate::version;
use crate::version::{Version, VersionM, VersionReq};

verus! {

/// The path of a mirror that a `file://` location names; none for any other location.
pub fn hex_db_path(db: &str) -> (r: Option<String>)
    ensures
        r.deep_view() == cut::after_prefix(db@, "file://"@),
{
    cut::strip_prefix(db, "file://")
}

// --- The lockfile ---

/// What a [`RawEntry`] stands for.
#[verifier::ext_equal]
pub struct RawEntryM {
    pub name: Seq<char>,
    pub version: Seq<char>,
    pub deps: Seq<Seq<char>>,
}

/// A package that a lockfile pins, and the packages that it asks for.
#[derive(Debug, PartialEq)]
pub struct RawEntry {
    pub name: String,
    pub version: String,
    pub deps: Vec<String>,
}

impl DeepView for RawEntry {
    type V = RawEntryM;

    open spec fn deep_view(&self) -> RawEntryM {
        RawEntryM {
            name: self.name@,
            version: self.version@,
            deps: self.deps.deep_view(),
        }
    }
}

/// What a [`InstalledPackage`] stands for.
#[verifier::ext_equal]
pub struct InstalledPackageM {
    pub name: Seq<char>,
    pub version: Seq<char>,
    pub direct: bool,
}

/// An installed package.
#[derive(Debug, PartialEq)]
pub struct InstalledPackage {
    pub name: String,
    pub version: String,
    /// No other package asks for it.
    pub direct: bool,
}

impl DeepView for InstalledPackage {
    type V = InstalledPackageM;

    open spec fn deep_view(&self) -> InstalledPackageM {
        InstalledPackageM {
            name: self.name@,
            version: self.version@,
            direct: self.direct,
        }
    }
}

impl Plain for InstalledPackage {
    fn copy(&self) -> (r: InstalledPackage) {
        InstalledPackage {
            name: self.name.clone(),
            version: self.version.clone(),
            direct: self.direct,
        }
    }

    fn same(&self, other: &InstalledPackage) -> (r: bool) {
        self.name == other.name
            && self.version == other.version
            && self.direct == other.direct
    }
}

impl Clone for InstalledPackage {
    fn clone(&self) -> (r: InstalledPackage)
        ensures
            r.deep_view() == self.deep_view(),
    {
        self.copy()
    }
}

/// The names that follow `{:` in a list.
pub open spec fn atoms_in(s: Seq<char>) -> Seq<Seq<char>>
    decreases s.len(),
{
    match cut::halves(s, "{:"@) {
        None => Seq::empty(),
        Some((_, atom)) => {
            let e = cut::run_end(atom, 0, Class::Atom);
            proof {
                reveal_strlit("{:");
                cut::lemma_halves(s, "{:"@);
                cut::lemma_run_end(atom, 0, Class::Atom);
            }
            (if e > 0 {
                seq![atom.take(e)]
            } else {
                Seq::empty()
            }) + atoms_in(atom.skip(e))
        }
    }
}

pub open spec fn opens(c: char) -> bool {
    c == '[' || c == '{'
}

pub open spec fn closes(c: char) -> bool {
    c == ']' || c == '}'
}

/// How a text stands open at its end: whether in quotes, and how many brackets more were opened
/// than closed. Brackets in quotes do not count.
pub open spec fn nest(s: Seq<char>) -> (bool, int)
    decreases s.len(),
{
    if s.len() == 0 {
        (false, 0)
    } else {
        let (quoted, depth) = nest(s.drop_last());
        let c = s.last();
        if quoted {
            (c != '"', depth)
        } else if opens(c) {
            (false, depth + 1)
        } else if closes(c) {
            (false, depth - 1)
        } else {
            (c == '"', depth)
        }
    }
}

/// The text up to the bracket that closes what it stands in; all of it where none does.
pub open spec fn inside(s: Seq<char>) -> Seq<char>
    decreases s.len(),
{
    if s.len() == 0 {
        s
    } else {
        let front = inside(s.drop_last());
        if front.len() < s.len() - 1 || nest(s).1 < 0 {
            front
        } else {
            s
        }
    }
}

proof fn lemma_inside(s: Seq<char>)
    ensures
        inside(s).len() <= s.len(),
        inside(s) == s.take(inside(s).len() as int),
    decreases s.len(),
{
    if s.len() == 0 {
        assert(s.take(0) =~= s);
    } else {
        let front = s.drop_last();
        lemma_inside(front);
        let n = inside(front).len() as int;
        assert(s.take(n) =~= front.take(n));
        assert(s.take(s.len() as int) =~= s);
    }
}

/// What is closed stays closed, whatever follows.
proof fn lemma_inside_closed(s: Seq<char>, n: int)
    requires
        0 <= n < s.len(),
        inside(s.take(n)) == s.take(n),
        nest(s.take(n + 1)).1 < 0,
    ensures
        inside(s) == s.take(n),
    decreases s.len(),
{
    if n + 1 == s.len() {
        assert(s.take(n + 1) =~= s);
        assert(s.drop_last() =~= s.take(n));
    } else {
        let front = s.drop_last();
        assert(front.take(n) =~= s.take(n));
        assert(front.take(n + 1) =~= s.take(n + 1));
        lemma_inside_closed(front, n);
    }
}

/// One more character of a text whose end stands open as given.
fn nest_next(quoted: bool, depth: usize, c: char) -> (r: (bool, usize))
    requires
        depth < usize::MAX,
        !quoted && closes(c) ==> depth > 0,
    ensures
        forall|s: Seq<char>| #[trigger]
            nest(s) == (quoted, depth as int) ==> nest(s.push(c)) == (r.0, r.1 as int),
        r.1 <= depth + 1,
{
    let r: (bool, usize) = if quoted {
        (c != '"', depth)
    } else if c == '[' || c == '{' {
        (false, depth + 1)
    } else if c == ']' || c == '}' {
        (false, depth - 1)
    } else {
        (c == '"', depth)
    };
    assert forall|s: Seq<char>| #[trigger] nest(s) == (quoted, depth as int) implies nest(s.push(c))
        == (r.0, r.1 as int) by {
        assert(s.push(c).drop_last() =~= s);
    }
    r
}

/// The text from a place up to the bracket that closes what it stands in.
fn inner(v: &Vec<char>, from: usize) -> (r: Vec<char>)
    requires
        from <= v.len(),
    ensures
        r@ == inside(v@.skip(from as int)),
{
    let ghost s = v@.skip(from as int);
    let mut r: Vec<char> = Vec::new();
    let mut quoted: bool = false;
    let mut depth: usize = 0;
    let mut i: usize = from;
    assert(r@ =~= s.take(0));
    while i < v.len()
        invariant
            from <= i <= v.len(),
            s == v@.skip(from as int),
            r@ == s.take(i - from),
            inside(r@) == r@,
            nest(r@) == (quoted, depth as int),
            depth <= i - from,
        decreases v.len() - i,
    {
        let c: char = v[i];
        assert(s.take(i - from + 1) =~= r@.push(c));
        if !quoted && depth == 0 && (c == ']' || c == '}') {
            proof {
                assert(r@.push(c).drop_last() =~= r@);
                lemma_inside_closed(s, i - from);
            }
            return r;
        }
        let (q, d): (bool, usize) = nest_next(quoted, depth, c);
        proof {
            assert(r@.push(c).drop_last() =~= r@);
            assert(nest(r@.push(c)) == (q, d as int));
        }
        quoted = q;
        depth = d;
        r.push(c);
        i += 1;
    }
    assert(s.take(i - from) =~= s);
    r
}

/// Where the last list starts that stands before the first text behind a list, and whether
/// there is such a text.
pub open spec fn last_list(s: Seq<char>) -> (Option<int>, bool)
    decreases s.len(),
{
    if s.len() == 0 {
        (None, false)
    } else {
        let front = last_list(s.drop_last());
        if front.1 || nest(s.drop_last()) != (false, 0int) {
            front
        } else if s.last() == '[' {
            (Some(s.len() - 1), false)
        } else {
            (front.0, s.last() == '"' && front.0 is Some)
        }
    }
}

/// Where the last list starts that stands before the first text behind a list.
fn find_list(v: &Vec<char>) -> (r: Option<usize>)
    requires
        inside(v@) == v@,
    ensures
        match r {
            Some(i) => last_list(v@).0 == Some(i as int) && i < v.len(),
            None => last_list(v@).0 is None,
        },
{
    let ghost s = v@;
    let mut start: Option<usize> = None;
    let mut done: bool = false;
    let mut quoted: bool = false;
    let mut depth: usize = 0;
    let mut i: usize = 0;
    assert(s.take(0) =~= Seq::empty());
    while i < v.len()
        invariant
            i <= v.len(),
            s == v@,
            inside(s) == s,
            nest(s.take(i as int)) == (quoted, depth as int),
            depth <= i,
            last_list(s.take(i as int)).1 == done,
            match start {
                Some(k) => last_list(s.take(i as int)).0 == Some(k as int) && k < v.len(),
                None => last_list(s.take(i as int)).0 is None,
            },
        decreases v.len() - i,
    {
        let c: char = v[i];
        let ghost t = s.take(i as int);
        proof {
            assert(s.take(i + 1) =~= t.push(c));
            assert(t.push(c).drop_last() =~= t);
            lemma_open_throughout(s, i + 1);
        }
        if !done && !quoted && depth == 0 {
            if c == '[' {
                start = Some(i);
            } else if c == '"' && start.is_some() {
                done = true;
            }
        }
        let (q, d): (bool, usize) = nest_next(quoted, depth, c);
        assert(nest(t.push(c)) == (q, d as int));
        quoted = q;
        depth = d;
        i += 1;
    }
    assert(s.take(i as int) =~= s);
    start
}

/// Nothing in a text that is not closed is closed before.
proof fn lemma_open_throughout(s: Seq<char>, n: int)
    requires
        inside(s) == s,
        0 <= n <= s.len(),
    ensures
        nest(s.take(n)).1 >= 0,
    decreases s.len(),
{
    if n == s.len() {
        assert(s.take(n) =~= s);
        if s.len() > 0 {
            lemma_inside(s.drop_last());
        }
    } else {
        let front = s.drop_last();
        lemma_inside(front);
        assert(inside(front) =~= front);
        lemma_open_throughout(front, n);
        assert(front.take(n) =~= s.take(n));
    }
}

/// The packages that an entry asks for, given what follows its version: the names in the list
/// that stands before the name of the registry.
pub open spec fn deps_in(tail: Seq<char>) -> Seq<Seq<char>> {
    match last_list(inside(tail)).0 {
        None => Seq::empty(),
        Some(i) => atoms_in(inside(inside(tail).skip(i + 1))),
    }
}

/// The packages that an entry asks for, given what follows its version.
pub fn parse_deps_list(tail: &str) -> (r: Vec<String>)
    ensures
        r.deep_view() == deps_in(tail@),
{
    let mut out: Vec<String> = Vec::new();
    assert(out.deep_view() =~= Seq::empty());
    let whole: Vec<char> = text::chars(tail);
    assert(whole@.skip(0) =~= whole@);
    let own: Vec<char> = inner(&whole, 0);
    proof {
        lemma_inside_again(whole@);
    }
    let i: usize = match find_list(&own) {
        Some(i) => i,
        None => {
            return out;
        },
    };
    let list: Vec<char> = inner(&own, i + 1);
    let mut scan: String = text::text_of(&list, 0, list.len());
    assert(scan@ =~= list@);
    let ghost all = atoms_in(scan@);
    let mut more: bool = true;
    assert(out.deep_view() + all =~= all);
    while more
        invariant
            all == deps_in(tail@),
            more ==> out.deep_view() + atoms_in(scan@) == all,
            !more ==> out.deep_view() == all,
        decreases scan@.len(), (if more { 1int } else { 0int }),
    {
        proof {
            reveal_strlit("{:");
            cut::lemma_halves(scan@, "{:"@);
        }
        match cut::split_once(scan.as_str(), "{:") {
            None => {
                assert(out.deep_view() + atoms_in(scan@) =~= out.deep_view());
                more = false;
            },
            Some((_, atom)) => {
                let a: Vec<char> = text::chars(atom.as_str());
                let e: usize = cut::run(&a, 0, Class::Atom);
                let ghost before = out.deep_view();
                let name: String = text::text_of(&a, 0, e);
                let rest: String = text::text_of(&a, e, a.len());
                proof {
                    assert(a@.take(e as int) =~= a@.subrange(0, e as int));
                    assert(a@.skip(e as int) =~= a@.subrange(e as int, a@.len() as int));
                }
                if e > 0 {
                    out.push(name);
                    assert(out.deep_view() =~= before.push(name@));
                }
                proof {
                    let head = if e > 0 {
                        seq![name@]
                    } else {
                        Seq::empty()
                    };
                    assert(atoms_in(scan@) == head + atoms_in(rest@));
                    assert(out.deep_view() =~= before + head);
                    assert(out.deep_view() + atoms_in(rest@) =~= before + (head + atoms_in(rest@)));
                }
                scan = rest;
            },
        }
    }
    out
}

proof fn lemma_inside_again(s: Seq<char>)
    ensures
        inside(inside(s)) == inside(s),
    decreases s.len(),
{
    if s.len() > 0 {
        lemma_inside_again(s.drop_last());
        lemma_inside(s);
    }
}

/// An entry starts at `i`: a tuple that begins with `:hex` and a name. A package that depends on
/// one called `hex` has a text there.
pub open spec fn entry_at(s: Seq<char>, i: int) -> bool {
    &&& text::occurs_at(s, "{:hex,"@, i)
    &&& cut::run_end(s, i + 6, Class::White) < s.len()
    &&& s[cut::run_end(s, i + 6, Class::White)] == ':'
}

/// Where the next entry starts, at or after `from`; the end where there is none.
pub open spec fn next_entry(s: Seq<char>, from: int) -> int
    decreases s.len() - from,
{
    if from >= s.len() {
        s.len() as int
    } else if entry_at(s, from) {
        from
    } else {
        next_entry(s, from + 1)
    }
}

proof fn lemma_next_entry(s: Seq<char>, from: int)
    requires
        0 <= from <= s.len(),
    ensures
        from <= next_entry(s, from) <= s.len(),
    decreases s.len() - from,
{
    if from < s.len() && !entry_at(s, from) {
        lemma_next_entry(s, from + 1);
    }
}

fn find_entry(v: &Vec<char>) -> (r: usize)
    ensures
        r == next_entry(v@, 0),
        r <= v.len(),
{
    let mark: Vec<char> = text::chars("{:hex,");
    let mut i: usize = 0;
    proof {
        reveal_strlit("{:hex,");
    }
    while i < v.len()
        invariant
            i <= v.len(),
            mark@ == "{:hex,"@,
            mark@.len() == 6,
            next_entry(v@, i as int) == next_entry(v@, 0),
        decreases v.len() - i,
    {
        if text::stands_at(v, &mark, i) {
            let k: usize = cut::run(v, i + 6, Class::White);
            if k < v.len() && v[k] == ':' {
                return i;
            }
        }
        i += 1;
    }
    i
}

/// What belongs to an entry, of what follows its version: up to the bracket that closes the
/// entry, and never more than up to the next entry.
pub open spec fn own_part(tail: Seq<char>) -> Seq<char> {
    inside(tail.take(next_entry(tail, 0)))
}

pub proof fn lemma_own_part(tail: Seq<char>)
    ensures
        own_part(tail).len() <= tail.len(),
{
    lemma_next_entry(tail, 0);
    lemma_inside(tail.take(next_entry(tail, 0)));
}

/// The packages that a lockfile pins, in order; other tuples are passed over. Where a version is
/// not closed, nothing more is read.
pub open spec fn entries_in(rest: Seq<char>) -> Seq<RawEntryM>
    decreases rest.len(),
{
    match cut::halves(rest, "{:hex,"@) {
        None => Seq::empty(),
        Some((_, after)) => {
            let trimmed = cut::without_start(after, Class::White);
            proof {
                reveal_strlit("{:hex,");
                reveal_strlit(":");
                reveal_strlit("\"");
                cut::lemma_halves(rest, "{:hex,"@);
                cut::lemma_run_end(after, 0, Class::White);
            }
            match cut::after_prefix(trimmed, ":"@) {
                None => entries_in(trimmed),
                Some(atom) => {
                    let e = cut::run_end(atom, 0, Class::Ident);
                    let name = atom.take(e);
                    proof {
                        cut::lemma_run_end(atom, 0, Class::Ident);
                        cut::lemma_halves(atom.skip(e), "\""@);
                    }
                    match cut::halves(atom.skip(e), "\""@) {
                        None => Seq::empty(),
                        Some((_, vtail)) => {
                            proof {
                                cut::lemma_halves(vtail, "\""@);
                            }
                            match cut::halves(vtail, "\""@) {
                                None => Seq::empty(),
                                Some((version, tail)) => {
                                    let own = own_part(tail);
                                    proof {
                                        lemma_own_part(tail);
                                    }
                                    (if name.len() > 0 && version.len() > 0 {
                                        seq![RawEntryM { name, version, deps: deps_in(own) }]
                                    } else {
                                        Seq::empty()
                                    }) + entries_in(tail.skip(own.len() as int))
                                }
                            }
                        }
                    }
                }
            }
        }
    }
}

/// How one step of reading a lockfile ends: with what is left to read, or at the end.
enum Step {
    Next(String, Option<RawEntry>),
    End,
}

/// What a step contributes, and what is left.
spec fn step_entries(s: Step) -> Seq<RawEntryM> {
    match s {
        Step::Next(rest, Some(e)) => seq![e.deep_view()] + entries_in(rest@),
        Step::Next(rest, None) => entries_in(rest@),
        Step::End => Seq::empty(),
    }
}

fn read_entry(rest: &str) -> (r: Step)
    ensures
        step_entries(r) == entries_in(rest@),
        r matches Step::Next(next, _) ==> next@.len() < rest@.len(),
{
    proof {
        reveal_strlit("{:hex,");
        reveal_strlit(":");
        reveal_strlit("\"");
        cut::lemma_halves(rest@, "{:hex,"@);
    }
    let after: String = match cut::split_once(rest, "{:hex,") {
        Some((_, a)) => a,
        None => {
            return Step::End;
        },
    };
    proof {
        cut::lemma_run_end(after@, 0, Class::White);
    }
    let trimmed: String = cut::trim_start(after.as_str(), Class::White);
    let atom: String = match cut::strip_prefix(trimmed.as_str(), ":") {
        Some(a) => a,
        None => {
            return Step::Next(trimmed, None);
        },
    };
    let a: Vec<char> = text::chars(atom.as_str());
    let e: usize = cut::run(&a, 0, Class::Ident);
    let name: String = text::text_of(&a, 0, e);
    let tail: String = text::text_of(&a, e, a.len());
    proof {
        assert(a@.take(e as int) =~= a@.subrange(0, e as int));
        assert(a@.skip(e as int) =~= a@.subrange(e as int, a@.len() as int));
        cut::lemma_halves(tail@, "\""@);
    }
    let vtail: String = match cut::split_once(tail.as_str(), "\"") {
        Some((_, t)) => t,
        None => {
            return Step::End;
        },
    };
    proof {
        cut::lemma_halves(vtail@, "\""@);
    }
    match cut::split_once(vtail.as_str(), "\"") {
        None => Step::End,
        Some((version, behind)) => {
            proof {
                lemma_own_part(behind@);
            }
            let b: Vec<char> = text::chars(behind.as_str());
            let end: usize = find_entry(&b);
            let upto: String = text::text_of(&b, 0, end);
            assert(b@.take(end as int) =~= b@.subrange(0, end as int));
            let u: Vec<char> = text::chars(upto.as_str());
            assert(u@.skip(0) =~= u@);
            let own: Vec<char> = inner(&u, 0);
            let deps: Vec<String> = parse_deps_list(text::text_of(&own, 0, own.len()).as_str());
            assert(own@.subrange(0, own@.len() as int) =~= own@);
            let next: String = text::text_of(&b, own.len(), b.len());
            assert(b@.skip(own@.len() as int) =~= b@.subrange(
                own@.len() as int,
                b@.len() as int,
            ));
            if !name.as_str().is_empty() && !version.as_str().is_empty() {
                let entry = RawEntry { name, version, deps };
                Step::Next(next, Some(entry))
            } else {
                proof {
                    assert(Seq::<RawEntryM>::empty() + entries_in(next@) =~= entries_in(next@));
                }
                Step::Next(next, None)
            }
        },
    }
}

/// The packages that a lockfile pins, in order.
pub fn raw_entries(mix_lock: &str) -> (r: Vec<RawEntry>)
    ensures
        r.deep_view() == entries_in(mix_lock@),
{
    let mut out: Vec<RawEntry> = Vec::new();
    let mut rest: String = mix_lock.to_owned();
    let mut more: bool = true;
    proof {
        assert(out.deep_view() =~= Seq::empty());
        assert(out.deep_view() + entries_in(rest@) =~= entries_in(mix_lock@));
    }
    while more
        invariant
            more ==> out.deep_view() + entries_in(rest@) == entries_in(mix_lock@),
            !more ==> out.deep_view() == entries_in(mix_lock@),
        decreases rest@.len(), (if more { 1int } else { 0int }),
    {
        let ghost before = out.deep_view();
        match read_entry(rest.as_str()) {
            Step::End => {
                assert(before + entries_in(rest@) =~= before);
                more = false;
            },
            Step::Next(next, entry) => {
                if let Some(e) = entry {
                    out.push(e);
                    proof {
                        assert(out.deep_view() =~= before.push(e.deep_view()));
                        assert(out.deep_view() + entries_in(next@) =~= before + (seq![
                            e.deep_view(),
                        ] + entries_in(next@)));
                    }
                }
                rest = next;
            },
        }
    }
    out
}

/// The name that stands for the project itself.
pub const ROOT: &'static str = "(root)";

/// Every package that some entry asks for.
pub open spec fn asked_for(entries: Seq<RawEntryM>) -> Seq<Seq<char>>
    decreases entries.len(),
{
    if entries.len() == 0 {
        Seq::empty()
    } else {
        asked_for(entries.drop_last()) + entries.last().deps
    }
}

/// Which package asks for which: what the entries say, and the project for each package that no
/// other asks for.
pub open spec fn graph_of(entries: Seq<RawEntryM>, asked: Seq<Seq<char>>) -> DepGraphM
    decreases entries.len(),
{
    if entries.len() == 0 {
        DepGraphM { root: ROOT@, edges: Map::empty() }
    } else {
        let e = entries.last();
        let g = graph_of(entries.drop_last(), asked).with_edges(e.name, e.deps);
        if asked.contains(e.name) {
            g
        } else {
            g.with_edges(ROOT@, seq![e.name])
        }
    }
}

/// Packages by name, then by the text of the version.
pub struct ByNameAndVersion;

impl Order for ByNameAndVersion {
    type M = InstalledPackageM;

    type Item = InstalledPackage;

    open spec fn key(m: InstalledPackageM) -> Seq<int> {
        text::text_key(m.name) + text::text_key(m.version)
    }

    fn rel(a: &InstalledPackage, b: &InstalledPackage) -> (r: Rel) {
        proof {
            assert(a.deep_view().name == a.name@ && b.deep_view().name == b.name@);
            assert(a.deep_view().version == a.version@ && b.deep_view().version == b.version@);
            correlate::lemma_text_first(
                a.name@,
                b.name@,
                text::text_key(a.version@),
                text::text_key(b.version@),
            );
        }
        match text::rel_text(a.name.as_str(), b.name.as_str()) {
            Rel::Equal => text::rel_text(a.version.as_str(), b.version.as_str()),
            r => r,
        }
    }
}

/// Whether any of the packages is direct.
pub open spec fn any_direct(g: Seq<InstalledPackageM>) -> bool {
    exists|i: int| 0 <= i < g.len() && (#[trigger] g[i]).direct
}

/// One package of several with the same name and version: direct where any of them is.
pub open spec fn folded(g: Seq<InstalledPackageM>) -> InstalledPackageM {
    InstalledPackageM { name: g[0].name, version: g[0].version, direct: any_direct(g) }
}

/// The packages in order, each name and version once.
pub open spec fn deduped(packages: Seq<InstalledPackageM>) -> Seq<InstalledPackageM> {
    let g = order::groups::<ByNameAndVersion>(packages);
    Seq::new(g.len(), |i: int| folded(g[i]))
}

/// Sorts packages and makes one of several with the same name and version.
pub fn dedupe(packages: Vec<InstalledPackage>) -> (r: Vec<InstalledPackage>)
    ensures
        r.deep_view() == deduped(packages.deep_view()),
{
    let ghost all = order::groups::<ByNameAndVersion>(packages.deep_view());
    let ghost want = deduped(packages.deep_view());
    proof {
        order::lemma_groups::<ByNameAndVersion>(packages.deep_view());
    }
    let groups: Vec<Vec<InstalledPackage>> = order::group::<ByNameAndVersion>(packages);
    let mut out: Vec<InstalledPackage> = Vec::new();
    let mut i: usize = 0;
    proof {
        assert(out.deep_view() =~= want.take(0));
        assert(all.len() == groups.len());
    }
    while i < groups.len()
        invariant
            i <= groups.len(),
            all == groups.deep_view(),
            want == Seq::new(all.len(), |i: int| folded(all[i])),
            forall|k: int| 0 <= k < all.len() ==> (#[trigger] all[k]).len() > 0,
            out.deep_view() == want.take(i as int),
        decreases groups.len() - i,
    {
        let g: &Vec<InstalledPackage> = &groups[i];
        let ghost gm = g.deep_view();
        proof {
            assert(all[i as int] == gm);
            assert(gm.len() == g.len());
            assert(gm[0] == g[0].deep_view());
        }
        let mut direct: bool = false;
        let mut k: usize = 0;
        while k < g.len()
            invariant
                k <= g.len(),
                gm == g.deep_view(),
                direct == exists|j: int| 0 <= j < k && (#[trigger] gm[j]).direct,
            decreases g.len() - k,
        {
            assert(gm[k as int] == g[k as int].deep_view());
            if g[k].direct {
                direct = true;
            }
            k += 1;
        }
        let ghost before = out.deep_view();
        let p = InstalledPackage { name: g[0].name.clone(), version: g[0].version.clone(), direct };
        out.push(p);
        i += 1;
        proof {
            assert(p.deep_view() == folded(gm));
            assert(out.deep_view() =~= before.push(p.deep_view()));
            assert(want.take(i as int) =~= want.take(i - 1).push(want[i - 1]));
        }
    }
    assert(want.take(i as int) =~= want);
    out
}

/// The entries as packages: direct where no other asks for them.
pub open spec fn packages_of(entries: Seq<RawEntryM>) -> Seq<InstalledPackageM> {
    Seq::new(
        entries.len(),
        |i: int|
            InstalledPackageM {
                name: entries[i].name,
                version: entries[i].version,
                direct: !asked_for(entries).contains(entries[i].name),
            },
    )
}

/// The packages that a lockfile pins, in order and each once, and which package asks for which.
/// Those that no other asks for count as direct.
pub fn installed_packages(mix_lock: &str) -> (r: (Vec<InstalledPackage>, DepGraph))
    ensures
        r.0.deep_view() == deduped(packages_of(entries_in(mix_lock@))),
        r.1.deep_view() == graph_of(
            entries_in(mix_lock@),
            asked_for(entries_in(mix_lock@)),
        ),
{
    let entries: Vec<RawEntry> = raw_entries(mix_lock);
    let ghost all = entries.deep_view();
    let ghost asked = asked_for(all);
    let mut names: Vec<String> = Vec::new();
    let mut i: usize = 0;
    proof {
        assert(all.take(0) =~= Seq::empty());
        assert(names.deep_view() =~= Seq::empty());
    }
    while i < entries.len()
        invariant
            i <= entries.len(),
            all == entries.deep_view(),
            names.deep_view() == asked_for(all.take(i as int)),
        decreases entries.len() - i,
    {
        proof {
            assert(all.take(i + 1).drop_last() =~= all.take(i as int));
            assert(all.take(i + 1).last() == entries[i as int].deep_view());
        }
        value::append(&mut names, entries[i].deps.copy());
        i += 1;
    }
    assert(all.take(i as int) =~= all);
    let mut graph: DepGraph = DepGraph::new(ROOT.to_owned());
    let mut packages: Vec<InstalledPackage> = Vec::new();
    let ghost want = packages_of(all);
    let mut j: usize = 0;
    assert(packages.deep_view() =~= want.take(0));
    while j < entries.len()
        invariant
            j <= entries.len(),
            all == entries.deep_view(),
            asked == asked_for(all),
            names.deep_view() == asked,
            want == packages_of(all),
            graph.deep_view() == graph_of(all.take(j as int), asked),
            packages.deep_view() == want.take(j as int),
        decreases entries.len() - j,
    {
        let e: &RawEntry = &entries[j];
        proof {
            assert(all.take(j + 1).drop_last() =~= all.take(j as int));
            assert(all.take(j + 1).last() == e.deep_view());
            assert(all[j as int] == e.deep_view());
        }
        graph.add_edges(e.name.as_str(), e.deps.copy());
        let direct: bool = !value::holds_text(&names, e.name.as_str());
        if direct {
            let mut one: Vec<String> = Vec::new();
            one.push(e.name.clone());
            assert(one.deep_view() =~= seq![e.name@]);
            graph.add_edges(ROOT, one);
        }
        let ghost before = packages.deep_view();
        let p = InstalledPackage { name: e.name.clone(), version: e.version.clone(), direct };
        packages.push(p);
        j += 1;
        proof {
            assert(p.deep_view() == want[j - 1]);
            assert(packages.deep_view() =~= before.push(p.deep_view()));
            assert(want.take(j as int) =~= want.take(j - 1).push(want[j - 1]));
        }
    }
    proof {
        assert(all.take(j as int) =~= all);
        assert(want.take(j as int) =~= want);
    }
    (dedupe(packages), graph)
}

/// A package is direct exactly where no entry asks for it.
pub proof fn direct_means_not_asked_for(entries: Seq<RawEntryM>, i: int)
    requires
        0 <= i < entries.len(),
    ensures
        packages_of(entries)[i].direct == forall|k: int|
            0 <= k < entries.len() ==> !(#[trigger] entries[k]).deps.contains(entries[i].name),
{
    lemma_asked_for(entries, entries[i].name);
}

proof fn lemma_asked_for(entries: Seq<RawEntryM>, name: Seq<char>)
    ensures
        asked_for(entries).contains(name) == exists|k: int|
            0 <= k < entries.len() && (#[trigger] entries[k]).deps.contains(name),
    decreases entries.len(),
{
    if entries.len() > 0 {
        let l = entries.drop_last();
        let a = asked_for(l);
        let d = entries.last().deps;
        lemma_asked_for(l, name);
        if a.contains(name) {
            let k = choose|k: int| 0 <= k < l.len() && (#[trigger] l[k]).deps.contains(name);
            assert(entries[k] == l[k]);
            let j = choose|j: int| 0 <= j < a.len() && a[j] == name;
            assert((a + d)[j] == name);
        }
        if d.contains(name) {
            let j = choose|j: int| 0 <= j < d.len() && d[j] == name;
            assert((a + d)[a.len() + j] == name);
            assert(entries[entries.len() - 1].deps.contains(name));
        }
        if (a + d).contains(name) && !a.contains(name) {
            let j = choose|j: int| 0 <= j < (a + d).len() && (a + d)[j] == name;
            if j < a.len() {
                assert(a[j] == name);
            } else {
                assert(d[j - a.len()] == name);
            }
        }
        if exists|k: int| 0 <= k < entries.len() && (#[trigger] entries[k]).deps.contains(name) {
            let k = choose|k: int|
                0 <= k < entries.len() && (#[trigger] entries[k]).deps.contains(name);
            if k < l.len() {
                assert(l[k] == entries[k]);
            }
        }
    }
}

/// The packages of a lockfile are in order, and no name and version is there twice.
pub proof fn installed_packages_are_distinct(packages: Seq<InstalledPackageM>, i: int, j: int)
    requires
        0 <= i < j < deduped(packages).len(),
    ensures
        order::lex_lt(
            ByNameAndVersion::key(deduped(packages)[i]),
            ByNameAndVersion::key(deduped(packages)[j]),
        ),
{
    order::lemma_groups::<ByNameAndVersion>(packages);
    let g = order::groups::<ByNameAndVersion>(packages);
    assert(g[i].len() > 0 && g[j].len() > 0);
    assert(ByNameAndVersion::key(folded(g[i])) == order::group_key::<ByNameAndVersion>(g[i]));
    assert(ByNameAndVersion::key(folded(g[j])) == order::group_key::<ByNameAndVersion>(g[j]));
}

/// Names are not empty and start as identifiers do, so that none is that of the project.
proof fn lemma_names(rest: Seq<char>, i: int)
    requires
        0 <= i < entries_in(rest).len(),
    ensures
        entries_in(rest)[i].name != ROOT@,
    decreases rest.len(),
{
    reveal_strlit("{:hex,");
    reveal_strlit(":");
    reveal_strlit("\"");
    reveal_strlit("(root)");
    cut::lemma_halves(rest, "{:hex,"@);
    let (_, after) = cut::halves(rest, "{:hex,"@)->0;
    let trimmed = cut::without_start(after, Class::White);
    cut::lemma_run_end(after, 0, Class::White);
    match cut::after_prefix(trimmed, ":"@) {
        None => {
            lemma_names(trimmed, i);
        },
        Some(atom) => {
            let e = cut::run_end(atom, 0, Class::Ident);
            cut::lemma_run_end(atom, 0, Class::Ident);
            cut::lemma_halves(atom.skip(e), "\""@);
            let (_, vtail) = cut::halves(atom.skip(e), "\""@)->0;
            cut::lemma_halves(vtail, "\""@);
            let (version, tail) = cut::halves(vtail, "\""@)->0;
            let own = own_part(tail);
            lemma_own_part(tail);
            let name = atom.take(e);
            let rest2 = tail.skip(own.len() as int);
            if name.len() > 0 && version.len() > 0 {
                if i == 0 {
                    assert(name[0] == atom[0]);
                    assert(ROOT@[0] == '(');
                } else {
                    lemma_names(rest2, i - 1);
                }
            } else {
                lemma_names(rest2, i);
            }
        },
    }
}

/// The project asks for the packages that no entry asks for, and for nothing else.
proof fn lemma_root_asks(entries: Seq<RawEntryM>, asked: Seq<Seq<char>>, x: Seq<char>)
    requires
        forall|i: int| 0 <= i < entries.len() ==> (#[trigger] entries[i]).name != ROOT@,
    ensures
        graph_of(entries, asked).root == ROOT@,
        graph_of(entries, asked).asks(ROOT@, x) == (!asked.contains(x) && exists|i: int|
            0 <= i < entries.len() && (#[trigger] entries[i]).name == x),
    decreases entries.len(),
{
    if entries.len() > 0 {
        let l = entries.drop_last();
        let e = entries.last();
        assert(e == entries[entries.len() - 1]);
        assert forall|i: int| 0 <= i < l.len() implies (#[trigger] l[i]).name != ROOT@ by {
            assert(l[i] == entries[i]);
        }
        lemma_root_asks(l, asked, x);
        let g = graph_of(l, asked);
        let h = g.with_edges(e.name, e.deps);
        assert(h.asks(ROOT@, x) == g.asks(ROOT@, x));
        let mine: Seq<Seq<char>> = if h.edges.dom().contains(ROOT@) {
            h.edges[ROOT@]
        } else {
            Seq::empty()
        };
        let more = mine + seq![e.name];
        value::lemma_text_set(more);
        assert(more.contains(x) == (mine.contains(x) || x == e.name)) by {
            if mine.contains(x) {
                let j = choose|j: int| 0 <= j < mine.len() && mine[j] == x;
                assert(more[j] == x);
            }
            assert(more[mine.len() as int] == e.name);
            if more.contains(x) && x != e.name {
                let j = choose|j: int| 0 <= j < more.len() && more[j] == x;
                assert(mine[j] == x);
            }
        }
        if exists|i: int| 0 <= i < l.len() && (#[trigger] l[i]).name == x {
            let i = choose|i: int| 0 <= i < l.len() && (#[trigger] l[i]).name == x;
            assert(entries[i].name == x);
        }
        if exists|i: int| 0 <= i < entries.len() && (#[trigger] entries[i]).name == x {
            let i = choose|i: int| 0 <= i < entries.len() && (#[trigger] entries[i]).name == x;
            if i < l.len() {
                assert(l[i].name == x);
            }
        }
    }
}

/// A package of a lockfile is direct exactly where the chain to it is the project and itself.
pub proof fn direct_means_a_chain_of_two(mix_lock: Seq<char>, i: int, c: Seq<Seq<char>>)
    requires
        0 <= i < pinned(mix_lock).len(),
        graph_of(entries_in(mix_lock), asked_for(entries_in(mix_lock))).is_answer(
            c,
            pinned(mix_lock)[i].name,
        ),
    ensures
        pinned(mix_lock)[i].direct == (c == seq![ROOT@, pinned(mix_lock)[i].name]),
{
    let entries = entries_in(mix_lock);
    let asked = asked_for(entries);
    let packages = packages_of(entries);
    let gs = order::groups::<ByNameAndVersion>(packages);
    order::lemma_groups::<ByNameAndVersion>(packages);
    let g = gs[i];
    let name = g[0].name;
    assert(pinned(mix_lock)[i] == folded(g));
    assert(order::one_key::<ByNameAndVersion>(g));
    let k = order::group_key::<ByNameAndVersion>(g);
    assert(g == order::with_key::<ByNameAndVersion>(packages, k));
    assert forall|j: int| 0 <= j < g.len() implies packages.contains(#[trigger] g[j])
        && g[j].name == name && g[j].direct == !asked.contains(name) by {
        assert(g.contains(g[j]));
        packages.lemma_filter_contains_rev(order::key_is::<ByNameAndVersion>(k), g[j]);
        assert(ByNameAndVersion::key(g[j]) == k);
        correlate::lemma_text_first(
            g[j].name,
            name,
            text::text_key(g[j].version),
            text::text_key(g[0].version),
        );
        let h = choose|h: int| 0 <= h < packages.len() && packages[h] == g[j];
        assert(packages[h].name == entries[h].name);
    }
    assert(g[0].name == name);
    assert(any_direct(g) == !asked.contains(name)) by {
        if !asked.contains(name) {
            assert(g[0].direct);
        }
    }
    let h = choose|h: int| 0 <= h < packages.len() && packages[h] == g[0];
    assert(entries[h].name == name);
    assert forall|j: int| 0 <= j < entries.len() implies (#[trigger] entries[j]).name
        != ROOT@ by {
        lemma_names(mix_lock, j);
    }
    lemma_root_asks(entries, asked, name);
    let graph = graph_of(entries, asked);
    let two = seq![ROOT@, name];
    if !asked.contains(name) {
        assert(graph.asks(two[0], two[1]));
        assert(graph.is_chain(two));
        assert(two.last() == name);
        assert(graph.leads_to(two, name));
        assert(graph.first_shortest(c, name));
        assert(c.len() <= 2);
        assert(c[0] == ROOT@ && c.last() == name);
        assert(c.len() == 2);
        assert(c =~= two);
    } else if c == two {
        assert(graph.first_shortest(c, name));
        assert(graph.asks(c[0], c[0int + 1]));
    }
}

// --- The mirror ---

/// How Elixir packages are read from advisory records: semantic versions, names as they are.
pub struct HexVersions;

impl Order for HexVersions {
    type M = VersionM;

    type Item = Version;

    open spec fn key(m: VersionM) -> Seq<int> {
        version::version_key(m)
    }

    fn rel(a: &Version, b: &Version) -> (r: Rel) {
        a.rel(b)
    }
}

impl Scheme for HexVersions {
    open spec fn bound(t: Seq<char>) -> Option<VersionM> {
        if t == "0"@ {
            Some(version::release(0, 0, 0))
        } else {
            version::semver_version(go::unmarked(t))
        }
    }

    open spec fn reached(v: VersionM, introduced: VersionM) -> bool {
        version::version_le(introduced, v)
    }

    fn copy_version(v: &Version) -> (r: Version) {
        v.clone()
    }

    fn parse_bound(t: &str) -> (r: Option<Version>) {
        if text::same(t, "0") {
            Some(Version::new(0, 0, 0))
        } else {
            Version::parse(go::strip_v(t).as_str())
        }
    }

    fn at_or_after_introduced(v: &Version, introduced: &Version) -> (r: bool) {
        !v.before(introduced)
    }
}

impl Spec for HexVersions {
    open spec fn ecosystem_name() -> Seq<char> {
        "Hex"@
    }

    open spec fn range_kind() -> Seq<char> {
        "SEMVER"@
    }

    open spec fn uses_versions() -> bool {
        true
    }

    open spec fn normalized(name: Seq<char>) -> Seq<char> {
        name
    }

    fn ecosystem() -> (r: &'static str) {
        "Hex"
    }

    fn range_type() -> (r: &'static str) {
        "SEMVER"
    }

    fn use_versions() -> (r: bool) {
        true
    }

    fn normalize_name(name: &str) -> (r: String) {
        name.to_owned()
    }
}

/// A mirror of the advisories about Elixir packages.
#[derive(Debug)]
pub struct HexDb(pub OsvDb<Version>);

/// What the records add to the index, record by record.
pub open spec fn index_of(records: Seq<OsvRecordM>) -> Seq<Seq<(Seq<char>, AdvisoryM<VersionM>)>> {
    Seq::new(
        records.len(),
        |i: int|
            osv::indexed_all::<HexVersions>(
                records[i],
                osv::severity_given(
                    osv::record_label(records[i]),
                    osv::record_scores(records[i]),
                ),
                records[i].affected,
            ),
    )
}

impl HexDb {
    /// The database of the records.
    pub fn from_records(records: &Vec<OsvRecord>) -> (r: HexDb)
        ensures
            osv::is_index(r.0.deep_view(), index_of(records.deep_view()).flatten()),
    {
        let ghost want = index_of(records.deep_view());
        let mut per_file: Vec<Vec<(String, Advisory<Version>)>> = Vec::new();
        let mut i: usize = 0;
        assert(per_file.deep_view() =~= want.take(0));
        while i < records.len()
            invariant
                i <= records.len(),
                want == index_of(records.deep_view()),
                per_file.deep_view() == want.take(i as int),
            decreases records.len() - i,
        {
            let ghost before = per_file.deep_view();
            let one = osv::advisories_from::<HexVersions>(&records[i]);
            per_file.push(one);
            i += 1;
            proof {
                assert(per_file.deep_view() =~= before.push(one.deep_view()));
                assert(want.take(i as int) =~= want.take(i - 1).push(want[i - 1]));
            }
        }
        assert(want.take(i as int) =~= want);
        HexDb(OsvDb::from_records(per_file))
    }

    /// The advisories about a package.
    pub fn advisories_for(&self, package: &str) -> (r: &Vec<Advisory<Version>>)
        ensures
            r.deep_view() == osv::advisories_of(self.0.deep_view(), package@),
    {
        self.0.advisories_for(package)
    }

    /// How many advisories are indexed, each package counting its own.
    pub fn len(&self) -> (r: usize)
        requires
            osv::entry_count(self.0.deep_view(), osv::sorted_names(self.0.deep_view()))
                <= usize::MAX,
        ensures
            r == osv::entry_count(self.0.deep_view(), osv::sorted_names(self.0.deep_view())),
    {
        self.0.len()
    }

    /// Whether no advisory is indexed.
    pub fn is_empty(&self) -> (r: bool)
        ensures
            r == (self.0.deep_view() == Map::<Seq<char>, Seq<AdvisoryM<VersionM>>>::empty()),
    {
        self.0.is_empty()
    }
}

// --- Scanning ---

/// The version of an installed package that a text spells.
pub open spec fn hex_version(raw: Seq<char>) -> Option<VersionM> {
    version::semver_version(go::unmarked(cut::trimmed(raw)))
}

/// Reads the version of an installed package.
pub fn parse_hex_version(raw: &str) -> (r: Option<Version>)
    ensures
        r.deep_view() == hex_version(raw@),
{
    Version::parse(go::strip_v(cut::trim(raw).as_str()).as_str())
}

pub open spec fn title_of(adv: AdvisoryM<VersionM>) -> Seq<char> {
    match adv.summary {
        Some(s) => s,
        None => adv.id,
    }
}

/// The finding for a package, where the advisory affects its version.
pub open spec fn matched(
    adv: AdvisoryM<VersionM>,
    pkg: InstalledPackageM,
    v: VersionM,
    chain: Seq<Seq<char>>,
    repo: Seq<char>,
) -> Option<VulnFindingM> {
    match tier_c::hit::<HexVersions>(adv, v) {
        None => None,
        Some(fixed) => Some(
            osv::tier_c_finding(
                TierCFindingM {
                    ecosystem: Ecosystem::Hex,
                    advisory_id: adv.id,
                    aliases: adv.aliases,
                    title: title_of(adv),
                    severity: adv.severity,
                    cvss_score: adv.cvss_score,
                    package: pkg.name,
                    installed: v,
                    patched: tier_c::patched_from(fixed),
                    direct: pkg.direct,
                    dependency_path: chain,
                    repo,
                    reach_reason: "package-level scan (no toolchain): version match only"@,
                },
            ),
        ),
    }
}

/// Makes a finding where the advisory affects the version of the package.
pub fn match_advisory(
    adv: &Advisory<Version>,
    pkg: &InstalledPackage,
    v: &Version,
    chain: &Vec<String>,
    repo: &RepoId,
) -> (r: Option<VulnFinding>)
    ensures
        r.deep_view() == matched(
            adv.deep_view(),
            pkg.deep_view(),
            v.deep_view(),
            chain.deep_view(),
            repo.deep_view(),
        ),
        tier_c::hit::<HexVersions>(adv.deep_view(), v.deep_view()) matches Some(fixed)
            && tier_c::before_fix(v.deep_view(), fixed) ==> (r.deep_view() matches Some(x)
            && finding::vulnerable(x.occurrences[0])),
{
    let fixed: Option<Version> = match tier_c::match_version::<HexVersions>(adv, v) {
        Some(f) => f,
        None => {
            return None;
        },
    };
    let title: String = match &adv.summary {
        Some(s) => s.clone(),
        None => adv.id.clone(),
    };
    let patched: Vec<VersionReq> = tier_c::patched_by(&fixed);
    proof {
        use_type_invariant(v);
        let safe = patched.deep_view();
        if let Some(f) = fixed.deep_view() {
            version::numbers_decide_first(v.deep_view(), f);
            if tier_c::before_fix(v.deep_view(), Some(f)) {
                assert(!version::semver_satisfies(safe[0], v.deep_view()));
                assert(!finding::safe(safe, v.deep_view()));
            }
        }
    }
    let f = TierCFinding {
        ecosystem: Ecosystem::Hex,
        advisory_id: adv.id.clone(),
        aliases: adv.aliases.copy(),
        title,
        severity: adv.severity,
        cvss_score: adv.cvss_score,
        package: pkg.name.clone(),
        installed: v.clone(),
        patched,
        direct: pkg.direct,
        dependency_path: chain.copy(),
        repo,
        reach_reason: "package-level scan (no toolchain): version match only",
    };
    Some(f.build())
}

pub open spec fn matched_advisories(
    advs: Seq<AdvisoryM<VersionM>>,
    pkg: InstalledPackageM,
    v: VersionM,
    chain: Seq<Seq<char>>,
    repo: Seq<char>,
) -> Seq<VulnFindingM>
    decreases advs.len(),
{
    if advs.len() == 0 {
        Seq::empty()
    } else {
        let front = matched_advisories(advs.drop_last(), pkg, v, chain, repo);
        match matched(advs.last(), pkg, v, chain, repo) {
            Some(f) => front.push(f),
            None => front,
        }
    }
}

/// The findings for the packages whose version can be read.
pub open spec fn matched_packages(
    db: Map<Seq<char>, Seq<AdvisoryM<VersionM>>>,
    packages: Seq<InstalledPackageM>,
    graph: DepGraphM,
    repo: Seq<char>,
) -> Seq<VulnFindingM>
    decreases packages.len(),
{
    if packages.len() == 0 {
        Seq::empty()
    } else {
        let front = matched_packages(db, packages.drop_last(), graph, repo);
        let p = packages.last();
        match hex_version(p.version) {
            Some(v) => front + matched_advisories(
                osv::advisories_of(db, p.name),
                p,
                v,
                graph.chain(p.name),
                repo,
            ),
            None => front,
        }
    }
}

/// How many packages have a version that cannot be read.
pub open spec fn unreadable_in(packages: Seq<InstalledPackageM>) -> nat
    decreases packages.len(),
{
    if packages.len() == 0 {
        0
    } else {
        unreadable_in(packages.drop_last()) + (if hex_version(packages.last().version) is None {
            1nat
        } else {
            0nat
        })
    }
}

/// What matching a lockfile against the mirror comes to.
pub open spec fn scanned(
    db: Map<Seq<char>, Seq<AdvisoryM<VersionM>>>,
    mix_lock: Seq<char>,
    repo: Seq<char>,
) -> TierCScanM {
    let entries = entries_in(mix_lock);
    TierCScanM {
        findings: osv::ordered_findings(
            matched_packages(db, pinned(mix_lock), graph_of(entries, asked_for(entries)), repo),
        ),
        skipped_unparseable: unreadable_in(pinned(mix_lock)) as u32,
    }
}

fn collect_matched(
    advs: &Vec<Advisory<Version>>,
    pkg: &InstalledPackage,
    v: &Version,
    chain: &Vec<String>,
    repo: &RepoId,
) -> (r: Vec<VulnFinding>)
    ensures
        r.deep_view() == matched_advisories(
            advs.deep_view(),
            pkg.deep_view(),
            v.deep_view(),
            chain.deep_view(),
            repo.deep_view(),
        ),
{
    let ghost all = advs.deep_view();
    let mut r: Vec<VulnFinding> = Vec::new();
    let mut i: usize = 0;
    proof {
        assert(all.take(0) =~= Seq::empty());
        assert(r.deep_view() =~= Seq::empty());
    }
    while i < advs.len()
        invariant
            i <= advs.len(),
            all == advs.deep_view(),
            r.deep_view() == matched_advisories(
                all.take(i as int),
                pkg.deep_view(),
                v.deep_view(),
                chain.deep_view(),
                repo.deep_view(),
            ),
        decreases advs.len() - i,
    {
        proof {
            assert(all.take(i + 1).drop_last() =~= all.take(i as int));
            assert(all.take(i + 1).last() == advs[i as int].deep_view());
        }
        if let Some(f) = match_advisory(&advs[i], pkg, v, chain, repo) {
            let ghost before = r.deep_view();
            r.push(f);
            assert(r.deep_view() =~= before.push(f.deep_view()));
        }
        i += 1;
    }
    assert(all.take(i as int) =~= all);
    r
}

proof fn lemma_unreadable_grows(packages: Seq<InstalledPackageM>, n: int)
    requires
        0 <= n <= packages.len(),
    ensures
        unreadable_in(packages.take(n)) <= unreadable_in(packages),
    decreases packages.len(),
{
    if n < packages.len() {
        lemma_unreadable_grows(packages.drop_last(), n);
        assert(packages.drop_last().take(n) =~= packages.take(n));
    } else {
        assert(packages.take(n) =~= packages);
    }
}

/// The packages that a lockfile pins, in order and each once.
pub open spec fn pinned(mix_lock: Seq<char>) -> Seq<InstalledPackageM> {
    deduped(packages_of(entries_in(mix_lock)))
}

/// How many packages of a lockfile have a version that cannot be read.
pub fn count_unreadable(mix_lock: &str) -> (r: usize)
    ensures
        r == unreadable_in(pinned(mix_lock@)),
{
    let (packages, _) = installed_packages(mix_lock);
    let ghost all = packages.deep_view();
    let mut n: usize = 0;
    let mut i: usize = 0;
    assert(all.take(0) =~= Seq::empty());
    while i < packages.len()
        invariant
            i <= packages.len(),
            all == packages.deep_view(),
            n == unreadable_in(all.take(i as int)),
            n <= i,
        decreases packages.len() - i,
    {
        proof {
            assert(all.take(i + 1).drop_last() =~= all.take(i as int));
            assert(all.take(i + 1).last() == packages[i as int].deep_view());
        }
        if parse_hex_version(packages[i].version.as_str()).is_none() {
            n += 1;
        }
        i += 1;
    }
    assert(all.take(i as int) =~= all);
    n
}

/// Matches what a lockfile pins against the mirror.
pub fn scan_offline(mix_lock: &str, db: &HexDb, repo: &RepoId) -> (r: TierCScan)
    requires
        unreadable_in(pinned(mix_lock@)) <= u32::MAX,
    ensures
        r.deep_view() == scanned(db.0.deep_view(), mix_lock@, repo.deep_view()),
{
    let (packages, graph) = installed_packages(mix_lock);
    let ghost all = packages.deep_view();
    let mut out: Vec<VulnFinding> = Vec::new();
    let mut skipped_unparseable: u32 = 0;
    let mut i: usize = 0;
    proof {
        assert(all.take(0) =~= Seq::empty());
        assert(out.deep_view() =~= Seq::empty());
    }
    while i < packages.len()
        invariant
            i <= packages.len(),
            all == packages.deep_view(),
            unreadable_in(all) <= u32::MAX,
            out.deep_view() == matched_packages(
                db.0.deep_view(),
                all.take(i as int),
                graph.deep_view(),
                repo.deep_view(),
            ),
            skipped_unparseable == unreadable_in(all.take(i as int)),
        decreases packages.len() - i,
    {
        let p: &InstalledPackage = &packages[i];
        proof {
            assert(all.take(i + 1).drop_last() =~= all.take(i as int));
            assert(all.take(i + 1).last() == p.deep_view());
            lemma_unreadable_grows(all, i + 1);
        }
        match parse_hex_version(p.version.as_str()) {
            None => {
                skipped_unparseable += 1;
            },
            Some(v) => {
                let chain: Vec<String> = graph.chain_to(p.name.as_str());
                let more: Vec<VulnFinding> = collect_matched(
                    db.advisories_for(p.name.as_str()),
                    p,
                    &v,
                    &chain,
                    repo,
                );
                value::append(&mut out, more);
            },
        }
        i += 1;
    }
    assert(all.take(i as int) =~= all);
    osv::sort_dedup_findings(&mut out);
    TierCScan { findings: out, skipped_unparseable }
}

/// Matches what a lockfile pins against the mirror, as long as the packages whose version cannot
/// be read can be counted.
pub fn try_scan_offline(mix_lock: &str, db: &HexDb, repo: &RepoId) -> (r: Option<TierCScan>)
    ensures
        r.deep_view() == (if unreadable_in(pinned(mix_lock@)) <= u32::MAX {
            Some(scanned(db.0.deep_view(), mix_lock@, repo.deep_view()))
        } else {
            None
        }),
{
    if count_unreadable(mix_lock) <= 0xffff_ffff {
        Some(scan_offline(mix_lock, db, repo))
    } else {
        None
    }
}

proof fn lemma_matched_advisories(
    advs: Seq<AdvisoryM<VersionM>>,
    pkg: InstalledPackageM,
    v: VersionM,
    chain: Seq<Seq<char>>,
    repo: Seq<char>,
)
    ensures
        osv::all_version_matches(
            matched_advisories(advs, pkg, v, chain, repo),
            Ecosystem::Hex,
            repo,
        ),
    decreases advs.len(),
{
    if advs.len() > 0 {
        lemma_matched_advisories(advs.drop_last(), pkg, v, chain, repo);
    }
}

proof fn lemma_matched_packages(
    db: Map<Seq<char>, Seq<AdvisoryM<VersionM>>>,
    packages: Seq<InstalledPackageM>,
    graph: DepGraphM,
    repo: Seq<char>,
)
    ensures
        osv::all_version_matches(
            matched_packages(db, packages, graph, repo),
            Ecosystem::Hex,
            repo,
        ),
    decreases packages.len(),
{
    if packages.len() > 0 {
        lemma_matched_packages(db, packages.drop_last(), graph, repo);
        let p = packages.last();
        if let Some(v) = hex_version(p.version) {
            lemma_matched_advisories(
                osv::advisories_of(db, p.name),
                p,
                v,
                graph.chain(p.name),
                repo,
            );
        }
    }
}

/// A version match never proves that code cannot run: every finding of a scan is undecided. It
/// is at one place, in the repository that was scanned.
pub proof fn version_match_is_unknown(
    db: Map<Seq<char>, Seq<AdvisoryM<VersionM>>>,
    mix_lock: Seq<char>,
    repo: Seq<char>,
)
    ensures
        osv::all_version_matches(
            scanned(db, mix_lock, repo).findings,
            Ecosystem::Hex,
            repo,
        ),
{
    let entries = entries_in(mix_lock);
    let packages = deduped(packages_of(entries));
    let graph = graph_of(entries, asked_for(entries));
    lemma_matched_packages(db, packages, graph, repo);
    osv::lemma_ordered_matches(
        matched_packages(db, packages, graph, repo),
        Ecosystem::Hex,
        repo,
    );
}

proof fn lemma_from_advisory(
    advs: Seq<AdvisoryM<VersionM>>,
    pkg: InstalledPackageM,
    v: VersionM,
    chain: Seq<Seq<char>>,
    repo: Seq<char>,
    x: VulnFindingM,
) -> (a: int)
    requires
        matched_advisories(advs, pkg, v, chain, repo).contains(x),
    ensures
        0 <= a < advs.len(),
        matched(advs[a], pkg, v, chain, repo) == Some(x),
    decreases advs.len(),
{
    let all = matched_advisories(advs, pkg, v, chain, repo);
    let l = advs.drop_last();
    let front = matched_advisories(l, pkg, v, chain, repo);
    let i = choose|i: int| 0 <= i < all.len() && all[i] == x;
    if i < front.len() {
        assert(front[i] == x);
        let a = lemma_from_advisory(l, pkg, v, chain, repo, x);
        assert(l[a] == advs[a]);
        a
    } else {
        advs.len() - 1
    }
}

proof fn lemma_from_package(
    db: Map<Seq<char>, Seq<AdvisoryM<VersionM>>>,
    packages: Seq<InstalledPackageM>,
    graph: DepGraphM,
    repo: Seq<char>,
    x: VulnFindingM,
) -> (p: int)
    requires
        matched_packages(db, packages, graph, repo).contains(x),
    ensures
        0 <= p < packages.len(),
        hex_version(packages[p].version) matches Some(v) && matched_advisories(
            osv::advisories_of(db, packages[p].name),
            packages[p],
            v,
            graph.chain(packages[p].name),
            repo,
        ).contains(x),
    decreases packages.len(),
{
    let all = matched_packages(db, packages, graph, repo);
    let l = packages.drop_last();
    let front = matched_packages(db, l, graph, repo);
    let i = choose|i: int| 0 <= i < all.len() && all[i] == x;
    if i < front.len() {
        assert(front[i] == x);
        let p = lemma_from_package(db, l, graph, repo, x);
        assert(l[p] == packages[p]);
        p
    } else {
        let q = packages.last();
        let v = hex_version(q.version)->0;
        let back = matched_advisories(
            osv::advisories_of(db, q.name),
            q,
            v,
            graph.chain(q.name),
            repo,
        );
        assert(back[i - front.len()] == x);
        packages.len() - 1
    }
}

proof fn lemma_advisory_stays(
    advs: Seq<AdvisoryM<VersionM>>,
    pkg: InstalledPackageM,
    v: VersionM,
    chain: Seq<Seq<char>>,
    repo: Seq<char>,
    a: int,
)
    requires
        0 <= a < advs.len(),
    ensures
        matched(advs[a], pkg, v, chain, repo) matches Some(x) ==> matched_advisories(
            advs,
            pkg,
            v,
            chain,
            repo,
        ).contains(x),
    decreases advs.len(),
{
    if let Some(x) = matched(advs[a], pkg, v, chain, repo) {
        let l = advs.drop_last();
        let all = matched_advisories(advs, pkg, v, chain, repo);
        let front = matched_advisories(l, pkg, v, chain, repo);
        if a < l.len() {
            assert(l[a] == advs[a]);
            lemma_advisory_stays(l, pkg, v, chain, repo, a);
            let i = choose|i: int| 0 <= i < front.len() && front[i] == x;
            assert(all[i] == x);
        } else {
            assert(all[front.len() as int] == x);
        }
    }
}

proof fn lemma_package_stays(
    db: Map<Seq<char>, Seq<AdvisoryM<VersionM>>>,
    packages: Seq<InstalledPackageM>,
    graph: DepGraphM,
    repo: Seq<char>,
    p: int,
    x: VulnFindingM,
)
    requires
        0 <= p < packages.len(),
        hex_version(packages[p].version) matches Some(v) && matched_advisories(
            osv::advisories_of(db, packages[p].name),
            packages[p],
            v,
            graph.chain(packages[p].name),
            repo,
        ).contains(x),
    ensures
        matched_packages(db, packages, graph, repo).contains(x),
    decreases packages.len(),
{
    let l = packages.drop_last();
    let all = matched_packages(db, packages, graph, repo);
    let front = matched_packages(db, l, graph, repo);
    if p < l.len() {
        assert(l[p] == packages[p]);
        lemma_package_stays(db, l, graph, repo, p, x);
        let i = choose|i: int| 0 <= i < front.len() && front[i] == x;
        assert(all[i] == x);
    } else {
        let q = packages.last();
        let back = matched_advisories(
            osv::advisories_of(db, q.name),
            q,
            hex_version(q.version)->0,
            graph.chain(q.name),
            repo,
        );
        let i = choose|i: int| 0 <= i < back.len() && back[i] == x;
        assert(all[front.len() + i] == x);
    }
}

/// Whether a finding comes of a package that is installed and an advisory that hits it: it tells
/// what the advisory says of it, how the package comes in, and where.
pub open spec fn comes_of(
    db: Map<Seq<char>, Seq<AdvisoryM<VersionM>>>,
    p: InstalledPackageM,
    a: int,
    graph: DepGraphM,
    repo: Seq<char>,
    x: VulnFindingM,
) -> bool {
    &&& db.dom().contains(p.name)
    &&& 0 <= a < db[p.name].len()
    &&& hex_version(p.version) matches Some(v) && tier_c::hit::<HexVersions>(db[p.name][a], v)
        matches Some(fixed) && tier_c::tells(x, db[p.name][a], fixed, p.name, v)
    &&& x.occurrences[0] matches OccurrenceM::InRepo {
        repo: at,
        dependency_kind,
        dependency_path,
        ..
    } && at == repo && (dependency_kind == DependencyKind::Direct) == p.direct && dependency_path
        == graph.chain(p.name)
}

/// Every finding of a scan comes of an installed package and an advisory that hits it. Where
/// that names a fix, what is safe is one bound from the fix on; where it names none, nothing is.
pub proof fn every_finding_is_a_hit(
    db: Map<Seq<char>, Seq<AdvisoryM<VersionM>>>,
    mix_lock: Seq<char>,
    repo: Seq<char>,
    j: int,
)
    requires
        0 <= j < scanned(db, mix_lock, repo).findings.len(),
    ensures
        exists|p: int, a: int|
            0 <= p < pinned(mix_lock).len() && #[trigger] comes_of(
                db,
                pinned(mix_lock)[p],
                a,
                graph_of(entries_in(mix_lock), asked_for(entries_in(mix_lock))),
                repo,
                scanned(db, mix_lock, repo).findings[j],
            ),
{
    let entries = entries_in(mix_lock);
    let graph = graph_of(entries, asked_for(entries));
    let packages = pinned(mix_lock);
    let s = matched_packages(db, packages, graph, repo);
    let x = scanned(db, mix_lock, repo).findings[j];
    osv::ordered_findings_are_distinct(s);
    assert(s.contains(osv::ordered_findings(s)[j]));
    let p = lemma_from_package(db, packages, graph, repo, x);
    let q = packages[p];
    let v = hex_version(q.version)->0;
    let advs = osv::advisories_of(db, q.name);
    let a = lemma_from_advisory(advs, q, v, graph.chain(q.name), repo, x);
    tier_c::a_fix_is_the_only_bound(tier_c::hit::<HexVersions>(advs[a], v)->0);
    assert(comes_of(db, packages[p], a, graph, repo, x));
}

/// Every advisory that hits an installed package has a finding of the package.
pub proof fn every_hit_has_a_finding(
    db: Map<Seq<char>, Seq<AdvisoryM<VersionM>>>,
    mix_lock: Seq<char>,
    repo: Seq<char>,
    p: int,
    a: int,
)
    requires
        0 <= p < pinned(mix_lock).len(),
        db.dom().contains(pinned(mix_lock)[p].name),
        0 <= a < db[pinned(mix_lock)[p].name].len(),
        hex_version(pinned(mix_lock)[p].version) matches Some(v) && tier_c::hit::<HexVersions>(
            db[pinned(mix_lock)[p].name][a],
            v,
        ) is Some,
    ensures
        exists|j: int|
            0 <= j < scanned(db, mix_lock, repo).findings.len() && (#[trigger] scanned(
                db,
                mix_lock,
                repo,
            ).findings[j]).advisory_id == db[pinned(mix_lock)[p].name][a].id && osv::first_package(
                scanned(db, mix_lock, repo).findings[j],
            ) == pinned(mix_lock)[p].name,
{
    let entries = entries_in(mix_lock);
    let graph = graph_of(entries, asked_for(entries));
    let packages = pinned(mix_lock);
    let s = matched_packages(db, packages, graph, repo);
    let q = packages[p];
    let v = hex_version(q.version)->0;
    let advs = osv::advisories_of(db, q.name);
    let x = matched(advs[a], q, v, graph.chain(q.name), repo)->0;
    lemma_advisory_stays(advs, q, v, graph.chain(q.name), repo, a);
    lemma_package_stays(db, packages, graph, repo, p, x);
    let i = choose|i: int| 0 <= i < s.len() && s[i] == x;
    osv::ordered_findings_are_distinct(s);
    assert(s[i].advisory_id == advs[a].id);
    let j = choose|j: int|
        0 <= j < osv::ordered_findings(s).len() && (#[trigger] osv::ordered_findings(
            s,
        )[j]).advisory_id == s[i].advisory_id && osv::first_package(osv::ordered_findings(s)[j])
            == osv::first_package(s[i]);
    assert(scanned(db, mix_lock, repo).findings[j].advisory_id == advs[a].id);
}

/// Bounds and versions are in the order of versions: a version has reached a bound unless it is
/// below it, and `0` is below everything but its own pre-releases.
pub proof fn bounds_are_in_order(v: VersionM, b: VersionM)
    ensures
        version::numbers_below(v, b) ==> !HexVersions::reached(v, b) && osv::lt::<HexVersions>(v, b),
        version::numbers_below(b, v) ==> HexVersions::reached(v, b) && !osv::lt::<HexVersions>(
            v,
            b,
        ),
        HexVersions::reached(v, v),
        !osv::lt::<HexVersions>(v, v),
        HexVersions::bound("0"@) == Some(version::release(0, 0, 0)),
        v.pre.len() == 0 && v.build.len() == 0 ==> HexVersions::reached(
            v,
            HexVersions::bound("0"@)->0,
        ),
{
    version::numbers_decide_first(v, b);
    version::numbers_decide_first(b, v);
    let zero = version::release(0, 0, 0);
    version::numbers_decide_first(zero, v);
    order::lemma_lex_irreflexive(version::version_key(v));
}

/// An entry of a lockfile is read as the package and the version that it names, and what follows
/// it is read on.
pub proof fn an_entry_is_read(
    before: Seq<char>,
    name: Seq<char>,
    version: Seq<char>,
    tail: Seq<char>,
)
    requires
        !before.contains('{'),
        name.len() > 0,
        forall|i: int| 0 <= i < name.len() ==> cut::ident_char(#[trigger] name[i]),
        version.len() > 0,
        !version.contains('"'),
    ensures
        entries_in(
            before + "{:hex,"@ + (seq![' ', ':'] + (name + (seq![',', ' '] + "\""@ + (version
                + "\""@ + tail)))),
        ) == seq![
            RawEntryM { name, version, deps: deps_in(own_part(tail)) },
        ] + entries_in(tail.skip(own_part(tail).len() as int)),
{
    reveal_strlit("{:hex,");
    reveal_strlit(":");
    reveal_strlit("\"");
    let quoted = version + "\""@ + tail;
    let rest = seq![',', ' '] + "\""@ + quoted;
    let atom = name + rest;
    let after = seq![' ', ':'] + atom;
    let text = before + "{:hex,"@ + after;
    cut::lemma_halves_at(before, "{:hex,"@, after);
    assert(text::white(' '));
    assert(!text::white(':'));
    cut::lemma_run_end_at(after, 0, 1, Class::White);
    let trimmed = after.skip(1);
    assert(trimmed.subrange(0, 1) =~= ":"@);
    assert(trimmed.skip(1) =~= atom);
    assert(cut::after_prefix(trimmed, ":"@) == Some(atom));
    assert forall|i: int| 0 <= i < name.len() implies cut::in_class(
        Class::Ident,
        #[trigger] atom[i],
    ) by {
        assert(atom[i] == name[i]);
    }
    assert(atom[name.len() as int] == ',');
    cut::lemma_run_end_at(atom, 0, name.len() as int, Class::Ident);
    assert(atom.take(name.len() as int) =~= name);
    assert(atom.skip(name.len() as int) =~= rest);
    let lead = seq![',', ' '];
    assert(!lead.contains('"'));
    cut::lemma_halves_at(lead, "\""@, quoted);
    cut::lemma_halves_at(version, "\""@, tail);
}

/// What is skipped is counted: the packages whose version cannot be read.
pub proof fn what_cannot_be_read_is_counted(packages: Seq<InstalledPackageM>)
    ensures
        unreadable_in(packages) == packages.filter(
            |p: InstalledPackageM| hex_version(p.version) is None,
        ).len(),
    decreases packages.len(),
{
    reveal(Seq::filter);
    if packages.len() > 0 {
        what_cannot_be_read_is_counted(packages.drop_last());
    }
}

} // verus!
