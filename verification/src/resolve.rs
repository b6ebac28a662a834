//! What a build compiles, read off the build tool's own listing.
use vstd::prelude::*;
use crate::correlate;
use crate::cut;
use crate::cut::Class;
use crate::order;
use crate::order::{Order, Rel};
use crate::orchestrate::{BuiltPackage, BuiltPackageM};
use crate::static_reach;
use crate::text;
use crate::version;
use crate::version::Version;

verus! {

/// The host that the compiler reports.
pub fn host_triple(version: &str) -> (r: Option<String>)
    ensures
        r.deep_view() == (match static_reach::marked_line(cut::lines_of(version@), "host: "@) {
            Some(h) => Some(cut::trimmed(h)),
            None => None,
        }),
{
    match static_reach::find_marked(version, "host: ") {
        Some(h) => Some(cut::trim(h.as_str())),
        None => None,
    }
}

/// The arguments that list what a default build compiles for a host.
pub open spec fn listing_args(host: Seq<char>) -> Seq<Seq<char>> {
    seq![
        "tree"@,
        "--edges"@,
        "normal,build"@,
        "--prefix"@,
        "none"@,
        "--target"@,
        host,
        "--format"@,
        "{p}"@,
        "--locked"@,
        "--offline"@,
    ]
}

/// The arguments that list what a default build compiles for a host. The listing stays offline
/// and leaves the lockfile as it is.
pub fn tree_args(host: &str) -> (r: Vec<String>)
    ensures
        r.deep_view() == listing_args(host@),
{
    let mut r: Vec<String> = Vec::new();
    r.push("tree".to_owned());
    r.push("--edges".to_owned());
    r.push("normal,build".to_owned());
    r.push("--prefix".to_owned());
    r.push("none".to_owned());
    r.push("--target".to_owned());
    r.push(host.to_owned());
    r.push("--format".to_owned());
    r.push("{p}".to_owned());
    r.push("--locked".to_owned());
    r.push("--offline".to_owned());
    assert(r.deep_view() =~= listing_args(host@));
    r
}

/// The package that a line names: its first word and, after the letter that marks it, the
/// version that is its second.
pub open spec fn package_in(line: Seq<char>) -> Option<BuiltPackageM> {
    let words = cut::words_of(line);
    if words.len() < 2 {
        None
    } else {
        match version::semver_version(cut::without_start(words[1], Class::Mark)) {
            Some(v) => Some(BuiltPackageM { name: words[0], version: v }),
            None => None,
        }
    }
}

pub open spec fn packages_in(lines: Seq<Seq<char>>) -> Seq<BuiltPackageM>
    decreases lines.len(),
{
    if lines.len() == 0 {
        Seq::empty()
    } else {
        let front = packages_in(lines.drop_last());
        match package_in(lines.last()) {
            Some(p) => front.push(p),
            None => front,
        }
    }
}

fn read_package(line: &str) -> (r: Option<BuiltPackage>)
    ensures
        r.deep_view() == package_in(line@),
{
    let words: Vec<String> = cut::words(line);
    let ghost all = words.deep_view();
    assert(all.len() == words.len());
    if words.len() < 2 {
        return None;
    }
    assert(all[0] == words[0]@ && all[1] == words[1]@);
    match Version::parse(cut::trim_start(words[1].as_str(), Class::Mark).as_str()) {
        Some(v) => Some(BuiltPackage { name: words[0].clone(), version: v }),
        None => None,
    }
}

/// Packages by name, then by version.
pub struct ByBuilt;

impl Order for ByBuilt {
    type M = BuiltPackageM;

    type Item = BuiltPackage;

    open spec fn key(m: BuiltPackageM) -> Seq<int> {
        text::text_key(m.name) + version::version_key(m.version)
    }

    fn rel(a: &BuiltPackage, b: &BuiltPackage) -> (r: Rel) {
        proof {
            assert(a.deep_view().name == a.name@ && b.deep_view().name == b.name@);
            correlate::lemma_text_first(
                a.name@,
                b.name@,
                version::version_key(a.version.deep_view()),
                version::version_key(b.version.deep_view()),
            );
        }
        match text::rel_text(a.name.as_str(), b.name.as_str()) {
            Rel::Equal => a.version.rel(&b.version),
            r => r,
        }
    }
}

/// The packages that a listing names, each once, in order. Lines that name none are passed over.
pub fn parse_package_specs(t: &str) -> (r: Vec<BuiltPackage>)
    ensures
        r.deep_view() == order::first_per_key::<ByBuilt>(
            order::in_order::<ByBuilt>(packages_in(cut::lines_of(t@))),
        ),
{
    let lines: Vec<String> = cut::lines(t);
    let ghost all = lines.deep_view();
    let mut out: Vec<BuiltPackage> = Vec::new();
    let mut i: usize = 0;
    proof {
        assert(all.take(0) =~= Seq::empty());
        assert(out.deep_view() =~= Seq::empty());
    }
    while i < lines.len()
        invariant
            i <= lines.len(),
            all == lines.deep_view(),
            out.deep_view() == packages_in(all.take(i as int)),
        decreases lines.len() - i,
    {
        assert(all.take(i + 1).drop_last() =~= all.take(i as int));
        if let Some(p) = read_package(lines[i].as_str()) {
            let ghost before = out.deep_view();
            out.push(p);
            assert(out.deep_view() =~= before.push(p.deep_view()));
        }
        i += 1;
    }
    assert(all.take(i as int) =~= all);
    order::dedup_keys::<ByBuilt>(order::sort::<ByBuilt>(out))
}

/// What a listing names is in the result, and no package is there twice.
pub proof fn listing_is_a_set(lines: Seq<Seq<char>>, i: int)
    requires
        0 <= i < lines.len(),
        package_in(lines[i]) is Some,
    ensures
        ({
            let s = order::first_per_key::<ByBuilt>(
                order::in_order::<ByBuilt>(packages_in(lines)),
            );
            &&& order::strictly_sorted::<ByBuilt>(s)
            &&& order::has_key::<ByBuilt>(s, ByBuilt::key(package_in(lines[i])->0))
        }),
{
    let p = packages_in(lines);
    let t = order::in_order::<ByBuilt>(p);
    let x = package_in(lines[i])->0;
    lemma_listed(lines, i);
    order::lemma_in_order::<ByBuilt>(p);
    order::lemma_in_order_contains::<ByBuilt>(p, x);
    order::lemma_first_per_key_strict::<ByBuilt>(t);
    let k = choose|k: int| 0 <= k < t.len() && t[k] == x;
    assert(order::has_key::<ByBuilt>(order::first_per_key::<ByBuilt>(t), ByBuilt::key(t[k])));
}

proof fn lemma_listed(lines: Seq<Seq<char>>, i: int)
    requires
        0 <= i < lines.len(),
        package_in(lines[i]) is Some,
    ensures
        packages_in(lines).contains(package_in(lines[i])->0),
    decreases lines.len(),
{
    let l = lines.drop_last();
    let p = packages_in(lines);
    if i < l.len() {
        assert(l[i] == lines[i]);
        lemma_listed(l, i);
        let q = packages_in(l);
        let k = choose|k: int| 0 <= k < q.len() && q[k] == package_in(lines[i])->0;
        assert(p[k] == q[k]);
    } else {
        assert(p[p.len() - 1] == package_in(lines[i])->0);
    }
}

/// A line of a listing names the package that is its first word, at the version that is its
/// second, with or without the letter that marks it, whatever follows.
pub proof fn a_line_names_package_and_version(
    name: Seq<char>,
    version: Seq<char>,
    rest: Seq<char>,
)
    requires
        name.len() > 0,
        version.len() > 0,
        forall|i: int| 0 <= i < name.len() ==> !text::white(#[trigger] name[i]),
        forall|i: int| 0 <= i < version.len() ==> !text::white(#[trigger] version[i]),
        version[0] != 'v',
    ensures
        ({
            let line = name.push(' ') + ((seq!['v'] + version).push(' ') + rest);
            &&& package_in(line) is Some <==> version::semver_version(version) is Some
            &&& package_in(line) matches Some(p) ==> p.name == name && Some(p.version)
                == version::semver_version(version)
        }),
{
    let marked = seq!['v'] + version;
    let tail = marked.push(' ') + rest;
    assert(text::white(' '));
    assert forall|i: int| 0 <= i < marked.len() implies !text::white(#[trigger] marked[i]) by {
        if i > 0 {
            assert(marked[i] == version[i - 1]);
        }
    }
    cut::lemma_words_plain(name);
    cut::lemma_words_plain(marked);
    cut::lemma_words_joined(marked, ' ', rest);
    cut::lemma_words_joined(name, ' ', tail);
    let words = cut::words_of(name.push(' ') + tail);
    assert(words =~= seq![name] + (seq![marked] + cut::words_of(rest)));
    assert(words[0] == name && words[1] == marked);
    assert(marked[1] == version[0]);
    cut::lemma_run_end_at(marked, 0, 1, Class::Mark);
    assert(marked.skip(1) =~= version);
}

/// The packages of a listing are those that its lines name, in order; other lines are passed
/// over.
pub proof fn every_named_package_is_listed(lines: Seq<Seq<char>>)
    ensures
        packages_in(lines) == lines.filter(|l: Seq<char>| package_in(l) is Some).map_values(
            |l: Seq<char>| package_in(l)->0,
        ),
    decreases lines.len(),
{
    reveal(Seq::filter);
    let p = |l: Seq<char>| package_in(l) is Some;
    let f = |l: Seq<char>| package_in(l)->0;
    if lines.len() > 0 {
        let rest = lines.drop_last();
        every_named_package_is_listed(rest);
        if p(lines.last()) {
            assert(lines.filter(p).map_values(f) =~= rest.filter(p).map_values(f).push(
                f(lines.last()),
            ));
        }
    } else {
        assert(lines.filter(p).map_values(f) =~= Seq::empty());
    }
}

} // verus!
