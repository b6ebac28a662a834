//! Folding the findings of single repositories into findings of the whole fleet: one per
//! advisory, in a fixed order, with every occurrence kept.
use vstd::prelude::*;
use crate::finding;
use crate::finding::{
    Occurrence, OccurrenceM, VulnFinding, VulnFindingM, WarnFinding, WarnFindingM,
};
use crate::order;
use crate::order::{Order, Rel};
use crate::severity;
use crate::text;
use crate::value;
use crate::version;

verus! {

/// The findings of the whole fleet.
#[derive(Debug)]
pub struct Correlated {
    pub vulnerabilities: Vec<VulnFinding>,
    pub warnings: Vec<WarnFinding>,
}

// --- Orders ---

/// The parts by which occurrences are ordered: those in a repository first, then by
/// repository, package and version; those of a toolchain by channel and version.
pub open spec fn occurrence_key_m(o: OccurrenceM) -> (int, Seq<char>, Seq<char>, Seq<char>) {
    match o {
        OccurrenceM::InRepo { repo, package, installed, .. } => (
            0,
            repo,
            package,
            version::version_text(installed),
        ),
        OccurrenceM::Toolchain { channel, installed, .. } => (
            1,
            channel,
            Seq::empty(),
            match installed {
                Some(v) => version::version_text(v),
                None => Seq::empty(),
            },
        ),
    }
}

/// The parts by which an occurrence is ordered.
pub fn occurrence_key(o: &Occurrence) -> (r: (u8, String, String, String))
    ensures
        r.0 == occurrence_key_m(o.deep_view()).0,
        r.1@ == occurrence_key_m(o.deep_view()).1,
        r.2@ == occurrence_key_m(o.deep_view()).2,
        r.3@ == occurrence_key_m(o.deep_view()).3,
{
    match o {
        Occurrence::InRepo { repo, package, installed, .. } => (
            0,
            repo.0.clone(),
            package.clone(),
            installed.to_string(),
        ),
        Occurrence::Toolchain { channel, installed, .. } => (
            1,
            channel.clone(),
            String::new(),
            match installed {
                Some(v) => v.to_string(),
                None => String::new(),
            },
        ),
    }
}

/// Occurrences by their parts.
pub struct ByOccurrence;

impl Order for ByOccurrence {
    type M = OccurrenceM;

    type Item = Occurrence;

    open spec fn key(m: OccurrenceM) -> Seq<int> {
        let k = occurrence_key_m(m);
        seq![k.0] + (text::text_key(k.1) + (text::text_key(k.2) + text::text_key(k.3)))
    }

    fn rel(a: &Occurrence, b: &Occurrence) -> (r: Rel) {
        let (a0, a1, a2, a3) = occurrence_key(a);
        let (b0, b1, b2, b3) = occurrence_key(b);
        proof {
            lemma_number_first(
                a0 as int,
                b0 as int,
                text::text_key(a1@) + (text::text_key(a2@) + text::text_key(a3@)),
                text::text_key(b1@) + (text::text_key(b2@) + text::text_key(b3@)),
            );
            lemma_text_first(
                a1@,
                b1@,
                text::text_key(a2@) + text::text_key(a3@),
                text::text_key(b2@) + text::text_key(b3@),
            );
            lemma_text_first(a2@, b2@, text::text_key(a3@), text::text_key(b3@));
        }
        if a0 != b0 {
            return if a0 < b0 {
                Rel::Less
            } else {
                Rel::Greater
            };
        }
        match text::rel_text(a1.as_str(), b1.as_str()) {
            Rel::Equal => match text::rel_text(a2.as_str(), b2.as_str()) {
                Rel::Equal => text::rel_text(a3.as_str(), b3.as_str()),
                r => r,
            },
            r => r,
        }
    }
}

/// A number in front decides first.
pub proof fn lemma_number_first(a: int, b: int, x: Seq<int>, y: Seq<int>)
    ensures
        order::rel_of(seq![a] + x, seq![b] + y) == (if a < b {
            Rel::Less
        } else if a > b {
            Rel::Greater
        } else {
            order::rel_of(x, y)
        }),
        (seq![a] + x == seq![b] + y) == (a == b && x == y),
{
    assert(seq![a][0] == a && seq![b][0] == b);
    if a == b {
        assert(seq![a] =~= seq![b]);
    } else {
        assert(order::apart(seq![a], seq![b]));
        assert(order::lex_lt(seq![a], seq![b]) == (a < b));
    }
    order::lemma_rel_pair(seq![a], seq![b], x, y);
}

/// A text in front decides first.
pub proof fn lemma_text_first(a: Seq<char>, b: Seq<char>, x: Seq<int>, y: Seq<int>)
    ensures
        order::rel_of(text::text_key(a) + x, text::text_key(b) + y) == (match order::rel_of(
            text::text_key(a),
            text::text_key(b),
        ) {
            Rel::Equal => order::rel_of(x, y),
            r => r,
        }),
        (text::text_key(a) + x == text::text_key(b) + y) == (a == b && x == y),
{
    text::lemma_text_key_apart(a, b);
    order::lemma_lex_total(text::text_key(a), text::text_key(b));
    order::lemma_rel_pair(text::text_key(a), text::text_key(b), x, y);
}

/// Vulnerabilities by advisory.
pub struct ByAdvisory;

impl Order for ByAdvisory {
    type M = VulnFindingM;

    type Item = VulnFinding;

    open spec fn key(m: VulnFindingM) -> Seq<int> {
        text::text_key(m.advisory_id)
    }

    fn rel(a: &VulnFinding, b: &VulnFinding) -> (r: Rel) {
        assert(a.deep_view().advisory_id == a.advisory_id@);
        assert(b.deep_view().advisory_id == b.advisory_id@);
        text::rel_text(a.advisory_id.as_str(), b.advisory_id.as_str())
    }
}

/// Vulnerabilities with the worst first, then by advisory.
pub struct ByWorst;

impl Order for ByWorst {
    type M = VulnFindingM;

    type Item = VulnFinding;

    open spec fn key(m: VulnFindingM) -> Seq<int> {
        seq![-severity::severity_rank(m.severity)] + text::text_key(m.advisory_id)
    }

    fn rel(a: &VulnFinding, b: &VulnFinding) -> (r: Rel) {
        let x: u8 = a.severity.rank();
        let y: u8 = b.severity.rank();
        proof {
            lemma_number_first(
                -(x as int),
                -(y as int),
                text::text_key(a.deep_view().advisory_id),
                text::text_key(b.deep_view().advisory_id),
            );
            assert(a.deep_view().severity == a.severity);
            assert(b.deep_view().severity == b.severity);
        }
        if x > y {
            Rel::Less
        } else if x < y {
            Rel::Greater
        } else {
            text::rel_text(a.advisory_id.as_str(), b.advisory_id.as_str())
        }
    }
}

/// The key of a text that may be missing: a missing one comes first.
pub open spec fn opt_key(t: Option<Seq<char>>) -> Seq<int> {
    match t {
        None => seq![0int],
        Some(s) => seq![1int] + text::text_key(s),
    }
}

/// The order of two texts that may be missing.
pub fn rel_opt(a: &Option<String>, b: &Option<String>) -> (r: Rel)
    ensures
        r == order::rel_of(opt_key(a.deep_view()), opt_key(b.deep_view())),
{
    proof {
        let e = Seq::<int>::empty();
        assert(seq![0int] =~= seq![0int] + e);
        lemma_number_first(0, 0, e, e);
        if let Some(y) = b.deep_view() {
            lemma_number_first(0, 1, e, text::text_key(y));
        }
        if let Some(x) = a.deep_view() {
            lemma_number_first(1, 0, text::text_key(x), e);
            if let Some(y) = b.deep_view() {
                lemma_number_first(1, 1, text::text_key(x), text::text_key(y));
            }
        }
    }
    match a {
        None => match b {
            None => Rel::Equal,
            Some(_) => Rel::Less,
        },
        Some(x) => match b {
            None => Rel::Greater,
            Some(y) => text::rel_text(x.as_str(), y.as_str()),
        },
    }
}

/// Warnings by kind, then by advisory.
pub struct ByWarning;

impl Order for ByWarning {
    type M = WarnFindingM;

    type Item = WarnFinding;

    open spec fn key(m: WarnFindingM) -> Seq<int> {
        seq![finding::warn_rank(m.kind)] + opt_key(m.advisory_id)
    }

    fn rel(a: &WarnFinding, b: &WarnFinding) -> (r: Rel) {
        let x: u8 = a.kind.rank();
        let y: u8 = b.kind.rank();
        proof {
            lemma_number_first(
                x as int,
                y as int,
                opt_key(a.deep_view().advisory_id),
                opt_key(b.deep_view().advisory_id),
            );
            assert(a.deep_view().kind == a.kind);
            assert(b.deep_view().kind == b.kind);
        }
        if x < y {
            Rel::Less
        } else if x > y {
            Rel::Greater
        } else {
            rel_opt(&a.advisory_id, &b.advisory_id)
        }
    }
}

// --- Vulnerabilities ---

/// Two findings of one advisory in one: the worst severity, the first title and url that are
/// there, and the aliases and occurrences of both.
pub open spec fn merged(group: VulnFindingM, f: VulnFindingM) -> VulnFindingM {
    VulnFindingM {
        severity: severity::worse(group.severity, f.severity),
        title: if group.title.len() == 0 {
            f.title
        } else {
            group.title
        },
        url: if group.url is None {
            f.url
        } else {
            group.url
        },
        aliases: group.aliases + f.aliases,
        occurrences: group.occurrences + f.occurrences,
        ..group
    }
}

fn merge_vuln(group: &mut VulnFinding, f: VulnFinding)
    ensures
        final(group).deep_view() == merged(old(group).deep_view(), f.deep_view()),
{
    group.severity = group.severity.max_of(f.severity);
    if group.title.as_str().is_empty() {
        group.title = f.title;
    }
    if group.url.is_none() {
        group.url = f.url;
    }
    value::append(&mut group.aliases, f.aliases);
    value::append(&mut group.occurrences, f.occurrences);
}

/// All findings of a group in one.
pub open spec fn merged_all(group: Seq<VulnFindingM>) -> VulnFindingM
    decreases group.len(),
{
    if group.len() <= 1 {
        group[0]
    } else {
        merged(merged_all(group.drop_last()), group.last())
    }
}

/// Occurrences in order, each once.
pub open spec fn tidy_occurrences(s: Seq<OccurrenceM>) -> Seq<OccurrenceM> {
    order::distinct(order::in_order::<ByOccurrence>(s))
}

/// A finding with its occurrences and aliases in order, without repeats.
pub open spec fn tidy(f: VulnFindingM) -> VulnFindingM {
    VulnFindingM {
        occurrences: tidy_occurrences(f.occurrences),
        aliases: value::text_set(f.aliases),
        ..f
    }
}

pub open spec fn tidy_groups(groups: Seq<Seq<VulnFindingM>>) -> Seq<VulnFindingM> {
    Seq::new(groups.len(), |i: int| tidy(merged_all(groups[i])))
}

/// One finding per advisory, the worst first.
pub open spec fn correlated_vulns(input: Seq<VulnFindingM>) -> Seq<VulnFindingM> {
    order::in_order::<ByWorst>(tidy_groups(order::groups::<ByAdvisory>(input)))
}

fn merge_group(group: Vec<VulnFinding>) -> (r: VulnFinding)
    requires
        group.len() > 0,
    ensures
        r.deep_view() == tidy(merged_all(group.deep_view())),
{
    let ghost all = group.deep_view();
    let mut acc: Option<VulnFinding> = None;
    let ghost mut n: int = 0;
    for f in it: group
        invariant
            it.seq() == group@,
            all == group.deep_view(),
            n == it.index(),
            n <= all.len(),
            acc is Some == (n > 0),
            acc matches Some(a) ==> a.deep_view() == merged_all(all.take(n)),
    {
        proof {
            assert(all.take(n + 1).drop_last() =~= all.take(n));
            assert(all.take(n + 1).last() == f.deep_view());
        }
        acc = match acc {
            Some(mut a) => {
                merge_vuln(&mut a, f);
                Some(a)
            },
            None => Some(f),
        };
        proof {
            n = n + 1;
        }
    }
    assert(all.take(n) =~= all);
    let mut f: VulnFinding = acc.unwrap();
    let mut occurrences: Vec<Occurrence> = Vec::new();
    std::mem::swap(&mut occurrences, &mut f.occurrences);
    let mut aliases: Vec<String> = Vec::new();
    std::mem::swap(&mut aliases, &mut f.aliases);
    f.occurrences = value::distinct(order::sort::<ByOccurrence>(occurrences));
    f.aliases = value::sort_texts(aliases);
    f
}

fn correlate_vulns(input: Vec<VulnFinding>) -> (out: Vec<VulnFinding>)
    ensures
        out.deep_view() == correlated_vulns(input.deep_view()),
{
    let ghost want = tidy_groups(order::groups::<ByAdvisory>(input.deep_view()));
    proof {
        order::lemma_groups::<ByAdvisory>(input.deep_view());
    }
    let groups: Vec<Vec<VulnFinding>> = order::group::<ByAdvisory>(input);
    let ghost gs = groups.deep_view();
    let mut out: Vec<VulnFinding> = Vec::new();
    let ghost mut n: int = 0;
    proof {
        assert(out.deep_view() =~= want.take(0));
    }
    for g in it: groups
        invariant
            it.seq() == groups@,
            gs == groups.deep_view(),
            forall|i: int| 0 <= i < gs.len() ==> order::one_key::<ByAdvisory>(#[trigger] gs[i]),
            want == tidy_groups(gs),
            n == it.index(),
            n <= gs.len(),
            out.deep_view() == want.take(n),
    {
        proof {
            assert(gs[n] == g.deep_view());
            assert(g.deep_view().len() == g.len());
        }
        let f = merge_group(g);
        let ghost before = out.deep_view();
        out.push(f);
        proof {
            assert(out.deep_view() =~= before.push(f.deep_view()));
            assert(want.take(n + 1) =~= want.take(n).push(want[n]));
            n = n + 1;
        }
    }
    assert(want.take(n) =~= want);
    order::sort::<ByWorst>(out)
}

// --- Warnings ---

pub open spec fn merged_warn(group: WarnFindingM, f: WarnFindingM) -> WarnFindingM {
    WarnFindingM {
        title: if group.title.len() == 0 {
            f.title
        } else {
            group.title
        },
        occurrences: group.occurrences + f.occurrences,
        ..group
    }
}

pub open spec fn merged_warns(group: Seq<WarnFindingM>) -> WarnFindingM
    decreases group.len(),
{
    if group.len() <= 1 {
        group[0]
    } else {
        merged_warn(merged_warns(group.drop_last()), group.last())
    }
}

pub open spec fn tidy_warn(f: WarnFindingM) -> WarnFindingM {
    WarnFindingM { occurrences: tidy_occurrences(f.occurrences), ..f }
}

/// One warning per kind and advisory, in that order.
pub open spec fn correlated_warns(input: Seq<WarnFindingM>) -> Seq<WarnFindingM> {
    let groups = order::groups::<ByWarning>(input);
    Seq::new(groups.len(), |i: int| tidy_warn(merged_warns(groups[i])))
}

fn merge_warn_group(group: Vec<WarnFinding>) -> (r: WarnFinding)
    requires
        group.len() > 0,
    ensures
        r.deep_view() == tidy_warn(merged_warns(group.deep_view())),
{
    let ghost all = group.deep_view();
    let mut acc: Option<WarnFinding> = None;
    let ghost mut n: int = 0;
    for f in it: group
        invariant
            it.seq() == group@,
            all == group.deep_view(),
            n == it.index(),
            n <= all.len(),
            acc is Some == (n > 0),
            acc matches Some(a) ==> a.deep_view() == merged_warns(all.take(n)),
    {
        proof {
            assert(all.take(n + 1).drop_last() =~= all.take(n));
            assert(all.take(n + 1).last() == f.deep_view());
        }
        acc = match acc {
            Some(mut a) => {
                if a.title.as_str().is_empty() {
                    a.title = f.title;
                }
                value::append(&mut a.occurrences, f.occurrences);
                Some(a)
            },
            None => Some(f),
        };
        proof {
            n = n + 1;
        }
    }
    assert(all.take(n) =~= all);
    let mut f: WarnFinding = acc.unwrap();
    let mut occurrences: Vec<Occurrence> = Vec::new();
    std::mem::swap(&mut occurrences, &mut f.occurrences);
    f.occurrences = value::distinct(order::sort::<ByOccurrence>(occurrences));
    f
}

fn correlate_warns(input: Vec<WarnFinding>) -> (out: Vec<WarnFinding>)
    ensures
        out.deep_view() == correlated_warns(input.deep_view()),
{
    let ghost want = correlated_warns(input.deep_view());
    proof {
        order::lemma_groups::<ByWarning>(input.deep_view());
    }
    let groups: Vec<Vec<WarnFinding>> = order::group::<ByWarning>(input);
    let ghost gs = groups.deep_view();
    let mut out: Vec<WarnFinding> = Vec::new();
    let ghost mut n: int = 0;
    proof {
        assert(out.deep_view() =~= want.take(0));
    }
    for g in it: groups
        invariant
            it.seq() == groups@,
            gs == groups.deep_view(),
            forall|i: int| 0 <= i < gs.len() ==> order::one_key::<ByWarning>(#[trigger] gs[i]),
            want == Seq::new(gs.len(), |i: int| tidy_warn(merged_warns(gs[i]))),
            n == it.index(),
            n <= gs.len(),
            out.deep_view() == want.take(n),
    {
        proof {
            assert(gs[n] == g.deep_view());
            assert(g.deep_view().len() == g.len());
        }
        let f = merge_warn_group(g);
        let ghost before = out.deep_view();
        out.push(f);
        proof {
            assert(out.deep_view() =~= before.push(f.deep_view()));
            assert(want.take(n + 1) =~= want.take(n).push(want[n]));
            n = n + 1;
        }
    }
    assert(want.take(n) =~= want);
    out
}

/// Folds the two streams, each on its own: a vulnerability never becomes a warning, nor a
/// warning a vulnerability.
pub fn correlate(vulnerabilities: Vec<VulnFinding>, warnings: Vec<WarnFinding>) -> (r: Correlated)
    ensures
        r.vulnerabilities.deep_view() == correlated_vulns(vulnerabilities.deep_view()),
        r.warnings.deep_view() == correlated_warns(warnings.deep_view()),
{
    Correlated {
        vulnerabilities: correlate_vulns(vulnerabilities),
        warnings: correlate_warns(warnings),
    }
}

// --- Laws ---

/// Whether some finding of `s` is about the advisory `id` and occurs at `o`.
pub open spec fn occurs_in(s: Seq<VulnFindingM>, id: Seq<char>, o: OccurrenceM) -> bool {
    exists|i: int|
        0 <= i < s.len() && (#[trigger] s[i]).advisory_id == id && s[i].occurrences.contains(o)
}

/// Whether some finding of `s` is about the advisory `id`.
pub open spec fn has_advisory(s: Seq<VulnFindingM>, id: Seq<char>) -> bool {
    exists|i: int| 0 <= i < s.len() && (#[trigger] s[i]).advisory_id == id
}

proof fn lemma_concat_contains<A>(a: Seq<A>, b: Seq<A>, x: A)
    ensures
        (a + b).contains(x) == (a.contains(x) || b.contains(x)),
{
    if a.contains(x) {
        let i = choose|i: int| 0 <= i < a.len() && a[i] == x;
        assert((a + b)[i] == x);
    }
    if b.contains(x) {
        let i = choose|i: int| 0 <= i < b.len() && b[i] == x;
        assert((a + b)[a.len() + i] == x);
    }
    if (a + b).contains(x) {
        let i = choose|i: int| 0 <= i < (a + b).len() && (a + b)[i] == x;
        if i < a.len() {
            assert(a[i] == x);
        } else {
            assert(b[i - a.len()] == x);
        }
    }
}

proof fn lemma_merged_all(g: Seq<VulnFindingM>, o: OccurrenceM)
    requires
        g.len() > 0,
    ensures
        merged_all(g).advisory_id == g[0].advisory_id,
        merged_all(g).occurrences.contains(o) == (exists|i: int|
            0 <= i < g.len() && (#[trigger] g[i]).occurrences.contains(o)),
    decreases g.len(),
{
    if g.len() == 1 {
        if merged_all(g).occurrences.contains(o) {
            assert(g[0].occurrences.contains(o));
        }
    } else {
        let l = g.drop_last();
        lemma_merged_all(l, o);
        lemma_concat_contains(merged_all(l).occurrences, g.last().occurrences, o);
        if exists|i: int| 0 <= i < l.len() && (#[trigger] l[i]).occurrences.contains(o) {
            let i = choose|i: int| 0 <= i < l.len() && (#[trigger] l[i]).occurrences.contains(o);
            assert(g[i].occurrences.contains(o));
        }
        if g.last().occurrences.contains(o) {
            assert(g[g.len() - 1].occurrences.contains(o));
        }
        if exists|i: int| 0 <= i < g.len() && (#[trigger] g[i]).occurrences.contains(o) {
            let i = choose|i: int| 0 <= i < g.len() && (#[trigger] g[i]).occurrences.contains(o);
            if i < l.len() {
                assert(l[i].occurrences.contains(o));
            }
        }
    }
}

proof fn lemma_tidy_occurrences(s: Seq<OccurrenceM>, o: OccurrenceM)
    ensures
        tidy_occurrences(s).contains(o) == s.contains(o),
        tidy_occurrences(s).len() <= s.len(),
{
    order::lemma_in_order::<ByOccurrence>(s);
    order::lemma_in_order_contains::<ByOccurrence>(s, o);
    order::lemma_distinct(order::in_order::<ByOccurrence>(s));
}

/// What a group of findings comes to.
proof fn lemma_group_finding(input: Seq<VulnFindingM>, i: int, o: OccurrenceM)
    requires
        0 <= i < order::groups::<ByAdvisory>(input).len(),
    ensures
        ({
            let g = order::groups::<ByAdvisory>(input)[i];
            let f = tidy(merged_all(g));
            &&& text::text_key(f.advisory_id) == order::group_key::<ByAdvisory>(g)
            &&& has_advisory(input, f.advisory_id)
            &&& f.occurrences.contains(o) == occurs_in(input, f.advisory_id, o)
        }),
{
    let gs = order::groups::<ByAdvisory>(input);
    let g = gs[i];
    let f = tidy(merged_all(g));
    order::lemma_groups::<ByAdvisory>(input);
    assert(order::one_key::<ByAdvisory>(gs[i]));
    lemma_merged_all(g, o);
    lemma_tidy_occurrences(merged_all(g).occurrences, o);
    let k = order::group_key::<ByAdvisory>(g);
    let is_k = order::key_is::<ByAdvisory>(k);
    assert(g == input.filter(is_k));
    assert forall|x: VulnFindingM| #[trigger] g.contains(x) == (input.contains(x)
        && x.advisory_id == f.advisory_id) by {
        text::lemma_text_key_apart(x.advisory_id, f.advisory_id);
        if g.contains(x) {
            input.lemma_filter_contains_rev(is_k, x);
            let h = choose|h: int| 0 <= h < g.len() && g[h] == x;
            assert(ByAdvisory::key(g[h]) == k);
        }
        if input.contains(x) && x.advisory_id == f.advisory_id {
            let h = choose|h: int| 0 <= h < input.len() && input[h] == x;
            assert(is_k(input[h]));
            input.lemma_filter_contains(is_k, h);
        }
    }
    assert(g.contains(g[0]));
    let h = choose|h: int| 0 <= h < input.len() && input[h] == g[0];
    assert(input[h].advisory_id == f.advisory_id);
    if f.occurrences.contains(o) {
        let a = choose|a: int| 0 <= a < g.len() && (#[trigger] g[a]).occurrences.contains(o);
        assert(g.contains(g[a]));
        let b = choose|b: int| 0 <= b < input.len() && input[b] == g[a];
        assert(input[b].occurrences.contains(o));
    }
    if occurs_in(input, f.advisory_id, o) {
        let b = choose|b: int|
            0 <= b < input.len() && (#[trigger] input[b]).advisory_id == f.advisory_id
                && input[b].occurrences.contains(o);
        assert(input.contains(input[b]));
        assert(g.contains(input[b]));
        let a = choose|a: int| 0 <= a < g.len() && g[a] == input[b];
        assert(g[a].occurrences.contains(o));
    }
}

/// The findings before their last sort: no advisory twice.
proof fn lemma_tidy_groups(input: Seq<VulnFindingM>)
    ensures
        tidy_groups(order::groups::<ByAdvisory>(input)).no_duplicates(),
        forall|i: int, j: int|
            0 <= i < tidy_groups(order::groups::<ByAdvisory>(input)).len() && 0 <= j < tidy_groups(
                order::groups::<ByAdvisory>(input),
            ).len() && i != j ==> (#[trigger] tidy_groups(
                order::groups::<ByAdvisory>(input),
            )[i]).advisory_id != (#[trigger] tidy_groups(
                order::groups::<ByAdvisory>(input),
            )[j]).advisory_id,
{
    let gs = order::groups::<ByAdvisory>(input);
    let t = tidy_groups(gs);
    order::lemma_groups::<ByAdvisory>(input);
    assert forall|i: int, j: int| 0 <= i < t.len() && 0 <= j < t.len() && i != j implies (
    #[trigger] t[i]).advisory_id != (#[trigger] t[j]).advisory_id by {
        let o = arbitrary();
        lemma_group_finding(input, i, o);
        lemma_group_finding(input, j, o);
        if i < j {
            order::lemma_lex_total(
                order::group_key::<ByAdvisory>(gs[i]),
                order::group_key::<ByAdvisory>(gs[j]),
            );
        } else {
            order::lemma_lex_total(
                order::group_key::<ByAdvisory>(gs[j]),
                order::group_key::<ByAdvisory>(gs[i]),
            );
        }
    }
}

/// Where a finding of the result comes from.
proof fn lemma_correlated_from(input: Seq<VulnFindingM>, j: int) -> (i: int)
    requires
        0 <= j < correlated_vulns(input).len(),
    ensures
        0 <= i < order::groups::<ByAdvisory>(input).len(),
        correlated_vulns(input)[j] == tidy(merged_all(order::groups::<ByAdvisory>(input)[i])),
{
    let t = tidy_groups(order::groups::<ByAdvisory>(input));
    let out = correlated_vulns(input);
    order::lemma_in_order_contains::<ByWorst>(t, out[j]);
    assert(out.contains(out[j]));
    choose|i: int| 0 <= i < t.len() && t[i] == out[j]
}

/// The findings of the fleet are about the advisories of the input, and no advisory has two.
pub proof fn one_finding_per_advisory(input: Seq<VulnFindingM>)
    ensures
        forall|id: Seq<char>| #[trigger]
            has_advisory(correlated_vulns(input), id) == has_advisory(input, id),
        forall|i: int, j: int|
            0 <= i < correlated_vulns(input).len() && 0 <= j < correlated_vulns(input).len() && i
                != j ==> (#[trigger] correlated_vulns(input)[i]).advisory_id != (
            #[trigger] correlated_vulns(input)[j]).advisory_id,
{
    let gs = order::groups::<ByAdvisory>(input);
    let t = tidy_groups(gs);
    let out = correlated_vulns(input);
    order::lemma_groups::<ByAdvisory>(input);
    order::lemma_in_order::<ByWorst>(t);
    lemma_tidy_groups(input);
    assert forall|id: Seq<char>| #[trigger] has_advisory(out, id) == has_advisory(input, id) by {
        if has_advisory(out, id) {
            let j = choose|j: int| 0 <= j < out.len() && (#[trigger] out[j]).advisory_id == id;
            let i = lemma_correlated_from(input, j);
            lemma_group_finding(input, i, arbitrary());
        }
        if has_advisory(input, id) {
            let h = choose|h: int| 0 <= h < input.len() && (#[trigger] input[h]).advisory_id == id;
            assert(order::has_group::<ByAdvisory>(gs, ByAdvisory::key(input[h])));
            let i = choose|i: int|
                0 <= i < gs.len() && order::group_key::<ByAdvisory>(#[trigger] gs[i])
                    == ByAdvisory::key(input[h]);
            lemma_group_finding(input, i, arbitrary());
            text::lemma_text_key_apart(t[i].advisory_id, id);
            order::lemma_in_order_contains::<ByWorst>(t, t[i]);
            assert(t.contains(t[i]));
            let j = choose|j: int| 0 <= j < out.len() && out[j] == t[i];
            assert(out[j].advisory_id == id);
        }
    }
    t.lemma_multiset_has_no_duplicates();
    out.lemma_multiset_has_no_duplicates_conv();
    assert forall|i: int, j: int| 0 <= i < out.len() && 0 <= j < out.len() && i != j implies (
    #[trigger] out[i]).advisory_id != (#[trigger] out[j]).advisory_id by {
        let a = lemma_correlated_from(input, i);
        let b = lemma_correlated_from(input, j);
        assert(out[i] == t[a] && out[j] == t[b]);
        assert(out[i] != out[j]);
    }
}

/// Occurrences are conserved: a finding of the fleet occurs exactly where some finding of its
/// advisory occurred. None is lost and none is made up.
pub proof fn occurrences_are_conserved(input: Seq<VulnFindingM>, j: int, o: OccurrenceM)
    requires
        0 <= j < correlated_vulns(input).len(),
    ensures
        correlated_vulns(input)[j].occurrences.contains(o) == occurs_in(
            input,
            correlated_vulns(input)[j].advisory_id,
            o,
        ),
{
    let i = lemma_correlated_from(input, j);
    lemma_group_finding(input, i, o);
}

/// The order is total: the worst severity first, then by advisory.
pub proof fn worst_comes_first(input: Seq<VulnFindingM>, i: int, j: int)
    requires
        0 <= i < j < correlated_vulns(input).len(),
    ensures
        ({
            let a = correlated_vulns(input)[i];
            let b = correlated_vulns(input)[j];
            severity::severity_rank(a.severity) > severity::severity_rank(b.severity) || (
            a.severity == b.severity && order::lex_lt(
                text::text_key(a.advisory_id),
                text::text_key(b.advisory_id),
            ))
        }),
{
    let t = tidy_groups(order::groups::<ByAdvisory>(input));
    let out = correlated_vulns(input);
    order::lemma_in_order::<ByWorst>(t);
    one_finding_per_advisory(input);
    let a = out[i];
    let b = out[j];
    assert(order::lex_le(ByWorst::key(out[i]), ByWorst::key(out[j])));
    lemma_number_first(
        -severity::severity_rank(a.severity),
        -severity::severity_rank(b.severity),
        text::text_key(a.advisory_id),
        text::text_key(b.advisory_id),
    );
    text::lemma_text_key_apart(a.advisory_id, b.advisory_id);
    order::lemma_lex_total(ByWorst::key(a), ByWorst::key(b));
}

/// Whether some warning of `s` has the kind and advisory of `w` and occurs at `o`.
pub open spec fn warned_at(s: Seq<WarnFindingM>, w: WarnFindingM, o: OccurrenceM) -> bool {
    exists|i: int|
        0 <= i < s.len() && (#[trigger] s[i]).kind == w.kind && s[i].advisory_id == w.advisory_id
            && s[i].occurrences.contains(o)
}

proof fn lemma_merged_warns(g: Seq<WarnFindingM>, o: OccurrenceM)
    requires
        g.len() > 0,
    ensures
        merged_warns(g).advisory_id == g[0].advisory_id,
        merged_warns(g).kind == g[0].kind,
        merged_warns(g).occurrences.contains(o) == (exists|i: int|
            0 <= i < g.len() && (#[trigger] g[i]).occurrences.contains(o)),
    decreases g.len(),
{
    if g.len() == 1 {
        if merged_warns(g).occurrences.contains(o) {
            assert(g[0].occurrences.contains(o));
        }
    } else {
        let l = g.drop_last();
        lemma_merged_warns(l, o);
        lemma_concat_contains(merged_warns(l).occurrences, g.last().occurrences, o);
        if exists|i: int| 0 <= i < l.len() && (#[trigger] l[i]).occurrences.contains(o) {
            let i = choose|i: int| 0 <= i < l.len() && (#[trigger] l[i]).occurrences.contains(o);
            assert(g[i].occurrences.contains(o));
        }
        if g.last().occurrences.contains(o) {
            assert(g[g.len() - 1].occurrences.contains(o));
        }
        if exists|i: int| 0 <= i < g.len() && (#[trigger] g[i]).occurrences.contains(o) {
            let i = choose|i: int| 0 <= i < g.len() && (#[trigger] g[i]).occurrences.contains(o);
            if i < l.len() {
                assert(l[i].occurrences.contains(o));
            }
        }
    }
}

/// Equal keys of warnings mean equal kind and advisory.
proof fn lemma_warning_key(a: WarnFindingM, b: WarnFindingM)
    ensures
        (ByWarning::key(a) == ByWarning::key(b)) == (a.kind == b.kind && a.advisory_id
            == b.advisory_id),
{
    lemma_number_first(
        finding::warn_rank(a.kind),
        finding::warn_rank(b.kind),
        opt_key(a.advisory_id),
        opt_key(b.advisory_id),
    );
    let e = Seq::<int>::empty();
    assert(seq![0int] =~= seq![0int] + e);
    match a.advisory_id {
        None => match b.advisory_id {
            None => {},
            Some(y) => {
                lemma_number_first(0, 1, e, text::text_key(y));
            },
        },
        Some(x) => match b.advisory_id {
            None => {
                lemma_number_first(1, 0, text::text_key(x), e);
            },
            Some(y) => {
                lemma_number_first(1, 1, text::text_key(x), text::text_key(y));
                text::lemma_text_key_apart(x, y);
            },
        },
    }
}

/// Warnings are grouped by kind and advisory, strictly in that order, and occur exactly where
/// some warning of the same kind and advisory occurred.
pub proof fn warnings_are_conserved(input: Seq<WarnFindingM>, j: int, o: OccurrenceM)
    requires
        0 <= j < correlated_warns(input).len(),
    ensures
        correlated_warns(input)[j].occurrences.contains(o) == warned_at(
            input,
            correlated_warns(input)[j],
            o,
        ),
        forall|h: int|
            0 <= h < j ==> order::lex_lt(
                ByWarning::key(#[trigger] correlated_warns(input)[h]),
                ByWarning::key(correlated_warns(input)[j]),
            ),
{
    let gs = order::groups::<ByWarning>(input);
    let g = gs[j];
    let out = correlated_warns(input);
    let f = out[j];
    order::lemma_groups::<ByWarning>(input);
    assert(order::one_key::<ByWarning>(gs[j]));
    lemma_merged_warns(g, o);
    lemma_tidy_occurrences(merged_warns(g).occurrences, o);
    let k = order::group_key::<ByWarning>(g);
    let is_k = order::key_is::<ByWarning>(k);
    assert(g == input.filter(is_k));
    assert forall|x: WarnFindingM| #[trigger] g.contains(x) == (input.contains(x) && x.kind
        == f.kind && x.advisory_id == f.advisory_id) by {
        lemma_warning_key(x, g[0]);
        if g.contains(x) {
            input.lemma_filter_contains_rev(is_k, x);
            let h = choose|h: int| 0 <= h < g.len() && g[h] == x;
            assert(ByWarning::key(g[h]) == k);
        }
        if input.contains(x) && x.kind == f.kind && x.advisory_id == f.advisory_id {
            let h = choose|h: int| 0 <= h < input.len() && input[h] == x;
            assert(is_k(input[h]));
            input.lemma_filter_contains(is_k, h);
        }
    }
    if f.occurrences.contains(o) {
        let a = choose|a: int| 0 <= a < g.len() && (#[trigger] g[a]).occurrences.contains(o);
        assert(g.contains(g[a]));
        let b = choose|b: int| 0 <= b < input.len() && input[b] == g[a];
        assert(input[b].occurrences.contains(o));
    }
    if warned_at(input, f, o) {
        let b = choose|b: int|
            0 <= b < input.len() && (#[trigger] input[b]).kind == f.kind && input[b].advisory_id
                == f.advisory_id && input[b].occurrences.contains(o);
        assert(input.contains(input[b]));
        assert(g.contains(input[b]));
        let a = choose|a: int| 0 <= a < g.len() && g[a] == input[b];
        assert(g[a].occurrences.contains(o));
    }
    assert forall|h: int| 0 <= h < j implies order::lex_lt(
        ByWarning::key(#[trigger] out[h]),
        ByWarning::key(out[j]),
    ) by {
        assert(order::one_key::<ByWarning>(gs[h]));
        lemma_merged_warns(gs[h], o);
        assert(order::lex_lt(
            order::group_key::<ByWarning>(gs[h]),
            order::group_key::<ByWarning>(gs[j]),
        ));
    }
}

/// Occurrences come in order, no two of them are the same, and there are never more of them.
pub proof fn occurrences_are_tidy(s: Seq<OccurrenceM>)
    ensures
        order::sorted::<ByOccurrence>(tidy_occurrences(s)),
        tidy_occurrences(s).no_duplicates(),
        tidy_occurrences(s).len() <= s.len(),
{
    let t = order::in_order::<ByOccurrence>(s);
    order::lemma_in_order::<ByOccurrence>(s);
    order::lemma_distinct_sorted::<ByOccurrence>(t);
    order::lemma_distinct(t);
}

pub open spec fn vuln_places() -> spec_fn(VulnFindingM) -> nat {
    |f: VulnFindingM| f.occurrences.len()
}

pub open spec fn warn_places() -> spec_fn(WarnFindingM) -> nat {
    |f: WarnFindingM| f.occurrences.len()
}

proof fn lemma_merged_places(g: Seq<VulnFindingM>)
    requires
        g.len() > 0,
    ensures
        merged_all(g).occurrences.len() == order::sum_of(g, vuln_places()),
    decreases g.len(),
{
    if g.len() == 1 {
        assert(g.drop_last() =~= Seq::empty());
        assert(order::sum_of(g.drop_last(), vuln_places()) == 0);
    } else {
        lemma_merged_places(g.drop_last());
    }
}

proof fn lemma_merged_warn_places(g: Seq<WarnFindingM>)
    requires
        g.len() > 0,
    ensures
        merged_warns(g).occurrences.len() == order::sum_of(g, warn_places()),
    decreases g.len(),
{
    if g.len() == 1 {
        assert(g.drop_last() =~= Seq::empty());
        assert(order::sum_of(g.drop_last(), warn_places()) == 0);
    } else {
        lemma_merged_warn_places(g.drop_last());
    }
}

proof fn lemma_groups_places(gs: Seq<Seq<VulnFindingM>>)
    requires
        forall|i: int| 0 <= i < gs.len() ==> (#[trigger] gs[i]).len() > 0,
    ensures
        order::sum_of(tidy_groups(gs), vuln_places()) <= order::sum_of_groups(gs, vuln_places()),
    decreases gs.len(),
{
    if gs.len() > 0 {
        let l = gs.drop_last();
        assert forall|i: int| 0 <= i < l.len() implies (#[trigger] l[i]).len() > 0 by {
            assert(l[i] == gs[i]);
        }
        lemma_groups_places(l);
        assert(gs[gs.len() - 1].len() > 0);
        lemma_merged_places(gs.last());
        occurrences_are_tidy(merged_all(gs.last()).occurrences);
        assert(tidy_groups(gs).drop_last() =~= tidy_groups(l));
    }
}

proof fn lemma_groups_warn_places(gs: Seq<Seq<WarnFindingM>>)
    requires
        forall|i: int| 0 <= i < gs.len() ==> (#[trigger] gs[i]).len() > 0,
    ensures
        order::sum_of(
            Seq::new(gs.len(), |i: int| tidy_warn(merged_warns(gs[i]))),
            warn_places(),
        ) <= order::sum_of_groups(gs, warn_places()),
    decreases gs.len(),
{
    let all = Seq::new(gs.len(), |i: int| tidy_warn(merged_warns(gs[i])));
    if gs.len() > 0 {
        let l = gs.drop_last();
        assert forall|i: int| 0 <= i < l.len() implies (#[trigger] l[i]).len() > 0 by {
            assert(l[i] == gs[i]);
        }
        lemma_groups_warn_places(l);
        assert(gs[gs.len() - 1].len() > 0);
        lemma_merged_warn_places(gs.last());
        occurrences_are_tidy(merged_warns(gs.last()).occurrences);
        assert(all.drop_last() =~= Seq::new(l.len(), |i: int| tidy_warn(merged_warns(l[i]))));
    }
}

/// Folding never makes occurrences up: in all there are at most as many as before, of
/// vulnerabilities and of warnings.
pub proof fn occurrences_only_shrink(vulns: Seq<VulnFindingM>, warns: Seq<WarnFindingM>)
    ensures
        order::sum_of(correlated_vulns(vulns), vuln_places()) <= order::sum_of(
            vulns,
            vuln_places(),
        ),
        order::sum_of(correlated_warns(warns), warn_places()) <= order::sum_of(
            warns,
            warn_places(),
        ),
{
    let gs = order::groups::<ByAdvisory>(vulns);
    order::lemma_groups::<ByAdvisory>(vulns);
    assert forall|i: int| 0 <= i < gs.len() implies (#[trigger] gs[i]).len() > 0 by {
        assert(order::one_key::<ByAdvisory>(gs[i]));
    }
    lemma_groups_places(gs);
    order::lemma_sum_groups::<ByAdvisory>(vulns, vuln_places());
    order::lemma_sum_groups::<ByWorst>(tidy_groups(gs), vuln_places());
    let ws = order::groups::<ByWarning>(warns);
    order::lemma_groups::<ByWarning>(warns);
    assert forall|i: int| 0 <= i < ws.len() implies (#[trigger] ws[i]).len() > 0 by {
        assert(order::one_key::<ByWarning>(ws[i]));
    }
    lemma_groups_warn_places(ws);
    order::lemma_sum_groups::<ByWarning>(warns, warn_places());
}

/// Whether some warning has a kind and an advisory.
pub open spec fn has_warning(s: Seq<WarnFindingM>, w: WarnFindingM) -> bool {
    exists|i: int|
        0 <= i < s.len() && (#[trigger] s[i]).kind == w.kind && s[i].advisory_id == w.advisory_id
}

/// The warnings of the fleet are of the kinds and advisories of the input, and of all of them.
pub proof fn one_warning_per_kind_and_advisory(input: Seq<WarnFindingM>)
    ensures
        forall|i: int|
            0 <= i < input.len() ==> has_warning(correlated_warns(input), #[trigger] input[i]),
        forall|j: int|
            0 <= j < correlated_warns(input).len() ==> has_warning(
                input,
                #[trigger] correlated_warns(input)[j],
            ),
{
    let gs = order::groups::<ByWarning>(input);
    let out = correlated_warns(input);
    order::lemma_groups::<ByWarning>(input);
    assert forall|j: int| 0 <= j < out.len() implies #[trigger] out[j].kind == gs[j][0].kind
        && out[j].advisory_id == gs[j][0].advisory_id by {
        assert(order::one_key::<ByWarning>(gs[j]));
        lemma_merged_warn_first(gs[j]);
    }
    assert forall|i: int| 0 <= i < input.len() implies has_warning(out, #[trigger] input[i]) by {
        assert(order::has_group::<ByWarning>(gs, ByWarning::key(input[i])));
        let n = choose|n: int|
            0 <= n < gs.len() && order::group_key::<ByWarning>(#[trigger] gs[n])
                == ByWarning::key(input[i]);
        lemma_warning_key(gs[n][0], input[i]);
        assert(out[n].kind == gs[n][0].kind);
    }
    assert forall|j: int| 0 <= j < out.len() implies has_warning(input, #[trigger] out[j]) by {
        assert(out[j].kind == gs[j][0].kind);
        assert(order::one_key::<ByWarning>(gs[j]));
        let k = order::group_key::<ByWarning>(gs[j]);
        assert(gs[j] == order::with_key::<ByWarning>(input, k));
        assert(gs[j].contains(gs[j][0]));
        input.lemma_filter_contains_rev(order::key_is::<ByWarning>(k), gs[j][0]);
        let i = choose|i: int| 0 <= i < input.len() && input[i] == gs[j][0];
        assert(input[i].kind == out[j].kind);
    }
}

proof fn lemma_merged_warn_first(g: Seq<WarnFindingM>)
    requires
        g.len() > 0,
    ensures
        merged_warns(g).kind == g[0].kind,
        merged_warns(g).advisory_id == g[0].advisory_id,
    decreases g.len(),
{
    if g.len() > 1 {
        lemma_merged_warn_first(g.drop_last());
    }
}

// --- What a group comes to ---

/// The members of a group are the findings of its advisory.
proof fn lemma_members(input: Seq<VulnFindingM>, i: int, x: VulnFindingM)
    requires
        0 <= i < order::groups::<ByAdvisory>(input).len(),
    ensures
        order::groups::<ByAdvisory>(input)[i].len() > 0,
        order::groups::<ByAdvisory>(input)[i].contains(x) == (input.contains(x) && x.advisory_id
            == order::groups::<ByAdvisory>(input)[i][0].advisory_id),
{
    let g = order::groups::<ByAdvisory>(input)[i];
    order::lemma_groups::<ByAdvisory>(input);
    assert(order::one_key::<ByAdvisory>(g));
    let k = order::group_key::<ByAdvisory>(g);
    let is_k = order::key_is::<ByAdvisory>(k);
    assert(g == input.filter(is_k));
    text::lemma_text_key_apart(x.advisory_id, g[0].advisory_id);
    if g.contains(x) {
        input.lemma_filter_contains_rev(is_k, x);
        let h = choose|h: int| 0 <= h < g.len() && g[h] == x;
        assert(ByAdvisory::key(g[h]) == k);
    }
    if input.contains(x) && x.advisory_id == g[0].advisory_id {
        let h = choose|h: int| 0 <= h < input.len() && input[h] == x;
        assert(is_k(input[h]));
        input.lemma_filter_contains(is_k, h);
    }
}

proof fn lemma_merged_severity(g: Seq<VulnFindingM>)
    requires
        g.len() > 0,
    ensures
        merged_all(g).advisory_id == g[0].advisory_id,
        forall|i: int|
            0 <= i < g.len() ==> severity::severity_rank((#[trigger] g[i]).severity)
                <= severity::severity_rank(merged_all(g).severity),
        exists|i: int| 0 <= i < g.len() && (#[trigger] g[i]).severity == merged_all(g).severity,
    decreases g.len(),
{
    if g.len() == 1 {
        assert(g[0].severity == merged_all(g).severity);
    } else {
        let l = g.drop_last();
        lemma_merged_severity(l);
        let k = choose|k: int| 0 <= k < l.len() && (#[trigger] l[k]).severity == merged_all(
            l,
        ).severity;
        assert(g[k] == l[k]);
        assert(g[g.len() - 1] == g.last());
        assert forall|i: int| 0 <= i < g.len() implies severity::severity_rank(
            (#[trigger] g[i]).severity,
        ) <= severity::severity_rank(merged_all(g).severity) by {
            if i < l.len() {
                assert(l[i] == g[i]);
            }
        }
        if merged_all(g).severity == merged_all(l).severity {
            assert(g[k].severity == merged_all(g).severity);
        } else {
            assert(g[g.len() - 1].severity == merged_all(g).severity);
        }
    }
}

/// The severity of a finding of the fleet is the worst of the findings of its advisory.
pub proof fn severity_is_the_worst(input: Seq<VulnFindingM>, j: int)
    requires
        0 <= j < correlated_vulns(input).len(),
    ensures
        ({
            let f = correlated_vulns(input)[j];
            &&& forall|i: int|
                0 <= i < input.len() && (#[trigger] input[i]).advisory_id == f.advisory_id
                    ==> severity::severity_rank(input[i].severity) <= severity::severity_rank(
                    f.severity,
                )
            &&& exists|i: int|
                0 <= i < input.len() && (#[trigger] input[i]).advisory_id == f.advisory_id
                    && input[i].severity == f.severity
        }),
{
    let f = correlated_vulns(input)[j];
    let i = lemma_correlated_from(input, j);
    let g = order::groups::<ByAdvisory>(input)[i];
    lemma_members(input, i, f);
    lemma_merged_severity(g);
    assert forall|h: int|
        0 <= h < input.len() && (#[trigger] input[h]).advisory_id
            == f.advisory_id implies severity::severity_rank(input[h].severity)
        <= severity::severity_rank(f.severity) by {
        lemma_members(input, i, input[h]);
        assert(input.contains(input[h]));
        let k = choose|k: int| 0 <= k < g.len() && g[k] == input[h];
        assert(severity::severity_rank(g[k].severity) <= severity::severity_rank(f.severity));
    }
    let k = choose|k: int| 0 <= k < g.len() && (#[trigger] g[k]).severity == merged_all(g).severity;
    lemma_members(input, i, g[k]);
    assert(g.contains(g[k]));
    let h = choose|h: int| 0 <= h < input.len() && input[h] == g[k];
    assert(input[h].severity == f.severity);
}

/// Whether some finding of `s` is about the advisory `id` and has the alias.
pub open spec fn aliased_in(s: Seq<VulnFindingM>, id: Seq<char>, alias: Seq<char>) -> bool {
    exists|i: int|
        0 <= i < s.len() && (#[trigger] s[i]).advisory_id == id && s[i].aliases.contains(alias)
}

proof fn lemma_merged_aliases(g: Seq<VulnFindingM>, alias: Seq<char>)
    requires
        g.len() > 0,
    ensures
        merged_all(g).aliases.contains(alias) == exists|i: int|
            0 <= i < g.len() && (#[trigger] g[i]).aliases.contains(alias),
    decreases g.len(),
{
    if g.len() == 1 {
        if merged_all(g).aliases.contains(alias) {
            assert(g[0].aliases.contains(alias));
        }
    } else {
        let l = g.drop_last();
        lemma_merged_aliases(l, alias);
        lemma_concat_contains(merged_all(l).aliases, g.last().aliases, alias);
        if exists|i: int| 0 <= i < l.len() && (#[trigger] l[i]).aliases.contains(alias) {
            let i = choose|i: int| 0 <= i < l.len() && (#[trigger] l[i]).aliases.contains(alias);
            assert(g[i].aliases.contains(alias));
        }
        assert(g[g.len() - 1] == g.last());
        if exists|i: int| 0 <= i < g.len() && (#[trigger] g[i]).aliases.contains(alias) {
            let i = choose|i: int| 0 <= i < g.len() && (#[trigger] g[i]).aliases.contains(alias);
            if i < l.len() {
                assert(l[i].aliases.contains(alias));
            }
        }
    }
}

/// The aliases of a finding of the fleet are those of all findings of its advisory, in order and
/// each once.
pub proof fn aliases_are_united(input: Seq<VulnFindingM>, j: int, alias: Seq<char>)
    requires
        0 <= j < correlated_vulns(input).len(),
    ensures
        order::strictly_sorted::<value::ByText>(correlated_vulns(input)[j].aliases),
        correlated_vulns(input)[j].aliases.contains(alias) == aliased_in(
            input,
            correlated_vulns(input)[j].advisory_id,
            alias,
        ),
{
    let f = correlated_vulns(input)[j];
    let i = lemma_correlated_from(input, j);
    let g = order::groups::<ByAdvisory>(input)[i];
    lemma_members(input, i, f);
    lemma_merged_severity(g);
    lemma_merged_aliases(g, alias);
    value::lemma_text_set(merged_all(g).aliases);
    assert(f.aliases.contains(alias) == merged_all(g).aliases.contains(alias));
    if f.aliases.contains(alias) {
        let k = choose|k: int| 0 <= k < g.len() && (#[trigger] g[k]).aliases.contains(alias);
        lemma_members(input, i, g[k]);
        assert(g.contains(g[k]));
        let h = choose|h: int| 0 <= h < input.len() && input[h] == g[k];
        assert(input[h].aliases.contains(alias));
    }
    if aliased_in(input, f.advisory_id, alias) {
        let h = choose|h: int|
            0 <= h < input.len() && (#[trigger] input[h]).advisory_id == f.advisory_id
                && input[h].aliases.contains(alias);
        lemma_members(input, i, input[h]);
        assert(input.contains(input[h]));
        let k = choose|k: int| 0 <= k < g.len() && g[k] == input[h];
        assert(g[k].aliases.contains(alias));
    }
}

// --- Folding again ---

/// Tidying what is tidy changes nothing.
proof fn lemma_tidy_again(s: Seq<OccurrenceM>, aliases: Seq<Seq<char>>)
    ensures
        tidy_occurrences(tidy_occurrences(s)) == tidy_occurrences(s),
        value::text_set(value::text_set(aliases)) == value::text_set(aliases),
{
    occurrences_are_tidy(s);
    order::lemma_in_order_stays::<ByOccurrence>(tidy_occurrences(s));
    order::lemma_distinct(tidy_occurrences(s));
    value::lemma_text_set(aliases);
    value::lemma_text_set_of_same(value::text_set(aliases), aliases);
}

/// A group of findings that are all of different advisories is one finding.
proof fn lemma_lone(s: Seq<VulnFindingM>, i: int)
    requires
        0 <= i < order::groups::<ByAdvisory>(s).len(),
        forall|a: int, b: int|
            0 <= a < s.len() && 0 <= b < s.len() && a != b ==> (#[trigger] s[a]).advisory_id != (
            #[trigger] s[b]).advisory_id,
    ensures
        order::groups::<ByAdvisory>(s)[i].len() == 1,
        s.contains(order::groups::<ByAdvisory>(s)[i][0]),
{
    let g = order::groups::<ByAdvisory>(s)[i];
    order::lemma_groups::<ByAdvisory>(s);
    let k = order::group_key::<ByAdvisory>(g);
    let is_k = order::key_is::<ByAdvisory>(k);
    assert(g == s.filter(is_k));
    lemma_members(s, i, g[0]);
    assert(g.contains(g[0]));
    assert(s.no_duplicates());
    lemma_filter_distinct(s, is_k);
    if g.len() > 1 {
        lemma_members(s, i, g[1]);
        assert(g.contains(g[1]));
        let a = choose|a: int| 0 <= a < s.len() && s[a] == g[0];
        let b = choose|b: int| 0 <= b < s.len() && s[b] == g[1];
        assert(g[0] != g[1]);
        assert(s[a].advisory_id == s[b].advisory_id);
    }
}

proof fn lemma_filter_distinct<A>(s: Seq<A>, p: spec_fn(A) -> bool)
    requires
        s.no_duplicates(),
    ensures
        s.filter(p).no_duplicates(),
    decreases s.len(),
{
    reveal(Seq::filter);
    if s.len() > 0 {
        let l = s.drop_last();
        lemma_filter_distinct(l, p);
        let f = l.filter(p);
        if p(s.last()) {
            assert(!f.contains(s.last())) by {
                if f.contains(s.last()) {
                    l.lemma_filter_contains_rev(p, s.last());
                    let i = choose|i: int| 0 <= i < l.len() && l[i] == s.last();
                    assert(s[i] == s[s.len() - 1]);
                }
            }
            assert forall|i: int, j: int|
                0 <= i < f.push(s.last()).len() && 0 <= j < f.push(s.last()).len() && i
                    != j implies f.push(s.last())[i] != f.push(s.last())[j] by {
                if i < f.len() && j < f.len() {
                } else if i < f.len() {
                    assert(f.contains(f[i]));
                } else if j < f.len() {
                    assert(f.contains(f[j]));
                }
            }
        }
    }
}

proof fn lemma_worst_strictly(input: Seq<VulnFindingM>)
    ensures
        order::strictly_sorted::<ByWorst>(correlated_vulns(input)),
{
    let out = correlated_vulns(input);
    let t = tidy_groups(order::groups::<ByAdvisory>(input));
    order::lemma_in_order::<ByWorst>(t);
    one_finding_per_advisory(input);
    assert forall|i: int, j: int| 0 <= i < j < out.len() implies order::lex_lt(
        #[trigger] ByWorst::key(out[i]),
        #[trigger] ByWorst::key(out[j]),
    ) by {
        let a = out[i];
        let b = out[j];
        assert(order::lex_le(ByWorst::key(out[i]), ByWorst::key(out[j])));
        lemma_number_first(
            -severity::severity_rank(a.severity),
            -severity::severity_rank(b.severity),
            text::text_key(a.advisory_id),
            text::text_key(b.advisory_id),
        );
        text::lemma_text_key_apart(a.advisory_id, b.advisory_id);
        order::lemma_lex_total(ByWorst::key(a), ByWorst::key(b));
    }
}

/// Folding what is folded changes nothing.
pub proof fn folding_twice_changes_nothing(input: Seq<VulnFindingM>)
    ensures
        correlated_vulns(correlated_vulns(input)) == correlated_vulns(input),
{
    let out = correlated_vulns(input);
    let again = correlated_vulns(out);
    let gs = order::groups::<ByAdvisory>(out);
    let t = tidy_groups(gs);
    one_finding_per_advisory(input);
    order::lemma_groups::<ByAdvisory>(out);
    assert forall|i: int| 0 <= i < gs.len() implies #[trigger] t[i] == gs[i][0] && out.contains(
        gs[i][0],
    ) by {
        lemma_lone(out, i);
        let j = choose|j: int| 0 <= j < out.len() && out[j] == gs[i][0];
        let n = lemma_correlated_from(input, j);
        let m = merged_all(order::groups::<ByAdvisory>(input)[n]);
        lemma_tidy_again(m.occurrences, m.aliases);
        assert(merged_all(gs[i]) == gs[i][0]);
        assert(tidy(tidy(m)) == tidy(m));
    }
    lemma_worst_strictly(input);
    lemma_worst_strictly(out);
    assert forall|x: VulnFindingM| again.contains(x) == out.contains(x) by {
        order::lemma_in_order_contains::<ByWorst>(t, x);
        if t.contains(x) {
            let i = choose|i: int| 0 <= i < t.len() && t[i] == x;
            assert(t[i] == gs[i][0]);
        }
        if out.contains(x) {
            let h = choose|h: int| 0 <= h < out.len() && out[h] == x;
            assert(order::has_group::<ByAdvisory>(gs, ByAdvisory::key(out[h])));
            let i = choose|i: int|
                0 <= i < gs.len() && order::group_key::<ByAdvisory>(#[trigger] gs[i])
                    == ByAdvisory::key(out[h]);
            lemma_lone(out, i);
            let j = choose|j: int| 0 <= j < out.len() && out[j] == gs[i][0];
            text::lemma_text_key_apart(out[j].advisory_id, out[h].advisory_id);
            assert(j == h);
            assert(t[i] == x);
        }
    }
    order::lemma_strict_unique::<ByWorst>(again, out);
}

proof fn lemma_warnings_strictly(input: Seq<WarnFindingM>)
    ensures
        order::strictly_sorted::<ByWarning>(correlated_warns(input)),
{
    let out = correlated_warns(input);
    assert forall|i: int, j: int| 0 <= i < j < out.len() implies order::lex_lt(
        #[trigger] ByWarning::key(out[i]),
        #[trigger] ByWarning::key(out[j]),
    ) by {
        warnings_are_conserved(input, j, arbitrary());
    }
}

/// Folding warnings that are folded changes nothing.
pub proof fn folding_warnings_twice_changes_nothing(input: Seq<WarnFindingM>)
    ensures
        correlated_warns(correlated_warns(input)) == correlated_warns(input),
{
    let out = correlated_warns(input);
    let again = correlated_warns(out);
    let before = order::groups::<ByWarning>(input);
    let gs = order::groups::<ByWarning>(out);
    order::lemma_groups::<ByWarning>(out);
    lemma_warnings_strictly(input);
    lemma_warnings_strictly(out);
    assert(out.no_duplicates()) by {
        assert forall|a: int, b: int| 0 <= a < out.len() && 0 <= b < out.len() && a
            != b implies out[a] != out[b] by {
            lemma_apart_warnings(out, a, b);
        }
    }
    assert forall|i: int| 0 <= i < gs.len() implies #[trigger] again[i] == gs[i][0] && gs[i].len()
        == 1 && out.contains(gs[i][0]) by {
        let g = gs[i];
        let is_k = order::key_is::<ByWarning>(order::group_key::<ByWarning>(g));
        assert(order::one_key::<ByWarning>(gs[i]));
        assert(g == out.filter(is_k));
        assert(g.contains(g[0]));
        out.lemma_filter_contains_rev(is_k, g[0]);
        lemma_filter_distinct(out, is_k);
        let a = choose|a: int| 0 <= a < out.len() && out[a] == g[0];
        if g.len() > 1 {
            assert(g.contains(g[1]));
            out.lemma_filter_contains_rev(is_k, g[1]);
            let b = choose|b: int| 0 <= b < out.len() && out[b] == g[1];
            assert(ByWarning::key(g[1]) == ByWarning::key(g[0]));
            assert(g[0] != g[1]);
            lemma_apart_warnings(out, a, b);
        }
        let m = merged_warns(before[a]);
        lemma_tidy_again(m.occurrences, Seq::empty());
        assert(out[a] == tidy_warn(m));
        assert(tidy_warn(tidy_warn(m)) == tidy_warn(m));
    }
    assert forall|x: WarnFindingM| again.contains(x) == out.contains(x) by {
        if again.contains(x) {
            let i = choose|i: int| 0 <= i < again.len() && again[i] == x;
            assert(again[i] == gs[i][0]);
        }
        if out.contains(x) {
            let h = choose|h: int| 0 <= h < out.len() && out[h] == x;
            assert(order::has_group::<ByWarning>(gs, ByWarning::key(out[h])));
            let i = choose|i: int|
                0 <= i < gs.len() && order::group_key::<ByWarning>(#[trigger] gs[i])
                    == ByWarning::key(out[h]);
            assert(again[i] == gs[i][0]);
            let j = choose|j: int| 0 <= j < out.len() && out[j] == gs[i][0];
            if j != h {
                lemma_apart_warnings(out, j, h);
            }
            assert(again[i] == x);
        }
    }
    order::lemma_strict_unique::<ByWarning>(again, out);
}

proof fn lemma_apart_warnings(s: Seq<WarnFindingM>, a: int, b: int)
    requires
        order::strictly_sorted::<ByWarning>(s),
        0 <= a < s.len(),
        0 <= b < s.len(),
        a != b,
    ensures
        ByWarning::key(s[a]) != ByWarning::key(s[b]),
{
    order::lemma_lex_irreflexive(ByWarning::key(s[a]));
    if a < b {
        assert(order::lex_lt(ByWarning::key(s[a]), ByWarning::key(s[b])));
    } else {
        assert(order::lex_lt(ByWarning::key(s[b]), ByWarning::key(s[a])));
    }
}

proof fn lemma_merged_rest(g: Seq<VulnFindingM>)
    requires
        g.len() > 0,
    ensures
        merged_all(g).ecosystem == g[0].ecosystem,
        merged_all(g).cvss_score == g[0].cvss_score,
        merged_all(g).affected_functions == g[0].affected_functions,
        merged_all(g).reachable == g[0].reachable,
        merged_all(g).reachability == g[0].reachability,
        merged_all(g).exploit == g[0].exploit,
    decreases g.len(),
{
    if g.len() > 1 {
        lemma_merged_rest(g.drop_last());
    }
}

proof fn lemma_merged_title(g: Seq<VulnFindingM>, k: int)
    requires
        0 <= k < g.len(),
        g[k].title.len() > 0,
        forall|m: int| 0 <= m < k ==> (#[trigger] g[m]).title.len() == 0,
    ensures
        merged_all(g).title == g[k].title,
    decreases g.len(),
{
    if g.len() > 1 {
        let l = g.drop_last();
        if k < l.len() {
            lemma_merged_title(l, k);
        } else {
            lemma_merged_untitled(l);
        }
    }
}

proof fn lemma_merged_untitled(g: Seq<VulnFindingM>)
    requires
        g.len() > 0,
        forall|m: int| 0 <= m < g.len() ==> (#[trigger] g[m]).title.len() == 0,
    ensures
        merged_all(g).title.len() == 0,
    decreases g.len(),
{
    if g.len() > 1 {
        lemma_merged_untitled(g.drop_last());
    }
}

/// The finding of an advisory is made of those of the input about it, in their order: what is not
/// united is that of the first.
pub proof fn the_first_finding_speaks(input: Seq<VulnFindingM>, j: int)
    requires
        0 <= j < correlated_vulns(input).len(),
    ensures
        ({
            let f = correlated_vulns(input)[j];
            let own = about(input, f.advisory_id);
            &&& own.len() > 0
            &&& f.ecosystem == own[0].ecosystem
            &&& f.cvss_score == own[0].cvss_score
            &&& f.affected_functions == own[0].affected_functions
            &&& f.reachable == own[0].reachable
            &&& f.reachability == own[0].reachability
            &&& f.exploit == own[0].exploit
        }),
{
    let i = lemma_own_group(input, j);
    lemma_merged_rest(order::groups::<ByAdvisory>(input)[i]);
}

/// The findings about an advisory.
pub open spec fn about(input: Seq<VulnFindingM>, id: Seq<char>) -> Seq<VulnFindingM> {
    input.filter(|x: VulnFindingM| x.advisory_id == id)
}

/// The title of the first finding about an advisory that has one is the title.
pub proof fn the_first_title_is_kept(input: Seq<VulnFindingM>, j: int, k: int)
    requires
        0 <= j < correlated_vulns(input).len(),
        0 <= k < about(input, correlated_vulns(input)[j].advisory_id).len(),
        about(input, correlated_vulns(input)[j].advisory_id)[k].title.len() > 0,
        forall|m: int|
            0 <= m < k ==> (#[trigger] about(
                input,
                correlated_vulns(input)[j].advisory_id,
            )[m]).title.len() == 0,
    ensures
        correlated_vulns(input)[j].title == about(
            input,
            correlated_vulns(input)[j].advisory_id,
        )[k].title,
{
    let i = lemma_own_group(input, j);
    lemma_merged_title(about(input, correlated_vulns(input)[j].advisory_id), k);
}

proof fn lemma_own_group(input: Seq<VulnFindingM>, j: int) -> (i: int)
    requires
        0 <= j < correlated_vulns(input).len(),
    ensures
        0 <= i < order::groups::<ByAdvisory>(input).len(),
        correlated_vulns(input)[j] == tidy(merged_all(order::groups::<ByAdvisory>(input)[i])),
        order::groups::<ByAdvisory>(input)[i] == about(input, correlated_vulns(input)[j].advisory_id),
        order::groups::<ByAdvisory>(input)[i].len() > 0,
{
    let i = lemma_correlated_from(input, j);
    let gs = order::groups::<ByAdvisory>(input);
    lemma_group_finding(input, i, arbitrary());
    order::lemma_groups::<ByAdvisory>(input);
    assert(order::one_key::<ByAdvisory>(gs[i]));
    lemma_same_advisory(input, correlated_vulns(input)[j].advisory_id);
    i
}

proof fn lemma_same_advisory(input: Seq<VulnFindingM>, id: Seq<char>)
    ensures
        order::with_key::<ByAdvisory>(input, text::text_key(id)) == about(input, id),
    decreases input.len(),
{
    reveal(Seq::filter);
    if input.len() > 0 {
        lemma_same_advisory(input.drop_last(), id);
        text::lemma_text_key_apart(input.last().advisory_id, id);
    }
}

} // verus!
