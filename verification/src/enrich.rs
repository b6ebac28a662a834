//! Exploit signals from outside feeds: the catalog of known exploited vulnerabilities, the
//! estimated probability of exploitation, and base scores for advisories that carry none.
use vstd::prelude::*;
use crate::correlate;
use crate::cut;
use crate::finding::{Exploitability, VulnFinding, VulnFindingM};
use crate::json;
use crate::json::{Json, JsonM};
use crate::orchestrate;
use crate::order;
use crate::order::Rel;
use crate::report::FleetReport;
use crate::score;
use crate::score::Score;
use crate::severity;
use crate::severity::Severity;
use crate::text;
use crate::textmap::TextMap;
use crate::value;

verus! {

/// Signals by CVE.
#[derive(Debug)]
pub struct Enrichment {
    /// The CVEs that are known to be exploited.
    pub kev: Vec<String>,
    /// The estimated probability of exploitation.
    pub epss: TextMap<Score>,
    /// The base score.
    pub cvss: TextMap<Score>,
}

#[verifier::ext_equal]
pub struct EnrichmentM {
    pub kev: Seq<Seq<char>>,
    pub epss: Map<Seq<char>, Score>,
    pub cvss: Map<Seq<char>, Score>,
}

impl DeepView for Enrichment {
    type V = EnrichmentM;

    open spec fn deep_view(&self) -> EnrichmentM {
        EnrichmentM {
            kev: self.kev.deep_view(),
            epss: self.epss.deep_view(),
            cvss: self.cvss.deep_view(),
        }
    }
}

// --- Severity from a score ---

/// The bits of nine.
pub const NINE: u64 = 0x4022_0000_0000_0000;

/// The bits of seven.
pub const SEVEN: u64 = 0x401c_0000_0000_0000;

/// The bits of four.
pub const FOUR: u64 = 0x4010_0000_0000_0000;

/// The bits of minus one.
pub const MINUS_ONE: u64 = 0xbff0_0000_0000_0000;

/// The band of a base score: critical from nine, high from seven, medium from four, low above
/// zero, else unknown.
pub open spec fn band_of(s: Score) -> Severity {
    if score::at_least(s, Score { bits: NINE }) {
        Severity::Critical
    } else if score::at_least(s, Score { bits: SEVEN }) {
        Severity::High
    } else if score::at_least(s, Score { bits: FOUR }) {
        Severity::Medium
    } else if score::below(Score { bits: 0 }, s) {
        Severity::Low
    } else {
        Severity::Unknown
    }
}

/// The band of a base score.
pub fn severity_from_score(s: Score) -> (r: Severity)
    ensures
        r == band_of(s),
{
    let nine: Score = Score { bits: NINE };
    let seven: Score = Score { bits: SEVEN };
    let four: Score = Score { bits: FOUR };
    let zero: Score = Score { bits: 0 };
    if s.at_least(nine) {
        Severity::Critical
    } else if s.at_least(seven) {
        Severity::High
    } else if s.at_least(four) {
        Severity::Medium
    } else if zero.less_than(s) {
        Severity::Low
    } else {
        Severity::Unknown
    }
}

// --- Annotation ---

pub open spec fn is_cve(a: Seq<char>) -> bool {
    text::occurs_at(a, "CVE-"@, 0)
}

/// The aliases that are CVEs, in order.
pub open spec fn cves_in(aliases: Seq<Seq<char>>) -> Seq<Seq<char>>
    decreases aliases.len(),
{
    if aliases.len() == 0 {
        Seq::empty()
    } else if is_cve(aliases.last()) {
        cves_in(aliases.drop_last()).push(aliases.last())
    } else {
        cves_in(aliases.drop_last())
    }
}

fn collect_cves(aliases: &Vec<String>) -> (r: Vec<String>)
    ensures
        r.deep_view() == cves_in(aliases.deep_view()),
{
    let ghost all = aliases.deep_view();
    let mut r: Vec<String> = Vec::new();
    let mut i: usize = 0;
    proof {
        assert(all.take(0) =~= Seq::empty());
        assert(r.deep_view() =~= Seq::empty());
    }
    while i < aliases.len()
        invariant
            i <= aliases.len(),
            all == aliases.deep_view(),
            r.deep_view() == cves_in(all.take(i as int)),
        decreases aliases.len() - i,
    {
        assert(all.take(i + 1).drop_last() =~= all.take(i as int));
        if cut::starts_with(aliases[i].as_str(), "CVE-") {
            let ghost before = r.deep_view();
            let a: String = aliases[i].clone();
            r.push(a);
            assert(r.deep_view() =~= before.push(a@));
        }
        i += 1;
    }
    assert(all.take(i as int) =~= all);
    r
}

/// The greatest score of the CVEs; none where no CVE has one.
pub open spec fn greatest(cves: Seq<Seq<char>>, m: Map<Seq<char>, Score>) -> Option<Score>
    decreases cves.len(),
{
    if cves.len() == 0 {
        None
    } else {
        let front = greatest(cves.drop_last(), m);
        if m.dom().contains(cves.last()) {
            match front {
                Some(a) => Some(score::greater(a, m[cves.last()])),
                None => Some(m[cves.last()]),
            }
        } else {
            front
        }
    }
}

fn find_greatest(cves: &Vec<String>, m: &TextMap<Score>) -> (r: Option<Score>)
    ensures
        r == greatest(cves.deep_view(), m.deep_view()),
{
    let ghost all = cves.deep_view();
    let mut best: Option<Score> = None;
    let mut i: usize = 0;
    assert(all.take(0) =~= Seq::empty());
    while i < cves.len()
        invariant
            i <= cves.len(),
            all == cves.deep_view(),
            best == greatest(all.take(i as int), m.deep_view()),
        decreases cves.len() - i,
    {
        assert(all.take(i + 1).drop_last() =~= all.take(i as int));
        if let Some(s) = m.get(cves[i].as_str()) {
            best = match best {
                Some(a) => Some(a.max_of(*s)),
                None => Some(*s),
            };
        }
        i += 1;
    }
    assert(all.take(i as int) =~= all);
    best
}

pub open spec fn any_known(cves: Seq<Seq<char>>, kev: Seq<Seq<char>>) -> bool {
    exists|i: int| 0 <= i < cves.len() && kev.contains(#[trigger] cves[i])
}

fn is_any_known(cves: &Vec<String>, kev: &Vec<String>) -> (r: bool)
    ensures
        r == any_known(cves.deep_view(), kev.deep_view()),
{
    let ghost all = cves.deep_view();
    let mut i: usize = 0;
    while i < cves.len()
        invariant
            i <= cves.len(),
            all == cves.deep_view(),
            forall|j: int| 0 <= j < i ==> !kev.deep_view().contains(#[trigger] all[j]),
        decreases cves.len() - i,
    {
        assert(cves[i as int]@ == all[i as int]);
        if value::holds(kev, &cves[i]) {
            return true;
        }
        i += 1;
    }
    false
}

/// A finding with the signals of its CVEs: known where any of them is, the greatest
/// probability, and, where its severity is unknown, the band and score of the greatest base
/// score, unless that band is unknown too.
pub open spec fn enriched(e: EnrichmentM, f: VulnFindingM) -> VulnFindingM {
    let cves = cves_in(f.aliases);
    let g = VulnFindingM {
        exploit: Exploitability { kev: any_known(cves, e.kev), epss: greatest(cves, e.epss) },
        ..f
    };
    match greatest(cves, e.cvss) {
        Some(s) => if f.severity == Severity::Unknown && band_of(s) != Severity::Unknown {
            VulnFindingM { severity: band_of(s), cvss_score: Some(s), ..g }
        } else {
            g
        },
        None => g,
    }
}

impl Enrichment {
    /// Adds the signals of its CVEs to each finding.
    pub fn apply(&self, findings: &mut Vec<VulnFinding>)
        ensures
            final(findings).deep_view() == old(findings).deep_view().map_values(
                |f: VulnFindingM| enriched(self.deep_view(), f),
            ),
    {
        let ghost all = findings.deep_view();
        let ghost want = all.map_values(|f: VulnFindingM| enriched(self.deep_view(), f));
        let mut vulns: Vec<VulnFinding> = Vec::new();
        std::mem::swap(&mut vulns, findings);
        let mut out: Vec<VulnFinding> = Vec::new();
        let ghost mut n: int = 0;
        assert(out.deep_view() =~= want.take(0));
        for v in it: vulns
            invariant
                it.seq() == vulns@,
                all == vulns.deep_view(),
                want == all.map_values(|f: VulnFindingM| enriched(self.deep_view(), f)),
                n == it.index(),
                n <= all.len(),
                out.deep_view() == want.take(n),
        {
            let ghost before = out.deep_view();
            let ghost was = v.deep_view();
            let mut f: VulnFinding = v;
            let cves: Vec<String> = collect_cves(&f.aliases);
            f.exploit =
            Exploitability {
                kev: is_any_known(&cves, &self.kev),
                epss: find_greatest(&cves, &self.epss),
            };
            if f.severity == Severity::Unknown {
                if let Some(s) = find_greatest(&cves, &self.cvss) {
                    let band: Severity = severity_from_score(s);
                    if band != Severity::Unknown {
                        f.severity = band;
                        f.cvss_score = Some(s);
                    }
                }
            }
            proof {
                assert(f.deep_view() == enriched(self.deep_view(), was));
                assert(all[n] == was);
            }
            out.push(f);
            proof {
                assert(out.deep_view() =~= before.push(f.deep_view()));
                assert(want.take(n + 1) =~= want.take(n).push(want[n]));
                n = n + 1;
            }
        }
        assert(want.take(n) =~= want);
        *findings = out;
    }
}

/// A severity that the advisory carries is never changed, nor is the score beside it.
pub proof fn enrichment_never_downgrades(e: EnrichmentM, f: VulnFindingM)
    ensures
        severity::severity_rank(enriched(e, f).severity) >= severity::severity_rank(f.severity),
        f.severity != Severity::Unknown ==> enriched(e, f).severity == f.severity && enriched(
            e,
            f,
        ).cvss_score == f.cvss_score,
{
}

/// Signals go by CVE alone: findings that differ in anything but aliases and severity get the
/// same.
pub proof fn enrichment_goes_by_cve(e: EnrichmentM, f: VulnFindingM, g: VulnFindingM)
    requires
        f.aliases == g.aliases,
    ensures
        enriched(e, f).exploit == enriched(e, g).exploit,
        f.severity == g.severity ==> enriched(e, f).severity == enriched(e, g).severity,
{
}

/// Where a finding has no CVE that a feed knows, only its signals are cleared.
pub proof fn unknown_cves_add_nothing(e: EnrichmentM, f: VulnFindingM)
    requires
        forall|i: int|
            0 <= i < f.aliases.len() ==> !e.kev.contains(#[trigger] f.aliases[i])
                && !e.epss.dom().contains(f.aliases[i]) && !e.cvss.dom().contains(f.aliases[i]),
    ensures
        enriched(e, f) == (VulnFindingM { exploit: Exploitability { kev: false, epss: None }, ..f }),
{
    let cves = cves_in(f.aliases);
    lemma_cves(f.aliases);
    assert forall|i: int| 0 <= i < cves.len() implies !e.kev.contains(#[trigger] cves[i])
        && !e.epss.dom().contains(cves[i]) && !e.cvss.dom().contains(cves[i]) by {
        assert(cves.contains(cves[i]));
        let j = choose|j: int| 0 <= j < f.aliases.len() && f.aliases[j] == cves[i];
        assert(!e.kev.contains(f.aliases[j]));
    }
    lemma_no_score(cves, e.epss);
    lemma_no_score(cves, e.cvss);
}

proof fn lemma_cves(aliases: Seq<Seq<char>>)
    ensures
        forall|x: Seq<char>| #[trigger] cves_in(aliases).contains(x) ==> aliases.contains(x),
    decreases aliases.len(),
{
    if aliases.len() > 0 {
        lemma_cves(aliases.drop_last());
        assert forall|x: Seq<char>| #[trigger] cves_in(aliases).contains(x) implies aliases.contains(
            x,
        ) by {
            let c = cves_in(aliases);
            let i = choose|i: int| 0 <= i < c.len() && c[i] == x;
            if x == aliases.last() {
                assert(aliases[aliases.len() - 1] == x);
            } else {
                let front = cves_in(aliases.drop_last());
                assert(front[i] == x);
                assert(front.contains(x));
                let j = choose|j: int|
                    0 <= j < aliases.drop_last().len() && aliases.drop_last()[j] == x;
                assert(aliases[j] == x);
            }
        }
    }
}

proof fn lemma_no_score(cves: Seq<Seq<char>>, m: Map<Seq<char>, Score>)
    requires
        forall|i: int| 0 <= i < cves.len() ==> !m.dom().contains(#[trigger] cves[i]),
    ensures
        greatest(cves, m) is None,
    decreases cves.len(),
{
    if cves.len() > 0 {
        let l = cves.drop_last();
        assert forall|i: int| 0 <= i < l.len() implies !m.dom().contains(#[trigger] l[i]) by {
            assert(l[i] == cves[i]);
        }
        lemma_no_score(l, m);
        assert(!m.dom().contains(cves[cves.len() - 1]));
    }
}

// --- Ranking ---

/// The probability that a finding is ranked by: minus one where there is none.
pub open spec fn risk_score(e: Option<Score>) -> Score {
    match e {
        Some(s) => s,
        None => Score { bits: MINUS_ONE },
    }
}

/// Whether a finding is to be acted on before another: known to be exploited first, then the
/// more probable, then the more severe, then by advisory. A probability that is not a number
/// is neither more nor less than any other, so that the severity decides.
pub open spec fn risk_before(a: VulnFindingM, b: VulnFindingM) -> bool {
    if a.exploit.kev != b.exploit.kev {
        a.exploit.kev
    } else if score::below(risk_score(b.exploit.epss), risk_score(a.exploit.epss)) {
        true
    } else if score::below(risk_score(a.exploit.epss), risk_score(b.exploit.epss)) {
        false
    } else if severity::severity_rank(a.severity) != severity::severity_rank(b.severity) {
        severity::severity_rank(a.severity) > severity::severity_rank(b.severity)
    } else {
        order::lex_lt(text::text_key(a.advisory_id), text::text_key(b.advisory_id))
    }
}

/// The place behind the last finding that `x` does not come before.
pub open spec fn risk_place(s: Seq<VulnFindingM>, x: VulnFindingM) -> int
    decreases s.len(),
{
    if s.len() > 0 && risk_before(x, s.last()) {
        risk_place(s.drop_last(), x)
    } else {
        s.len() as int
    }
}

/// The findings in the order in which to act on them: each in turn is moved before those at the
/// end that it comes before.
pub open spec fn ranked(s: Seq<VulnFindingM>) -> Seq<VulnFindingM>
    decreases s.len(),
{
    if s.len() == 0 {
        Seq::empty()
    } else {
        let front = ranked(s.drop_last());
        front.insert(risk_place(front, s.last()), s.last())
    }
}

fn is_risk_before(a: &VulnFinding, b: &VulnFinding) -> (r: bool)
    ensures
        r == risk_before(a.deep_view(), b.deep_view()),
{
    let none: Score = Score { bits: MINUS_ONE };
    let ea: Score = match a.exploit.epss {
        Some(s) => s,
        None => none,
    };
    let eb: Score = match b.exploit.epss {
        Some(s) => s,
        None => none,
    };
    let sa: u8 = a.severity.rank();
    let sb: u8 = b.severity.rank();
    proof {
        let (x, y) = (a.deep_view(), b.deep_view());
        assert(x.exploit == a.exploit && y.exploit == b.exploit);
        assert(x.severity == a.severity && y.severity == b.severity);
    }
    if a.exploit.kev != b.exploit.kev {
        a.exploit.kev
    } else if eb.less_than(ea) {
        true
    } else if ea.less_than(eb) {
        false
    } else if sa != sb {
        sa > sb
    } else {
        match text::rel_text(a.advisory_id.as_str(), b.advisory_id.as_str()) {
            Rel::Less => true,
            _ => false,
        }
    }
}

fn place_by_risk(v: &Vec<VulnFinding>, x: &VulnFinding) -> (p: usize)
    ensures
        p == risk_place(v.deep_view(), x.deep_view()),
        p <= v.len(),
{
    let ghost all = v.deep_view();
    let mut p: usize = v.len();
    assert(all.take(p as int) =~= all);
    while p > 0 && is_risk_before(x, &v[p - 1])
        invariant
            p <= v.len(),
            all == v.deep_view(),
            risk_place(all, x.deep_view()) == risk_place(all.take(p as int), x.deep_view()),
        decreases p,
    {
        proof {
            assert(all.take(p as int).last() == v[p - 1].deep_view());
            assert(all.take(p as int).drop_last() =~= all.take(p - 1));
        }
        p -= 1;
    }
    proof {
        if p > 0 {
            assert(all.take(p as int).last() == v[p - 1].deep_view());
        }
    }
    p
}

/// Puts findings in the order in which to act on them.
pub fn rank(findings: &mut Vec<VulnFinding>)
    ensures
        final(findings).deep_view() == ranked(old(findings).deep_view()),
{
    let mut vulns: Vec<VulnFinding> = Vec::new();
    std::mem::swap(&mut vulns, findings);
    let ghost all = vulns.deep_view();
    let mut out: Vec<VulnFinding> = Vec::new();
    let ghost mut n: int = 0;
    proof {
        assert(all.take(0) =~= Seq::empty());
        assert(out.deep_view() =~= Seq::empty());
    }
    for x in it: vulns
        invariant
            it.seq() == vulns@,
            all == vulns.deep_view(),
            n == it.index(),
            n <= all.len(),
            out.deep_view() == ranked(all.take(n)),
    {
        let p: usize = place_by_risk(&out, &x);
        let ghost before = out.deep_view();
        out.insert(p, x);
        proof {
            assert(out.deep_view() =~= before.insert(p as int, x.deep_view()));
            assert(all.take(n + 1).drop_last() =~= all.take(n));
            assert(all[n] == x.deep_view());
            n = n + 1;
        }
    }
    assert(all.take(n) =~= all);
    *findings = out;
}

/// Whether the findings can be ranked: where a second does not come before a first, nor a third
/// before the second, the third does not come before the first. Only a probability that is not
/// a number can break this.
pub open spec fn rankable(s: Seq<VulnFindingM>) -> bool {
    forall|x: VulnFindingM, y: VulnFindingM, z: VulnFindingM|
        s.contains(x) && s.contains(y) && s.contains(z) && !#[trigger] risk_before(y, x)
            && !#[trigger] risk_before(z, y) ==> !risk_before(z, x)
}

/// Findings between which the rank makes no difference.
pub open spec fn alike(x: VulnFindingM) -> spec_fn(VulnFindingM) -> bool {
    |y: VulnFindingM| !risk_before(x, y) && !risk_before(y, x)
}

proof fn lemma_asymmetric(a: VulnFindingM, b: VulnFindingM)
    ensures
        !(risk_before(a, b) && risk_before(b, a)),
{
    order::lemma_lex_total(text::text_key(a.advisory_id), text::text_key(b.advisory_id));
}

proof fn lemma_risk_place(s: Seq<VulnFindingM>, x: VulnFindingM)
    ensures
        0 <= risk_place(s, x) <= s.len(),
        risk_place(s, x) > 0 ==> !risk_before(x, s[risk_place(s, x) - 1]),
        forall|i: int| risk_place(s, x) <= i < s.len() ==> risk_before(x, #[trigger] s[i]),
    decreases s.len(),
{
    if s.len() > 0 && risk_before(x, s.last()) {
        lemma_risk_place(s.drop_last(), x);
        assert forall|i: int| risk_place(s, x) <= i < s.len() implies risk_before(
            x,
            #[trigger] s[i],
        ) by {
            if i < s.len() - 1 {
                assert(s.drop_last()[i] == s[i]);
            }
        }
    }
}

/// Ranking keeps every finding and adds none.
pub proof fn ranking_keeps_findings(s: Seq<VulnFindingM>)
    ensures
        ranked(s).len() == s.len(),
        ranked(s).to_multiset() == s.to_multiset(),
        forall|f: VulnFindingM| #[trigger] ranked(s).contains(f) == s.contains(f),
    decreases s.len(),
{
    broadcast use vstd::seq_lib::group_to_multiset_ensures;

    if s.len() > 0 {
        let l = s.drop_last();
        ranking_keeps_findings(l);
        lemma_risk_place(ranked(l), s.last());
        assert(s =~= l.push(s.last()));
    } else {
        assert(s =~= Seq::empty());
    }
    assert forall|f: VulnFindingM| #[trigger] ranked(s).contains(f) == s.contains(f) by {
        assert(s.contains(f) <==> s.to_multiset().count(f) > 0);
        assert(ranked(s).contains(f) <==> ranked(s).to_multiset().count(f) > 0);
    }
}

/// Nothing stands before what comes before it.
pub open spec fn by_risk(t: Seq<VulnFindingM>) -> bool {
    forall|i: int, j: int| 0 <= i < j < t.len() ==> !risk_before(#[trigger] t[j], #[trigger] t[i])
}

proof fn lemma_ranked(u: Seq<VulnFindingM>, s: Seq<VulnFindingM>)
    requires
        rankable(u),
        forall|x: VulnFindingM| #[trigger] s.contains(x) ==> u.contains(x),
    ensures
        by_risk(ranked(s)),
        forall|y: VulnFindingM| #[trigger]
            u.contains(y) ==> ranked(s).filter(alike(y)) == s.filter(alike(y)),
    decreases s.len(),
{
    if s.len() == 0 {
        assert(s =~= Seq::empty());
    } else {
        let l = s.drop_last();
        let x = s.last();
        let d = ranked(l);
        assert forall|y: VulnFindingM| #[trigger] l.contains(y) implies u.contains(y) by {
            let i = choose|i: int| 0 <= i < l.len() && l[i] == y;
            assert(s[i] == y);
            assert(s.contains(y));
        }
        assert(s[s.len() - 1] == x);
        assert(s.contains(x));
        lemma_ranked(u, l);
        ranking_keeps_findings(l);
        let p = risk_place(d, x);
        lemma_risk_place(d, x);
        let t = d.insert(p, x);
        assert forall|i: int| 0 <= i < d.len() implies u.contains(#[trigger] d[i]) by {
            assert(d.contains(d[i]));
        }
        assert forall|i: int, j: int| 0 <= i < j < t.len() implies !risk_before(
            #[trigger] t[j],
            #[trigger] t[i],
        ) by {
            if j < p {
                assert(t[i] == d[i] && t[j] == d[j]);
            } else if j == p {
                assert(t[i] == d[i]);
                assert(u.contains(d[i]) && u.contains(d[p - 1]));
                if i < p - 1 {
                    assert(!risk_before(d[p - 1], d[i]));
                }
            } else if i == p {
                assert(t[j] == d[j - 1]);
                lemma_asymmetric(x, d[j - 1]);
            } else {
                assert(t[j] == d[j - 1]);
                assert(t[i] == (if i < p {
                    d[i]
                } else {
                    d[i - 1]
                }));
            }
        }
        assert forall|y: VulnFindingM| #[trigger] u.contains(y) implies t.filter(alike(y))
            == s.filter(alike(y)) by {
            let f = alike(y);
            let a = d.take(p);
            let b = d.skip(p);
            assert(t =~= a + seq![x] + b);
            assert(d =~= a + b);
            assert(s =~= l + seq![x]);
            order::lemma_filter_concat(a + seq![x], b, f);
            order::lemma_filter_concat(a, seq![x], f);
            order::lemma_filter_concat(a, b, f);
            order::lemma_filter_concat(l, seq![x], f);
            if f(x) {
                assert forall|i: int| 0 <= i < b.len() implies !f(#[trigger] b[i]) by {
                    assert(b[i] == d[p + i]);
                    assert(u.contains(d[p + i]));
                    assert(risk_before(x, d[p + i]));
                }
                order::lemma_filter_none(b, f);
            } else {
                order::lemma_filter_none(seq![x], f);
            }
            assert(t.filter(f) =~= d.filter(f) + seq![x].filter(f));
        }
    }
}

/// Where findings can be ranked, what is known to be exploited comes before what is not; of two
/// alike in that, none comes before a more probable one; of two alike in that too, the more
/// severe comes first. Findings between which the rank makes no difference keep their order.
pub proof fn ranked_by_risk(s: Seq<VulnFindingM>, i: int, j: int)
    requires
        rankable(s),
        0 <= i < j < s.len(),
    ensures
        ({
            let t = ranked(s);
            let (x, y) = (t[i], t[j]);
            let (ex, ey) = (risk_score(x.exploit.epss), risk_score(y.exploit.epss));
            &&& t.len() == s.len()
            &&& !risk_before(y, x)
            &&& y.exploit.kev ==> x.exploit.kev
            &&& x.exploit.kev == y.exploit.kev ==> !score::below(ex, ey)
            &&& x.exploit.kev == y.exploit.kev && !score::below(ey, ex) ==> severity::severity_rank(
                x.severity,
            ) >= severity::severity_rank(y.severity)
            &&& t.filter(alike(x)) == s.filter(alike(x))
        }),
{
    lemma_ranked(s, s);
    ranking_keeps_findings(s);
    let t = ranked(s);
    assert(t.contains(t[i]));
    assert(!risk_before(t[j], t[i]));
}

/// The numbers that findings with a known probability, or none, are ranked by.
spec fn risk_key(m: VulnFindingM) -> Seq<int> {
    seq![
        (if m.exploit.kev {
            0int
        } else {
            1int
        }),
    ] + (seq![-score::level(risk_score(m.exploit.epss))] + (seq![
        -severity::severity_rank(m.severity),
    ] + text::text_key(m.advisory_id)))
}

proof fn lemma_risk_key(a: VulnFindingM, b: VulnFindingM)
    requires
        !score::is_nan(risk_score(a.exploit.epss)),
        !score::is_nan(risk_score(b.exploit.epss)),
    ensures
        risk_before(a, b) == order::lex_lt(risk_key(a), risk_key(b)),
{
    let (ta, tb) = (text::text_key(a.advisory_id), text::text_key(b.advisory_id));
    let (sa, sb) = (-severity::severity_rank(a.severity), -severity::severity_rank(b.severity));
    let (ea, eb) = (
        -score::level(risk_score(a.exploit.epss)),
        -score::level(risk_score(b.exploit.epss)),
    );
    correlate::lemma_number_first(sa, sb, ta, tb);
    correlate::lemma_number_first(ea, eb, seq![sa] + ta, seq![sb] + tb);
    correlate::lemma_number_first(
        if a.exploit.kev {
            0int
        } else {
            1int
        },
        if b.exploit.kev {
            0int
        } else {
            1int
        },
        seq![ea] + (seq![sa] + ta),
        seq![eb] + (seq![sb] + tb),
    );
}

/// Findings whose probabilities are numbers, where they have any, can always be ranked.
pub proof fn numbers_can_be_ranked(s: Seq<VulnFindingM>)
    requires
        forall|i: int|
            0 <= i < s.len() ==> !score::is_nan(risk_score((#[trigger] s[i]).exploit.epss)),
    ensures
        rankable(s),
{
    assert forall|x: VulnFindingM, y: VulnFindingM, z: VulnFindingM|
        s.contains(x) && s.contains(y) && s.contains(z) && !#[trigger] risk_before(y, x)
            && !#[trigger] risk_before(z, y) implies !risk_before(z, x) by {
        lemma_risk_key(y, x);
        lemma_risk_key(z, y);
        lemma_risk_key(z, x);
        let (a, b, c) = (risk_key(x), risk_key(y), risk_key(z));
        order::lemma_lex_total(a, b);
        order::lemma_lex_total(b, c);
        order::lemma_lex_total(a, c);
        order::lemma_lex_le_transitive(a, b, c);
    }
}

// --- Feeds ---

/// Why a catalog of known exploited vulnerabilities cannot be used.
#[derive(Debug, Clone, Copy, PartialEq, Eq, Structural)]
pub enum KevError {
    /// Not a document at all.
    NotJson,
    /// A document without the list.
    NoList,
}

impl KevError {
    pub fn to_string(&self) -> (r: String)
        ensures
            r@ == (match *self {
                KevError::NotJson => "KEV JSON: not a JSON document"@,
                KevError::NoList => "KEV JSON missing `vulnerabilities` array"@,
            }),
    {
        match self {
            KevError::NotJson => "KEV JSON: not a JSON document".to_owned(),
            KevError::NoList => "KEV JSON missing `vulnerabilities` array".to_owned(),
        }
    }
}

/// The CVEs that the entries name, in order.
pub open spec fn named_cves(entries: Seq<JsonM>) -> Seq<Seq<char>>
    decreases entries.len(),
{
    if entries.len() == 0 {
        Seq::empty()
    } else {
        let front = named_cves(entries.drop_last());
        match json::text_of(json::member(entries.last(), "cveID"@)) {
            Some(c) => front.push(c),
            None => front,
        }
    }
}

/// The CVEs of a catalog.
pub open spec fn kev_of(doc: JsonM) -> Option<Seq<Seq<char>>> {
    match json::list_of(json::member(doc, "vulnerabilities"@)) {
        Some(entries) => Some(value::text_set(named_cves(entries))),
        None => None,
    }
}

/// The CVEs of a catalog.
pub fn kev_in(doc: &Json) -> (r: Option<Vec<String>>)
    ensures
        r.deep_view() == kev_of(doc.deep_view()),
{
    let list: Option<&Vec<Json>> = match doc.get("vulnerabilities") {
        Some(v) => v.as_list(),
        None => None,
    };
    match list {
        None => None,
        Some(entries) => {
            let ghost all = entries.deep_view();
            let mut out: Vec<String> = Vec::new();
            let mut i: usize = 0;
            proof {
                assert(all.take(0) =~= Seq::empty());
                assert(out.deep_view() =~= Seq::empty());
            }
            while i < entries.len()
                invariant
                    i <= entries.len(),
                    all == entries.deep_view(),
                    out.deep_view() == named_cves(all.take(i as int)),
                decreases entries.len() - i,
            {
                proof {
                    assert(all.take(i + 1).drop_last() =~= all.take(i as int));
                    assert(all.take(i + 1).last() == entries[i as int].deep_view());
                }
                if let Some(c) = entries[i].get("cveID") {
                    if let Some(t) = c.as_text() {
                        let ghost before = out.deep_view();
                        let name: String = t.to_owned();
                        out.push(name);
                        assert(out.deep_view() =~= before.push(name@));
                    }
                }
                i += 1;
            }
            assert(all.take(i as int) =~= all);
            Some(value::sort_texts(out))
        },
    }
}

/// Reads the catalog of known exploited vulnerabilities.
pub fn parse_kev(body: &str) -> (r: Result<Vec<String>, KevError>)
    ensures
        match json::json_of(body@) {
            None => r == Err::<Vec<String>, KevError>(KevError::NotJson),
            Some(doc) => match kev_of(doc) {
                None => r == Err::<Vec<String>, KevError>(KevError::NoList),
                Some(k) => r matches Ok(v) && v.deep_view() == k,
            },
        },
{
    match Json::parse(body) {
        None => Err(KevError::NotJson),
        Some(doc) => match kev_in(&doc) {
            None => Err(KevError::NoList),
            Some(v) => Ok(v),
        },
    }
}

/// A well-formed CVE: the prefix, four digits, a hyphen, four digits or more.
pub open spec fn valid_cve(s: Seq<char>) -> bool {
    match cut::after_prefix(s, "CVE-"@) {
        Some(rest) => match cut::halves(rest, "-"@) {
            Some((year, number)) => year.len() == 4 && digits(year) && number.len() >= 4 && digits(
                number,
            ),
            None => false,
        },
        None => false,
    }
}

pub open spec fn digits(s: Seq<char>) -> bool {
    forall|i: int| 0 <= i < s.len() ==> cut::digit(#[trigger] s[i])
}

fn all_digits(v: &Vec<char>) -> (r: bool)
    ensures
        r == digits(v@),
{
    let mut i: usize = 0;
    while i < v.len()
        invariant
            i <= v.len(),
            forall|j: int| 0 <= j < i ==> cut::digit(#[trigger] v@[j]),
        decreases v.len() - i,
    {
        if !('0' <= v[i] && v[i] <= '9') {
            assert(!cut::digit(v@[i as int]));
            return false;
        }
        i += 1;
    }
    true
}

/// Whether `s` is a well-formed CVE, and so can stand in a query.
pub fn is_valid_cve(s: &str) -> (r: bool)
    ensures
        r == valid_cve(s@),
{
    match cut::strip_prefix(s, "CVE-") {
        Some(rest) => match cut::split_once(rest.as_str(), "-") {
            Some((year, number)) => {
                let y: Vec<char> = text::chars(year.as_str());
                let n: Vec<char> = text::chars(number.as_str());
                y.len() == 4 && all_digits(&y) && n.len() >= 4 && all_digits(&n)
            },
            None => false,
        },
        None => false,
    }
}

/// A character that a query takes as it is.
pub open spec fn plain_char(c: char) -> bool {
    cut::digit(c) || cut::upper_letter(c) || c == '-'
}

/// A well-formed CVE holds nothing but digits, capitals and hyphens, so it cannot add to a
/// query.
pub proof fn valid_cve_is_plain(s: Seq<char>, i: int)
    requires
        valid_cve(s),
        0 <= i < s.len(),
    ensures
        plain_char(s[i]),
{
    reveal_strlit("CVE-");
    reveal_strlit("-");
    let p = "CVE-"@;
    let rest = s.skip(4);
    assert(cut::after_prefix(s, p) == Some(rest));
    text::lemma_seek(rest, "-"@, 0);
    let k = text::seek(rest, "-"@, 0)->0;
    if i < 4 {
        assert(s.subrange(0, 4)[i] == p[i]);
        assert(s[i] == p[i]);
    } else {
        assert(s[i] == rest[i - 4]);
        if i - 4 < k {
            assert(rest.take(k)[i - 4] == s[i]);
        } else if i - 4 == k {
            assert(rest.subrange(k, k + 1)[0] == "-"@[0]);
        } else {
            assert(rest.skip(k + 1)[i - 4 - k - 1] == s[i]);
        }
    }
}

/// The CVEs that the findings name, each once, in order; only those of unknown severity where
/// `unknown_only`.
pub open spec fn cves_of(vulns: Seq<VulnFindingM>, unknown_only: bool) -> Seq<Seq<char>>
    decreases vulns.len(),
{
    if vulns.len() == 0 {
        Seq::empty()
    } else {
        let front = cves_of(vulns.drop_last(), unknown_only);
        if unknown_only && vulns.last().severity != Severity::Unknown {
            front
        } else {
            front + cves_in(vulns.last().aliases)
        }
    }
}

/// The CVEs to ask the feeds about, each once: all of them, or only those of findings whose
/// severity is unknown.
pub fn cves_to_fetch(report: &FleetReport, unknown_only: bool) -> (r: Vec<String>)
    ensures
        r.deep_view() == value::text_set(
            cves_of(report.deep_view().vulnerabilities, unknown_only),
        ),
{
    let vulns: &Vec<VulnFinding> = &report.vulnerabilities;
    let ghost all = vulns.deep_view();
    let mut out: Vec<String> = Vec::new();
    let mut i: usize = 0;
    proof {
        assert(all.take(0) =~= Seq::empty());
        assert(out.deep_view() =~= Seq::empty());
    }
    while i < vulns.len()
        invariant
            i <= vulns.len(),
            all == vulns.deep_view(),
            out.deep_view() == cves_of(all.take(i as int), unknown_only),
        decreases vulns.len() - i,
    {
        proof {
            assert(all.take(i + 1).drop_last() =~= all.take(i as int));
            assert(all.take(i + 1).last() == vulns[i as int].deep_view());
        }
        if !(unknown_only && vulns[i].severity != Severity::Unknown) {
            value::append(&mut out, collect_cves(&vulns[i].aliases));
        }
        i += 1;
    }
    assert(all.take(i as int) =~= all);
    value::sort_texts(out)
}

/// The well-formed CVEs of a list, in order.
pub open spec fn valid_cves_of(cves: Seq<Seq<char>>) -> Seq<Seq<char>>
    decreases cves.len(),
{
    if cves.len() == 0 {
        Seq::empty()
    } else if valid_cve(cves.last()) {
        valid_cves_of(cves.drop_last()).push(cves.last())
    } else {
        valid_cves_of(cves.drop_last())
    }
}

/// The well-formed CVEs of a list, in order.
pub fn valid_cves(cves: &Vec<String>) -> (r: Vec<String>)
    ensures
        r.deep_view() == valid_cves_of(cves.deep_view()),
{
    let ghost all = cves.deep_view();
    let mut r: Vec<String> = Vec::new();
    let mut i: usize = 0;
    proof {
        assert(all.take(0) =~= Seq::empty());
        assert(r.deep_view() =~= Seq::empty());
    }
    while i < cves.len()
        invariant
            i <= cves.len(),
            all == cves.deep_view(),
            r.deep_view() == valid_cves_of(all.take(i as int)),
        decreases cves.len() - i,
    {
        assert(all.take(i + 1).drop_last() =~= all.take(i as int));
        if is_valid_cve(cves[i].as_str()) {
            let ghost before = r.deep_view();
            let c: String = cves[i].clone();
            r.push(c);
            assert(r.deep_view() =~= before.push(c@));
        }
        i += 1;
    }
    assert(all.take(i as int) =~= all);
    r
}

/// How many CVEs one request for probabilities names at most.
pub const EPSS_BATCH: usize = 100;

/// The request for the probabilities of a few CVEs.
pub open spec fn epss_request(ids: Seq<Seq<char>>) -> Seq<char> {
    "https://api.first.org/data/v1/epss?cve="@ + orchestrate::joined(ids, ","@)
}

/// The requests for the probabilities of `ids`: a batch each, in order.
pub open spec fn epss_batches(ids: Seq<Seq<char>>) -> Seq<Seq<char>>
    decreases ids.len(),
{
    if ids.len() == 0 {
        Seq::empty()
    } else if ids.len() <= EPSS_BATCH {
        seq![epss_request(ids)]
    } else {
        seq![epss_request(ids.take(EPSS_BATCH as int))] + epss_batches(ids.skip(EPSS_BATCH as int))
    }
}

/// The requests for the probabilities of the well-formed ones of `cves`. Nothing else gets into
/// a request.
pub fn epss_requests(cves: &Vec<String>) -> (r: Vec<String>)
    ensures
        r.deep_view() == epss_batches(valid_cves_of(cves.deep_view())),
{
    let ids: Vec<String> = valid_cves(cves);
    let ghost all = ids.deep_view();
    let mut r: Vec<String> = Vec::new();
    let mut i: usize = 0;
    proof {
        assert(all.skip(0) =~= all);
        assert(r.deep_view() + epss_batches(all) =~= epss_batches(all));
    }
    while i < ids.len()
        invariant
            i <= ids.len(),
            all == ids.deep_view(),
            r.deep_view() + epss_batches(all.skip(i as int)) == epss_batches(all),
        decreases ids.len() - i,
    {
        let end: usize = if ids.len() - i <= EPSS_BATCH {
            ids.len()
        } else {
            i + EPSS_BATCH
        };
        let mut batch: Vec<String> = Vec::new();
        let mut j: usize = i;
        assert(batch.deep_view() =~= all.subrange(i as int, i as int));
        while j < end
            invariant
                i <= j <= end <= ids.len(),
                all == ids.deep_view(),
                batch.deep_view() == all.subrange(i as int, j as int),
            decreases end - j,
        {
            let ghost before = batch.deep_view();
            let c: String = ids[j].clone();
            batch.push(c);
            assert(batch.deep_view() =~= before.push(c@));
            assert(batch.deep_view() =~= all.subrange(i as int, j + 1));
            j += 1;
        }
        let list = orchestrate::join_all(&batch, ",");
        let url = text::join("https://api.first.org/data/v1/epss?cve=", list.as_str());
        let ghost before = r.deep_view();
        r.push(url);
        proof {
            let rest = all.skip(i as int);
            assert(r.deep_view() =~= before.push(url@));
            assert(batch.deep_view() =~= rest.take(end - i));
            assert(rest.skip(end - i) =~= all.skip(end as int));
            if end == ids.len() {
                assert(rest.take(end - i) =~= rest);
                assert(epss_batches(all.skip(end as int)) =~= Seq::empty());
            }
            assert(r.deep_view() + epss_batches(all.skip(end as int)) =~= before + epss_batches(
                rest,
            ));
        }
        i = end;
    }
    assert(epss_batches(all.skip(i as int)) =~= Seq::empty());
    assert(r.deep_view() =~= epss_batches(all));
    r
}

/// The request for the base score of one CVE.
pub fn nvd_request(cve: &str) -> (r: String)
    ensures
        r@ == "https://services.nvd.nist.gov/rest/json/cves/2.0?cveId="@ + cve@,
{
    text::join("https://services.nvd.nist.gov/rest/json/cves/2.0?cveId=", cve)
}

/// How many milliseconds to wait before the request at a place in the list, so as to stay below
/// the rate that the service allows; a key raises it.
pub fn nvd_pause(place: usize, has_key: bool) -> (r: u64)
    ensures
        r == (if place == 0 {
            0u64
        } else if has_key {
            700u64
        } else {
            6000u64
        }),
{
    if place == 0 {
        0
    } else if has_key {
        700
    } else {
        6000
    }
}

/// The rows of the probability feed that can hold a score: the CVE and the text of the score.
pub open spec fn csv_rows(lines: Seq<Seq<char>>) -> Seq<(Seq<char>, Seq<char>)>
    decreases lines.len(),
{
    if lines.len() == 0 {
        Seq::empty()
    } else {
        let front = csv_rows(lines.drop_last());
        let l = lines.last();
        let fields = text::split_on(l, ',');
        if text::occurs_at(l, "#"@, 0) || text::occurs_at(l, "cve"@, 0) || fields.len() < 2 {
            front
        } else {
            front.push((cut::trimmed(fields[0]), cut::trimmed(fields[1])))
        }
    }
}

/// The rows of the probability feed that can hold a score: comments, the heading and lines
/// without a second field are passed over.
pub fn epss_csv_rows(body: &str) -> (r: Vec<(String, String)>)
    ensures
        r.deep_view() == csv_rows(cut::lines_of(body@)),
{
    let lines: Vec<String> = cut::lines(body);
    let ghost all = lines.deep_view();
    let mut r: Vec<(String, String)> = Vec::new();
    let mut i: usize = 0;
    proof {
        assert(all.take(0) =~= Seq::empty());
        assert(r.deep_view() =~= Seq::empty());
    }
    while i < lines.len()
        invariant
            i <= lines.len(),
            all == lines.deep_view(),
            r.deep_view() == csv_rows(all.take(i as int)),
        decreases lines.len() - i,
    {
        assert(all.take(i + 1).drop_last() =~= all.take(i as int));
        let line: &str = lines[i].as_str();
        if !cut::starts_with(line, "#") && !cut::starts_with(line, "cve") {
            let fields: Vec<String> = cut::split(line, ',');
            let ghost f = fields.deep_view();
            assert(f.len() == fields.len());
            if fields.len() >= 2 {
                assert(f[0] == fields[0]@ && f[1] == fields[1]@);
                let ghost before = r.deep_view();
                let pair = (cut::trim(fields[0].as_str()), cut::trim(fields[1].as_str()));
                r.push(pair);
                assert(r.deep_view() =~= before.push(pair.deep_view()));
            }
        }
        i += 1;
    }
    assert(all.take(i as int) =~= all);
    r
}

/// The rows of an answer of the probability feed.
pub open spec fn answer_rows(rows: Seq<JsonM>) -> Seq<(Seq<char>, Seq<char>)>
    decreases rows.len(),
{
    if rows.len() == 0 {
        Seq::empty()
    } else {
        let front = answer_rows(rows.drop_last());
        match json::text_of(json::member(rows.last(), "cve"@)) {
            Some(c) => match json::text_of(json::member(rows.last(), "epss"@)) {
                Some(s) => front.push((c, s)),
                None => front,
            },
            None => front,
        }
    }
}

pub open spec fn answer_of(doc: JsonM) -> Seq<(Seq<char>, Seq<char>)> {
    match json::list_of(json::member(doc, "data"@)) {
        Some(rows) => answer_rows(rows),
        None => Seq::empty(),
    }
}

/// The rows of an answer of the probability feed: the CVE and the text of the score.
pub fn epss_json_rows(doc: &Json) -> (r: Vec<(String, String)>)
    ensures
        r.deep_view() == answer_of(doc.deep_view()),
{
    let mut r: Vec<(String, String)> = Vec::new();
    assert(r.deep_view() =~= Seq::empty());
    let list: Option<&Vec<Json>> = match doc.get("data") {
        Some(v) => v.as_list(),
        None => None,
    };
    if let Some(rows) = list {
        let ghost all = rows.deep_view();
        let mut i: usize = 0;
        assert(all.take(0) =~= Seq::empty());
        while i < rows.len()
            invariant
                i <= rows.len(),
                all == rows.deep_view(),
                r.deep_view() == answer_rows(all.take(i as int)),
            decreases rows.len() - i,
        {
            proof {
                assert(all.take(i + 1).drop_last() =~= all.take(i as int));
                assert(all.take(i + 1).last() == rows[i as int].deep_view());
            }
            let cve: Option<&str> = match rows[i].get("cve") {
                Some(c) => c.as_text(),
                None => None,
            };
            let epss: Option<&str> = match rows[i].get("epss") {
                Some(s) => s.as_text(),
                None => None,
            };
            if let Some(c) = cve {
                if let Some(s) = epss {
                    let ghost before = r.deep_view();
                    let pair = (c.to_owned(), s.to_owned());
                    r.push(pair);
                    assert(r.deep_view() =~= before.push(pair.deep_view()));
                }
            }
            i += 1;
        }
        assert(all.take(i as int) =~= all);
    }
    r
}

/// A map with the scores of the rows that have one; of several rows for a CVE the last counts.
pub open spec fn with_scores(
    m: Map<Seq<char>, Score>,
    rows: Seq<(Seq<char>, Option<Score>)>,
) -> Map<Seq<char>, Score>
    decreases rows.len(),
{
    if rows.len() == 0 {
        m
    } else {
        let front = with_scores(m, rows.drop_last());
        match rows.last().1 {
            Some(s) => front.insert(rows.last().0, s),
            None => front,
        }
    }
}

/// Adds the scores of the rows that have one.
pub fn add_scores(m: TextMap<Score>, rows: &Vec<(String, Option<Score>)>) -> (r: TextMap<Score>)
    ensures
        r.deep_view() == with_scores(m.deep_view(), rows.deep_view()),
{
    let ghost all = rows.deep_view();
    let ghost start = m.deep_view();
    let mut r: TextMap<Score> = m;
    let mut i: usize = 0;
    assert(all.take(0) =~= Seq::empty());
    while i < rows.len()
        invariant
            i <= rows.len(),
            all == rows.deep_view(),
            r.deep_view() == with_scores(start, all.take(i as int)),
        decreases rows.len() - i,
    {
        proof {
            assert(all.take(i + 1).drop_last() =~= all.take(i as int));
            assert(all.take(i + 1).last() == rows[i as int].deep_view());
        }
        if let Some(s) = rows[i].1 {
            r = r.insert(rows[i].0.clone(), s);
        }
        i += 1;
    }
    assert(all.take(i as int) =~= all);
    r
}

/// The first entry about the CVE.
pub open spec fn entry_for(entries: Seq<JsonM>, cve: Seq<char>) -> Option<JsonM>
    decreases entries.len(),
{
    if entries.len() == 0 {
        None
    } else {
        match entry_for(entries.drop_last(), cve) {
            Some(e) => Some(e),
            None => if json::text_of(
                json::member_of(json::member(entries.last(), "cve"@), "id"@),
            ) == Some(cve) {
                Some(entries.last())
            } else {
                None
            },
        }
    }
}

proof fn lemma_entry_stays(entries: Seq<JsonM>, cve: Seq<char>, n: int)
    requires
        0 <= n <= entries.len(),
        entry_for(entries.take(n), cve) is Some,
    ensures
        entry_for(entries, cve) == entry_for(entries.take(n), cve),
    decreases entries.len(),
{
    if n < entries.len() {
        assert(entries.drop_last().take(n) =~= entries.take(n));
        lemma_entry_stays(entries.drop_last(), cve, n);
    } else {
        assert(entries.take(n) =~= entries);
    }
}

/// The base score of one version of the metrics, in single precision: that of the first in its
/// list.
pub open spec fn metric_score(metrics: JsonM, version: Seq<char>) -> Option<Score> {
    match json::list_of(json::member(metrics, version)) {
        Some(s) => if s.len() > 0 {
            score::narrowed_opt(
                json::number_of(json::member_of(json::member(s[0], "cvssData"@), "baseScore"@)),
            )
        } else {
            None
        },
        None => None,
    }
}

/// The base score of the newest version of the metrics that has one.
pub open spec fn newest_score(metrics: JsonM) -> Option<Score> {
    match metric_score(metrics, "cvssMetricV40"@) {
        Some(s) => Some(s),
        None => match metric_score(metrics, "cvssMetricV31"@) {
            Some(s) => Some(s),
            None => match metric_score(metrics, "cvssMetricV30"@) {
                Some(s) => Some(s),
                None => metric_score(metrics, "cvssMetricV2"@),
            },
        },
    }
}

/// The base score of a CVE in an answer of the vulnerability database.
pub open spec fn nvd_score_of(doc: JsonM, cve: Seq<char>) -> Option<Score> {
    match json::list_of(json::member(doc, "vulnerabilities"@)) {
        Some(entries) => match entry_for(entries, cve) {
            Some(e) => match json::member_of(json::member(e, "cve"@), "metrics"@) {
                Some(metrics) => newest_score(metrics),
                None => None,
            },
            None => None,
        },
        None => None,
    }
}

fn read_metric(metrics: &Json, version: &str) -> (r: Option<Score>)
    ensures
        r == metric_score(metrics.deep_view(), version@),
{
    let list: Option<&Vec<Json>> = match metrics.get(version) {
        Some(v) => v.as_list(),
        None => None,
    };
    match list {
        Some(v) => {
            assert(v.deep_view().len() == v.len());
            if v.len() > 0 {
                assert(v.deep_view()[0] == v[0].deep_view());
                match json::get_of(v[0].get("cvssData"), "baseScore") {
                    Some(n) => match n.as_number() {
                        Some(x) => Some(x.narrow()),
                        None => None,
                    },
                    None => None,
                }
            } else {
                None
            }
        },
        None => None,
    }
}

/// The base score of a CVE in an answer of the vulnerability database.
pub fn nvd_score_in(doc: &Json, cve: &str) -> (r: Option<Score>)
    ensures
        r == nvd_score_of(doc.deep_view(), cve@),
{
    let list: Option<&Vec<Json>> = match doc.get("vulnerabilities") {
        Some(v) => v.as_list(),
        None => None,
    };
    match list {
        None => None,
        Some(entries) => {
            let ghost all = entries.deep_view();
            let mut i: usize = 0;
            assert(all.take(0) =~= Seq::empty());
            while i < entries.len()
                invariant
                    i <= entries.len(),
                    all == entries.deep_view(),
                    entry_for(all.take(i as int), cve@) is None,
                    json::list_of(json::member(doc.deep_view(), "vulnerabilities"@)) == Some(all),
                decreases entries.len() - i,
            {
                proof {
                    assert(all.take(i + 1).drop_last() =~= all.take(i as int));
                    assert(all.take(i + 1).last() == entries[i as int].deep_view());
                }
                let id: Option<&str> = match json::get_of(entries[i].get("cve"), "id") {
                    Some(t) => t.as_text(),
                    None => None,
                };
                if let Some(t) = id {
                    if text::same(t, cve) {
                        proof {
                            lemma_entry_stays(all, cve@, i + 1);
                        }
                        return match json::get_of(entries[i].get("cve"), "metrics") {
                            Some(m) => match read_metric(m, "cvssMetricV40") {
                                Some(s) => Some(s),
                                None => match read_metric(m, "cvssMetricV31") {
                                    Some(s) => Some(s),
                                    None => match read_metric(m, "cvssMetricV30") {
                                        Some(s) => Some(s),
                                        None => read_metric(m, "cvssMetricV2"),
                                    },
                                },
                            },
                            None => None,
                        };
                    }
                }
                i += 1;
            }
            assert(all.take(i as int) =~= all);
            None
        },
    }
}

/// The base score of a CVE in the text of an answer of the vulnerability database.
pub fn parse_nvd_score(body: &str, cve: &str) -> (r: Option<Score>)
    ensures
        r == (match json::json_of(body@) {
            Some(doc) => nvd_score_of(doc, cve@),
            None => None,
        }),
{
    match Json::parse(body) {
        Some(doc) => nvd_score_in(&doc, cve),
        None => None,
    }
}

/// A score that is a number and not below zero has the band that its bits fall into: critical
/// from nine, high from seven, medium from four, low above zero. Nothing else has one.
pub proof fn bands_meet_at_nine_seven_and_four(s: Score)
    ensures
        0x4022_0000_0000_0000 <= s.bits <= 0x7ff0_0000_0000_0000 <==> band_of(s)
            == Severity::Critical,
        0x401c_0000_0000_0000 <= s.bits < 0x4022_0000_0000_0000 <==> band_of(s) == Severity::High,
        0x4010_0000_0000_0000 <= s.bits < 0x401c_0000_0000_0000 <==> band_of(s) == Severity::Medium,
        0 < s.bits < 0x4010_0000_0000_0000 <==> band_of(s) == Severity::Low,
        s.bits == 0 || s.bits > 0x7ff0_0000_0000_0000 <==> band_of(s) == Severity::Unknown,
{
}

/// The aliases that are asked about are those that start as a CVE does, in their order.
pub proof fn only_cves_are_asked_about(aliases: Seq<Seq<char>>)
    ensures
        cves_in(aliases) == aliases.filter(
            |a: Seq<char>|
                a.len() >= 4 && a[0] == 'C' && a[1] == 'V' && a[2] == 'E' && a[3] == '-',
        ),
    decreases aliases.len(),
{
    reveal(Seq::filter);
    if aliases.len() > 0 {
        only_cves_are_asked_about(aliases.drop_last());
        let a = aliases.last();
        reveal_strlit("CVE-");
        let p = "CVE-"@;
        if a.len() >= 4 {
            assert(a.subrange(0, 4)[0] == a[0] && a.subrange(0, 4)[1] == a[1] && a.subrange(0, 4)[2]
                == a[2] && a.subrange(0, 4)[3] == a[3]);
            if a[0] == 'C' && a[1] == 'V' && a[2] == 'E' && a[3] == '-' {
                assert(a.subrange(0, 4) =~= p);
            }
        }
    }
}

/// Of the scores of CVEs the greatest counts: it is one of them, and none that is a number is
/// above it. There is none exactly where no CVE has one.
pub proof fn the_greatest_score_counts(cves: Seq<Seq<char>>, m: Map<Seq<char>, Score>)
    ensures
        greatest(cves, m) is None <==> forall|i: int|
            0 <= i < cves.len() ==> !m.dom().contains(#[trigger] cves[i]),
        greatest(cves, m) matches Some(s) ==> {
            &&& exists|i: int|
                0 <= i < cves.len() && m.dom().contains(#[trigger] cves[i]) && m[cves[i]] == s
            &&& forall|i: int|
                0 <= i < cves.len() && m.dom().contains(#[trigger] cves[i]) && !score::is_nan(
                    m[cves[i]],
                ) ==> !score::is_nan(s) && !score::below(s, m[cves[i]])
        },
    decreases cves.len(),
{
    if cves.len() > 0 {
        let l = cves.drop_last();
        let n = l.len() as int;
        the_greatest_score_counts(l, m);
        assert(cves[n] == cves.last());
        assert forall|i: int| 0 <= i < n implies #[trigger] cves[i] == l[i] by {}
        if let Some(s) = greatest(cves, m) {
            if greatest(l, m) is Some && s == greatest(l, m)->0 {
                let i = choose|i: int|
                    0 <= i < l.len() && m.dom().contains(#[trigger] l[i]) && m[l[i]] == s;
                assert(m.dom().contains(cves[i]) && m[cves[i]] == s);
            } else {
                assert(m.dom().contains(cves[n]) && m[cves[n]] == s);
            }
            assert forall|i: int|
                0 <= i < cves.len() && m.dom().contains(#[trigger] cves[i]) && !score::is_nan(
                    m[cves[i]],
                ) implies !score::is_nan(s) && !score::below(s, m[cves[i]]) by {
                if i < n {
                    assert(m.dom().contains(l[i]));
                }
            }
        } else {
            assert forall|i: int| 0 <= i < cves.len() implies !m.dom().contains(
                #[trigger] cves[i],
            ) by {
                if i < n {
                    assert(!m.dom().contains(l[i]));
                }
            }
        }
        if forall|i: int| 0 <= i < cves.len() ==> !m.dom().contains(#[trigger] cves[i]) {
            assert forall|i: int| 0 <= i < l.len() implies !m.dom().contains(#[trigger] l[i]) by {
                assert(!m.dom().contains(cves[i]));
            }
            assert(!m.dom().contains(cves[n]));
        }
    }
}

/// A finding is known to be exploited exactly where one of its CVEs is in the catalog, and its
/// probability is the greatest that one of them has. Its severity and score change only where
/// the severity is unknown and the greatest base score of its CVEs has a band. Nothing else of
/// it changes.
pub proof fn signals_come_from_the_cves(e: EnrichmentM, f: VulnFindingM)
    ensures
        ({
            let g = enriched(e, f);
            let cves = f.aliases.filter(
                |a: Seq<char>|
                    a.len() >= 4 && a[0] == 'C' && a[1] == 'V' && a[2] == 'E' && a[3] == '-',
            );
            &&& g.exploit.kev <==> exists|i: int|
                0 <= i < cves.len() && e.kev.contains(#[trigger] cves[i])
            &&& g.exploit.epss == greatest(cves, e.epss)
            &&& f.severity == Severity::Unknown && (greatest(cves, e.cvss) matches Some(_))
                && band_of(greatest(cves, e.cvss)->0) != Severity::Unknown ==> g.severity == band_of(
                greatest(cves, e.cvss)->0,
            ) && g.cvss_score == greatest(cves, e.cvss)
            &&& f.severity != Severity::Unknown || greatest(cves, e.cvss) is None || band_of(
                greatest(cves, e.cvss)->0,
            ) == Severity::Unknown ==> g.severity == f.severity && g.cvss_score == f.cvss_score
            &&& g == (VulnFindingM {
                exploit: g.exploit,
                severity: g.severity,
                cvss_score: g.cvss_score,
                ..f
            })
        }),
{
    only_cves_are_asked_about(f.aliases);
}

/// What has no probability comes after everything that has one that is not below zero.
pub proof fn no_probability_ranks_last(a: VulnFindingM, b: VulnFindingM)
    requires
        a.exploit.kev == b.exploit.kev,
        b.exploit.epss is None,
        a.exploit.epss matches Some(s) && s.bits <= 0x7ff0_0000_0000_0000,
    ensures
        risk_before(a, b),
        !risk_before(b, a),
{
}

/// What is known to be exploited comes before what is not, whatever else holds of them. Of two
/// alike in that and in their probability, the one of the worse band comes first, and what is of
/// unknown severity comes last.
pub proof fn exploited_then_worse(a: VulnFindingM, b: VulnFindingM)
    ensures
        a.exploit.kev && !b.exploit.kev ==> risk_before(a, b) && !risk_before(b, a),
        a.exploit == b.exploit && a.severity != b.severity && (a.severity == Severity::Critical
            || b.severity == Severity::Unknown || (a.severity == Severity::High && b.severity
            != Severity::Critical) || (a.severity == Severity::Medium && b.severity
            == Severity::Low)) ==> risk_before(a, b) && !risk_before(b, a),
{
}

/// A text is a well-formed CVE exactly where it is `CVE-`, four digits, a hyphen, and four digits
/// or more.
pub proof fn a_cve_is_year_and_number(s: Seq<char>)
    ensures
        valid_cve(s) <==> {
            &&& s.len() >= 13
            &&& s[0] == 'C' && s[1] == 'V' && s[2] == 'E' && s[3] == '-' && s[8] == '-'
            &&& forall|i: int| 4 <= i < 8 ==> '0' <= #[trigger] s[i] && s[i] <= '9'
            &&& forall|i: int| 9 <= i < s.len() ==> '0' <= #[trigger] s[i] && s[i] <= '9'
        },
{
    reveal_strlit("CVE-");
    reveal_strlit("-");
    let p = "CVE-"@;
    let rest = s.skip(4);
    text::lemma_seek(rest, "-"@, 0);
    if valid_cve(s) {
        let k = text::seek(rest, "-"@, 0)->0;
        cut::lemma_halves(rest, "-"@);
        assert(k == 4);
        assert(s.subrange(0, 4) =~= p);
        assert(s.subrange(0, 4)[0] == s[0] && s.subrange(0, 4)[1] == s[1] && s.subrange(0, 4)[2]
            == s[2] && s.subrange(0, 4)[3] == s[3]);
        assert(rest.subrange(4, 5)[0] == s[8]);
        assert forall|i: int| 4 <= i < 8 implies '0' <= #[trigger] s[i] && s[i] <= '9' by {
            assert(cut::digit(rest.take(4)[i - 4]));
        }
        assert forall|i: int| 9 <= i < s.len() implies '0' <= #[trigger] s[i] && s[i] <= '9' by {
            assert(cut::digit(rest.skip(5)[i - 9]));
        }
    }
    if s.len() >= 13 && s[0] == 'C' && s[1] == 'V' && s[2] == 'E' && s[3] == '-' && s[8] == '-' && (
    forall|i: int| 4 <= i < 8 ==> '0' <= #[trigger] s[i] && s[i] <= '9') && (forall|i: int|
        9 <= i < s.len() ==> '0' <= #[trigger] s[i] && s[i] <= '9') {
        assert(s.subrange(0, 4) =~= p);
        assert(rest.subrange(4, 5) =~= "-"@);
        assert(text::occurs_at(rest, "-"@, 4));
        let k = text::seek(rest, "-"@, 0)->0;
        if k < 4 {
            assert(rest.subrange(k, k + 1)[0] == '-');
            assert(rest[k] == s[k + 4]);
        }
        assert(k == 4);
        assert forall|i: int| 0 <= i < rest.take(4).len() implies cut::digit(
            #[trigger] rest.take(4)[i],
        ) by {
            assert(rest.take(4)[i] == s[i + 4]);
        }
        assert forall|i: int| 0 <= i < rest.skip(5).len() implies cut::digit(
            #[trigger] rest.skip(5)[i],
        ) by {
            assert(rest.skip(5)[i] == s[i + 9]);
        }
    }
}

/// What is sent to the feeds is the well-formed part of what is asked about.
pub proof fn only_well_formed_cves_are_sent(cves: Seq<Seq<char>>)
    ensures
        valid_cves_of(cves) == cves.filter(|c: Seq<char>| valid_cve(c)),
    decreases cves.len(),
{
    reveal(Seq::filter);
    if cves.len() > 0 {
        only_well_formed_cves_are_sent(cves.drop_last());
    }
}

/// A CVE is asked about exactly where some finding has it as an alias, and where only unknown
/// severities are asked about, one of unknown severity.
pub proof fn every_cve_of_a_finding_is_asked_about(
    vulns: Seq<VulnFindingM>,
    unknown_only: bool,
    c: Seq<char>,
)
    ensures
        cves_of(vulns, unknown_only).contains(c) <==> is_cve(c) && exists|i: int|
            0 <= i < vulns.len() && (#[trigger] vulns[i]).aliases.contains(c) && (unknown_only
                ==> vulns[i].severity == Severity::Unknown),
    decreases vulns.len(),
{
    if vulns.len() > 0 {
        let l = vulns.drop_last();
        let n = l.len() as int;
        every_cve_of_a_finding_is_asked_about(l, unknown_only, c);
        assert(vulns[n] == vulns.last());
        let front = cves_of(l, unknown_only);
        let own = cves_in(vulns.last().aliases);
        lemma_cves_in(vulns.last().aliases, c);
        let all = cves_of(vulns, unknown_only);
        let takes = !(unknown_only && vulns.last().severity != Severity::Unknown);
        if front.contains(c) {
            let j = choose|j: int| 0 <= j < front.len() && front[j] == c;
            assert(all[j] == c);
        }
        if takes && own.contains(c) {
            let j = choose|j: int| 0 <= j < own.len() && own[j] == c;
            assert(all[front.len() + j] == c);
        }
        if all.contains(c) {
            let j = choose|j: int| 0 <= j < all.len() && all[j] == c;
            if j < front.len() {
                assert(front[j] == c);
                let i = choose|i: int|
                    0 <= i < l.len() && (#[trigger] l[i]).aliases.contains(c) && (unknown_only
                        ==> l[i].severity == Severity::Unknown);
                assert(vulns[i] == l[i]);
            } else {
                assert(own[j - front.len()] == c);
                assert(vulns[n].aliases.contains(c));
            }
        }
        if is_cve(c) && exists|i: int|
            0 <= i < vulns.len() && (#[trigger] vulns[i]).aliases.contains(c) && (unknown_only
                ==> vulns[i].severity == Severity::Unknown) {
            let i = choose|i: int|
                0 <= i < vulns.len() && (#[trigger] vulns[i]).aliases.contains(c) && (unknown_only
                    ==> vulns[i].severity == Severity::Unknown);
            if i < n {
                assert(l[i] == vulns[i]);
            }
        }
    }
}

proof fn lemma_cves_in(aliases: Seq<Seq<char>>, c: Seq<char>)
    ensures
        cves_in(aliases).contains(c) <==> is_cve(c) && aliases.contains(c),
    decreases aliases.len(),
{
    if aliases.len() > 0 {
        let l = aliases.drop_last();
        lemma_cves_in(l, c);
        let front = cves_in(l);
        let all = cves_in(aliases);
        if front.contains(c) {
            let j = choose|j: int| 0 <= j < front.len() && front[j] == c;
            assert(all[j] == c);
        }
        if all.contains(c) && !front.contains(c) {
            let j = choose|j: int| 0 <= j < all.len() && all[j] == c;
            if j < front.len() {
                assert(front[j] == c);
            }
            assert(aliases[l.len() as int] == c);
        }
        if l.contains(c) {
            let j = choose|j: int| 0 <= j < l.len() && l[j] == c;
            assert(aliases[j] == c);
        }
        if aliases.contains(c) && is_cve(c) {
            let j = choose|j: int| 0 <= j < aliases.len() && aliases[j] == c;
            if j < l.len() {
                assert(l[j] == c);
            } else {
                assert(all[front.len() as int] == c);
            }
        }
    }
}

/// The requests ask about a hundred CVEs each, in order, the last about those that are left.
pub proof fn a_request_asks_about_a_hundred(ids: Seq<Seq<char>>, k: int)
    ensures
        epss_batches(ids).len() == (ids.len() + 99) / 100,
        0 <= k < epss_batches(ids).len() ==> epss_batches(ids)[k] == epss_request(
            ids.subrange(
                100 * k,
                if 100 * k + 100 <= ids.len() {
                    100 * k + 100
                } else {
                    ids.len() as int
                },
            ),
        ),
    decreases ids.len(),
{
    if ids.len() == 0 {
    } else if ids.len() <= 100 {
        assert(ids.subrange(0, ids.len() as int) =~= ids);
    } else {
        let rest = ids.skip(100);
        a_request_asks_about_a_hundred(rest, k - 1);
        if k == 0 {
            assert(ids.subrange(0, 100) =~= ids.take(100));
        } else if 0 < k < epss_batches(ids).len() {
            let e = if 100 * k + 100 <= ids.len() {
                100 * k + 100
            } else {
                ids.len() as int
            };
            assert(rest.subrange(100 * (k - 1), e - 100) =~= ids.subrange(100 * k, e));
        }
    }
}

/// The last row for a CVE that has a score counts; a CVE without such a row keeps what it had.
pub proof fn the_last_row_counts(
    m: Map<Seq<char>, Score>,
    rows: Seq<(Seq<char>, Option<Score>)>,
    c: Seq<char>,
    i: int,
)
    requires
        -1 <= i < rows.len(),
        i >= 0 ==> rows[i].0 == c && rows[i].1 is Some,
        forall|k: int| i < k < rows.len() ==> !((#[trigger] rows[k]).0 == c && rows[k].1 is Some),
    ensures
        i >= 0 ==> with_scores(m, rows).dom().contains(c) && Some(with_scores(m, rows)[c])
            == rows[i].1,
        i == -1 ==> with_scores(m, rows).dom().contains(c) == m.dom().contains(c) && (
        m.dom().contains(c) ==> with_scores(m, rows)[c] == m[c]),
    decreases rows.len(),
{
    if rows.len() > 0 {
        let l = rows.drop_last();
        assert forall|k: int| 0 <= k < l.len() implies #[trigger] l[k] == rows[k] by {}
        assert(rows[l.len() as int] == rows.last());
        if i < rows.len() - 1 {
            the_last_row_counts(m, l, c, i);
        }
    }
}

/// The base score is that of the newest version of the metrics that has one: the fourth, then
/// the third in its revision, then the third, then the second.
pub proof fn the_newest_metric_counts(metrics: JsonM)
    ensures
        metric_score(metrics, "cvssMetricV40"@) is Some ==> newest_score(metrics) == metric_score(
            metrics,
            "cvssMetricV40"@,
        ),
        metric_score(metrics, "cvssMetricV40"@) is None && metric_score(metrics, "cvssMetricV31"@)
            is Some ==> newest_score(metrics) == metric_score(metrics, "cvssMetricV31"@),
        metric_score(metrics, "cvssMetricV40"@) is None && metric_score(metrics, "cvssMetricV31"@)
            is None && metric_score(metrics, "cvssMetricV30"@) is Some ==> newest_score(metrics)
            == metric_score(metrics, "cvssMetricV30"@),
        metric_score(metrics, "cvssMetricV40"@) is None && metric_score(metrics, "cvssMetricV31"@)
            is None && metric_score(metrics, "cvssMetricV30"@) is None ==> newest_score(metrics)
            == metric_score(metrics, "cvssMetricV2"@),
{
}

/// Of an answer of the vulnerability database only the first entry about the very CVE counts:
/// one about another gives no score.
pub proof fn only_the_entry_of_the_cve_counts(entries: Seq<JsonM>, cve: Seq<char>, i: int)
    requires
        0 <= i <= entries.len(),
        i < entries.len() ==> json::text_of(
            json::member_of(json::member(entries[i], "cve"@), "id"@),
        ) == Some(cve),
        forall|k: int|
            0 <= k < i ==> json::text_of(
                json::member_of(json::member(#[trigger] entries[k], "cve"@), "id"@),
            ) != Some(cve),
    ensures
        entry_for(entries, cve) == (if i < entries.len() {
            Some(entries[i])
        } else {
            None
        }),
    decreases entries.len(),
{
    if entries.len() > 0 {
        let l = entries.drop_last();
        let n = l.len() as int;
        assert forall|k: int| 0 <= k < n implies #[trigger] l[k] == entries[k] by {}
        assert(entries[n] == entries.last());
        if i < entries.len() {
            only_the_entry_of_the_cve_counts(l, cve, i);
        } else {
            only_the_entry_of_the_cve_counts(l, cve, n);
        }
    }
}

/// The catalog is what its entries name, each once, whatever else stands in them; without a list
/// of them there is none.
pub proof fn the_catalog_is_what_it_names(doc: JsonM, c: Seq<char>)
    ensures
        kev_of(doc) is Some <==> json::list_of(json::member(doc, "vulnerabilities"@)) is Some,
        kev_of(doc) matches Some(k) ==> (k.contains(c) <==> exists|i: int|
            0 <= i < json::list_of(json::member(doc, "vulnerabilities"@))->0.len() && json::text_of(
                json::member(
                    #[trigger] json::list_of(json::member(doc, "vulnerabilities"@))->0[i],
                    "cveID"@,
                ),
            ) == Some(c)),
{
    if let Some(entries) = json::list_of(json::member(doc, "vulnerabilities"@)) {
        value::lemma_text_set(named_cves(entries));
        lemma_named_cves(entries, c);
    }
}

proof fn lemma_named_cves(entries: Seq<JsonM>, c: Seq<char>)
    ensures
        named_cves(entries).contains(c) <==> exists|i: int|
            0 <= i < entries.len() && json::text_of(
                json::member(#[trigger] entries[i], "cveID"@),
            ) == Some(c),
    decreases entries.len(),
{
    if entries.len() > 0 {
        let l = entries.drop_last();
        let n = l.len() as int;
        lemma_named_cves(l, c);
        assert(entries[n] == entries.last());
        assert forall|i: int| 0 <= i < n implies #[trigger] entries[i] == l[i] by {}
        let front = named_cves(l);
        let all = named_cves(entries);
        if front.contains(c) {
            let j = choose|j: int| 0 <= j < front.len() && front[j] == c;
            assert(all[j] == c);
        }
        if json::text_of(json::member(entries.last(), "cveID"@)) == Some(c) {
            assert(all[front.len() as int] == c);
        }
        if all.contains(c) && !front.contains(c) {
            let j = choose|j: int| 0 <= j < all.len() && all[j] == c;
            if j < front.len() {
                assert(front[j] == c);
            }
            assert(json::text_of(json::member(entries[n], "cveID"@)) == Some(c));
        }
        if exists|i: int|
            0 <= i < entries.len() && json::text_of(
                json::member(#[trigger] entries[i], "cveID"@),
            ) == Some(c) {
            let i = choose|i: int|
                0 <= i < entries.len() && json::text_of(
                    json::member(#[trigger] entries[i], "cveID"@),
                ) == Some(c);
            if i < n {
                assert(l[i] == entries[i]);
            }
        }
    }
}

/// A row of the feed is a line with a second field that is neither a comment nor the heading; its
/// first two fields are kept without the white space around them.
pub proof fn a_row_is_a_line_with_two_fields(lines: Seq<Seq<char>>)
    ensures
        csv_rows(lines) == lines.filter(
            |l: Seq<char>|
                !"#"@.is_prefix_of(l) && !"cve"@.is_prefix_of(l) && text::split_on(l, ',').len()
                    >= 2,
        ).map_values(
            |l: Seq<char>|
                (cut::trimmed(text::split_on(l, ',')[0]), cut::trimmed(text::split_on(l, ',')[1])),
        ),
    decreases lines.len(),
{
    reveal(Seq::filter);
    let p = |l: Seq<char>|
        !"#"@.is_prefix_of(l) && !"cve"@.is_prefix_of(l) && text::split_on(l, ',').len() >= 2;
    let f = |l: Seq<char>|
        (cut::trimmed(text::split_on(l, ',')[0]), cut::trimmed(text::split_on(l, ',')[1]));
    if lines.len() > 0 {
        let rest = lines.drop_last();
        a_row_is_a_line_with_two_fields(rest);
        if p(lines.last()) {
            assert(lines.filter(p).map_values(f) =~= rest.filter(p).map_values(f).push(
                f(lines.last()),
            ));
        }
    } else {
        assert(lines.filter(p).map_values(f) =~= Seq::empty());
    }
}

} // verus!
