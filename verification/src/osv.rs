//! Matching installed versions against the version ranges of OSV advisories, and the
//! by-package index of advisories.
use vstd::prelude::*;
use crate::finding;
use crate::finding::{
    DepSource, DepSourceM, DependencyKind, Ecosystem, Exploitability, Occurrence, OccurrenceM,
    Reachability, RepoId, VulnFinding, VulnFindingM,
};
use crate::order;
use crate::order::{Order, Rel};
use crate::score;
use crate::score::Score;
use crate::severity::Severity;
use crate::text;
use crate::textmap::TextMap;
use crate::value;
use crate::value::{ByText, Plain};
use crate::version::{ComparatorM, Version, VersionM, VersionReq};

verus! {

/// How an ecosystem reads the bounds of a range: its versions and their order, what a bound
/// text means, and when a version has reached an `introduced` bound.
pub trait Scheme: Order {
    /// The version that a bound text means, `None` where it means none.
    spec fn bound(text: Seq<char>) -> Option<Self::M>;

    /// Whether `version` is at or after `introduced`.
    spec fn reached(version: Self::M, introduced: Self::M) -> bool;

    fn copy_version(v: &Self::Item) -> (r: Self::Item)
        ensures
            r.deep_view() == v.deep_view(),
    ;

    fn parse_bound(text: &str) -> (r: Option<Self::Item>)
        ensures
            r.deep_view() == Self::bound(text@),
    ;

    fn at_or_after_introduced(version: &Self::Item, introduced: &Self::Item) -> (r: bool)
        ensures
            r == Self::reached(version.deep_view(), introduced.deep_view()),
    ;
}

/// What a [`Event`] stands for.
#[verifier::ext_equal]
pub struct EventM {
    pub introduced: Option<Seq<char>>,
    pub fixed: Option<Seq<char>>,
    pub last_affected: Option<Seq<char>>,
}

/// One event of a range: at most one of the three bounds is set.
#[derive(Debug, PartialEq)]
pub struct Event {
    pub introduced: Option<String>,
    pub fixed: Option<String>,
    pub last_affected: Option<String>,
}

impl DeepView for Event {
    type V = EventM;

    open spec fn deep_view(&self) -> EventM {
        EventM {
            introduced: self.introduced.deep_view(),
            fixed: self.fixed.deep_view(),
            last_affected: self.last_affected.deep_view(),
        }
    }
}

/// What a [`Range`] stands for.
#[verifier::ext_equal]
pub struct RangeM {
    pub matchable: bool,
    pub events: Seq<EventM>,
}

/// One range of an advisory: whether its type is one that is evaluated, and its events.
#[derive(Debug, PartialEq)]
pub struct Range {
    pub matchable: bool,
    pub events: Vec<Event>,
}

impl DeepView for Range {
    type V = RangeM;

    open spec fn deep_view(&self) -> RangeM {
        RangeM {
            matchable: self.matchable,
            events: self.events.deep_view(),
        }
    }
}

/// A bound that was read, or one that is there but means no version.
#[derive(Debug, PartialEq, Eq)]
pub enum ParsedBound<V> {
    Version(V),
    Unparseable,
}

impl<V: DeepView> DeepView for ParsedBound<V> {
    type V = ParsedBound<V::V>;

    open spec fn deep_view(&self) -> ParsedBound<V::V> {
        match self {
            ParsedBound::Version(v) => ParsedBound::Version(v.deep_view()),
            ParsedBound::Unparseable => ParsedBound::Unparseable,
        }
    }
}

/// An [`Event`] with its bounds read.
#[derive(Debug)]
pub struct ParsedEvent<V> {
    /// `None` where there is no such bound.
    pub introduced: Option<ParsedBound<V>>,
    /// `None` where there is no such bound or it means no version.
    pub fixed: Option<V>,
    /// `None` where there is no such bound or it means no version.
    pub last_affected: Option<V>,
}

impl<V: DeepView> DeepView for ParsedEvent<V> {
    type V = ParsedEvent<V::V>;

    open spec fn deep_view(&self) -> ParsedEvent<V::V> {
        ParsedEvent {
            introduced: self.introduced.deep_view(),
            fixed: self.fixed.deep_view(),
            last_affected: self.last_affected.deep_view(),
        }
    }
}

/// What a [`ParsedRange`] stands for.
#[verifier::ext_equal]
#[verifier::reject_recursive_types(M)]
pub struct ParsedRangeM<M> {
    pub matchable: bool,
    pub events: Seq<ParsedEvent<M>>,
}

/// A [`Range`] with its bounds read.
#[derive(Debug)]
pub struct ParsedRange<V> {
    pub matchable: bool,
    pub events: Vec<ParsedEvent<V>>,
}

impl<V: DeepView> DeepView for ParsedRange<V> {
    type V = ParsedRangeM<V::V>;

    open spec fn deep_view(&self) -> ParsedRangeM<V::V> {
        ParsedRangeM { matchable: self.matchable, events: self.events.deep_view() }
    }
}

/// Whether an installed version is covered by the ranges of an advisory.
#[derive(Debug, PartialEq, Eq)]
pub enum Match<V> {
    /// The version falls in no affected range.
    NotAffected,
    /// The version is affected; `fixed` is the version that closes its interval, if one is
    /// named.
    Affected { fixed: Option<V> },
}

impl<V: DeepView> DeepView for Match<V> {
    type V = Match<V::V>;

    open spec fn deep_view(&self) -> Match<V::V> {
        match self {
            Match::NotAffected => Match::NotAffected,
            Match::Affected { fixed } => Match::Affected { fixed: fixed.deep_view() },
        }
    }
}

// --- What the matcher decides ---

pub open spec fn lt<S: Order>(a: S::M, b: S::M) -> bool {
    order::lex_lt(S::key(a), S::key(b))
}

/// A range without any `introduced` bound is open from the start.
pub open spec fn from_start<M>(events: Seq<ParsedEvent<M>>) -> bool {
    forall|i: int| 0 <= i < events.len() ==> (#[trigger] events[i]).introduced is None
}

/// Whether an event closes the interval that `v` would be in.
pub open spec fn closes<S: Scheme>(e: ParsedEvent<S::M>, v: S::M) -> bool {
    (e.fixed is Some && !lt::<S>(v, e.fixed->0)) || (e.last_affected is Some && lt::<S>(
        e.last_affected->0,
        v,
    ))
}

/// Whether an event opens an interval, given which `introduced` bounds are reached. A bound
/// that cannot be read opens one.
pub open spec fn opens_by<M>(e: ParsedEvent<M>, reached: spec_fn(M) -> bool) -> bool {
    match e.introduced {
        Some(ParsedBound::Version(b)) => reached(b),
        Some(ParsedBound::Unparseable) => true,
        None => false,
    }
}

/// The bounds that `v` has reached, as the scheme has it.
pub open spec fn reached_by<S: Scheme>(v: S::M) -> spec_fn(S::M) -> bool {
    |b: S::M| S::reached(v, b)
}

/// Whether an event opens an interval that `v` is in.
pub open spec fn opens<S: Scheme>(e: ParsedEvent<S::M>, v: S::M) -> bool {
    opens_by(e, reached_by::<S>(v))
}

/// Whether `v` is in an open interval after the events, given which `introduced` bounds are
/// reached: the last event that opens or closes one decides, a closing bound before an opening
/// one of the same event.
pub open spec fn open_by<S: Scheme>(
    v: S::M,
    start: bool,
    events: Seq<ParsedEvent<S::M>>,
    reached: spec_fn(S::M) -> bool,
) -> bool
    decreases events.len(),
{
    if events.len() == 0 {
        start
    } else if closes::<S>(events.last(), v) {
        false
    } else {
        opens_by(events.last(), reached) || open_by::<S>(v, start, events.drop_last(), reached)
    }
}

/// Whether `v` is in an open interval after the events.
pub open spec fn open_after<S: Scheme>(
    v: S::M,
    start: bool,
    events: Seq<ParsedEvent<S::M>>,
) -> bool {
    open_by::<S>(v, start, events, reached_by::<S>(v))
}

/// The smallest `fixed` bound above `v`.
pub open spec fn smallest_fix<S: Scheme>(v: S::M, events: Seq<ParsedEvent<S::M>>) -> Option<S::M>
    decreases events.len(),
{
    if events.len() == 0 {
        None
    } else {
        let before = smallest_fix::<S>(v, events.drop_last());
        match events.last().fixed {
            Some(f) => if !lt::<S>(v, f) {
                before
            } else {
                match before {
                    Some(p) => Some(
                        if lt::<S>(f, p) {
                            f
                        } else {
                            p
                        },
                    ),
                    None => Some(f),
                }
            },
            None => before,
        }
    }
}

/// Whether a range covers `v`, given which `introduced` bounds are reached.
pub open spec fn covers_by<S: Scheme>(
    v: S::M,
    range: ParsedRangeM<S::M>,
    reached: spec_fn(S::M) -> bool,
) -> bool {
    range.matchable && open_by::<S>(v, from_start(range.events), range.events, reached)
}

/// Whether a range covers `v`.
pub open spec fn covers<S: Scheme>(v: S::M, range: ParsedRangeM<S::M>) -> bool {
    covers_by::<S>(v, range, reached_by::<S>(v))
}

/// The first range that covers `v` decides, with its smallest fix, given which `introduced`
/// bounds are reached.
pub open spec fn match_by<S: Scheme>(
    v: S::M,
    ranges: Seq<ParsedRangeM<S::M>>,
    reached: spec_fn(S::M) -> bool,
) -> Match<S::M>
    decreases ranges.len(),
{
    if ranges.len() == 0 {
        Match::NotAffected
    } else if covers_by::<S>(v, ranges[0], reached) {
        Match::Affected { fixed: smallest_fix::<S>(v, ranges[0].events) }
    } else {
        match_by::<S>(v, ranges.drop_first(), reached)
    }
}

/// The first range that covers `v` decides, with its smallest fix.
pub open spec fn match_of<S: Scheme>(v: S::M, ranges: Seq<ParsedRangeM<S::M>>) -> Match<S::M> {
    match_by::<S>(v, ranges, reached_by::<S>(v))
}

pub open spec fn parsed_introduced<S: Scheme>(text: Option<Seq<char>>) -> Option<
    ParsedBound<S::M>,
> {
    match text {
        Some(t) => Some(
            match S::bound(t) {
                Some(v) => ParsedBound::Version(v),
                None => ParsedBound::Unparseable,
            },
        ),
        None => None,
    }
}

pub open spec fn parsed_upper<S: Scheme>(text: Option<Seq<char>>) -> Option<S::M> {
    match text {
        Some(t) => S::bound(t),
        None => None,
    }
}

pub open spec fn parsed_event<S: Scheme>(e: EventM) -> ParsedEvent<S::M> {
    ParsedEvent {
        introduced: parsed_introduced::<S>(e.introduced),
        fixed: parsed_upper::<S>(e.fixed),
        last_affected: parsed_upper::<S>(e.last_affected),
    }
}

/// A range with its bounds read.
pub open spec fn parsed_range<S: Scheme>(r: RangeM) -> ParsedRangeM<S::M> {
    ParsedRangeM {
        matchable: r.matchable,
        events: Seq::new(r.events.len(), |i: int| parsed_event::<S>(r.events[i])),
    }
}

pub open spec fn parsed_ranges<S: Scheme>(ranges: Seq<RangeM>) -> Seq<ParsedRangeM<S::M>> {
    Seq::new(ranges.len(), |i: int| parsed_range::<S>(ranges[i]))
}

fn parse_upper<S: Scheme>(text: &Option<String>) -> (r: Option<S::Item>)
    ensures
        r.deep_view() == parsed_upper::<S>(text.deep_view()),
{
    match text {
        Some(t) => S::parse_bound(t.as_str()),
        None => None,
    }
}

fn parse_event<S: Scheme>(e: &Event) -> (r: ParsedEvent<S::Item>)
    ensures
        r.deep_view() == parsed_event::<S>(e.deep_view()),
{
    let introduced: Option<ParsedBound<S::Item>> = match &e.introduced {
        Some(t) => match S::parse_bound(t.as_str()) {
            Some(v) => Some(ParsedBound::Version(v)),
            None => Some(ParsedBound::Unparseable),
        },
        None => None,
    };
    ParsedEvent {
        introduced,
        fixed: parse_upper::<S>(&e.fixed),
        last_affected: parse_upper::<S>(&e.last_affected),
    }
}

/// Reads the bounds of a range once, so that they need not be read for every version matched
/// against it.
pub fn parse_range<S: Scheme>(range: &Range) -> (r: ParsedRange<S::Item>)
    ensures
        r.deep_view() == parsed_range::<S>(range.deep_view()),
{
    let mut events: Vec<ParsedEvent<S::Item>> = Vec::new();
    let ghost all = parsed_range::<S>(range.deep_view()).events;
    let mut i: usize = 0;
    while i < range.events.len()
        invariant
            i <= range.events.len(),
            all == parsed_range::<S>(range.deep_view()).events,
            events.deep_view() == all.take(i as int),
        decreases range.events.len() - i,
    {
        let e = parse_event::<S>(&range.events[i]);
        let ghost before = events.deep_view();
        events.push(e);
        i += 1;
        assert(events.deep_view() =~= before.push(e.deep_view()));
        assert(all.take(i as int) =~= all.take(i - 1).push(all[i - 1]));
    }
    assert(events.deep_view() =~= all);
    ParsedRange { matchable: range.matchable, events }
}

fn any_introduced<S: Scheme>(events: &Vec<ParsedEvent<S::Item>>) -> (r: bool)
    ensures
        r == !from_start(events.deep_view()),
{
    let mut i: usize = 0;
    while i < events.len()
        invariant
            i <= events.len(),
            forall|j: int|
                0 <= j < i ==> (#[trigger] events.deep_view()[j]).introduced is None,
        decreases events.len() - i,
    {
        if events[i].introduced.is_some() {
            assert(events.deep_view()[i as int].introduced is Some);
            return true;
        }
        i += 1;
    }
    false
}

/// Whether a comparison finds exactly the bounds of `reached` to be reached by `version`.
pub open spec fn finds_reached<T: DeepView, F: Fn(&T, &T) -> bool>(
    at_or_after_introduced: F,
    version: &T,
    reached: spec_fn(T::V) -> bool,
) -> bool {
    forall|b: &T, r: bool|
        call_ensures(at_or_after_introduced, (version, b), r) ==> r == reached(b.deep_view())
}

/// Matches `version` against the ranges, with a comparison of its own with `introduced` bounds;
/// ranges that are not matchable are skipped.
pub fn affected_fixed_parsed_by<S: Scheme, F: Fn(&S::Item, &S::Item) -> bool>(
    version: &S::Item,
    ranges: &Vec<ParsedRange<S::Item>>,
    at_or_after_introduced: F,
) -> (r: Match<S::Item>)
    requires
        forall|b: &S::Item| call_requires(at_or_after_introduced, (version, b)),
    ensures
        forall|reached: spec_fn(S::M) -> bool| #[trigger]
            finds_reached(at_or_after_introduced, version, reached) ==> r.deep_view()
                == match_by::<S>(version.deep_view(), ranges.deep_view(), reached),
{
    let ghost v = version.deep_view();
    let ghost all = ranges.deep_view();
    let mut n: usize = 0;
    assert(all.skip(0) =~= all);
    while n < ranges.len()
        invariant
            n <= ranges.len(),
            v == version.deep_view(),
            all == ranges.deep_view(),
            forall|b: &S::Item| call_requires(at_or_after_introduced, (version, b)),
            forall|p: spec_fn(S::M) -> bool| #[trigger]
                finds_reached(at_or_after_introduced, version, p) ==> match_by::<S>(v, all, p)
                    == match_by::<S>(v, all.skip(n as int), p),
        decreases ranges.len() - n,
    {
        let range = &ranges[n];
        let ghost events = range.events.deep_view();
        proof {
            assert(all.skip(n as int)[0] == all[n as int]);
            assert(all.skip(n as int).drop_first() =~= all.skip(n + 1));
        }
        if range.matchable {
            let start: bool = !any_introduced::<S>(&range.events);
            let mut affected: bool = start;
            let mut patch: Option<S::Item> = None;
            let mut i: usize = 0;
            proof {
                assert(events.take(0) =~= Seq::empty());
            }
            while i < range.events.len()
                invariant
                    i <= range.events.len(),
                    v == version.deep_view(),
                    events == range.events.deep_view(),
                    forall|b: &S::Item| call_requires(at_or_after_introduced, (version, b)),
                    forall|p: spec_fn(S::M) -> bool| #[trigger]
                        finds_reached(at_or_after_introduced, version, p) ==> affected
                            == open_by::<S>(v, start, events.take(i as int), p),
                    patch.deep_view() == smallest_fix::<S>(v, events.take(i as int)),
                decreases range.events.len() - i,
            {
                let event = &range.events[i];
                proof {
                    assert(events.take(i + 1).drop_last() =~= events.take(i as int));
                    assert(events.take(i + 1).last() == event.deep_view());
                }
                match &event.introduced {
                    Some(ParsedBound::Version(b)) => {
                        if at_or_after_introduced(version, b) {
                            affected = true;
                        }
                    },
                    Some(ParsedBound::Unparseable) => {
                        affected = true;
                    },
                    None => {},
                }
                match &event.fixed {
                    Some(f) => {
                        match S::rel(version, f) {
                            Rel::Less => {
                                let smaller: bool = match &patch {
                                    Some(p) => match S::rel(f, p) {
                                        Rel::Less => true,
                                        _ => false,
                                    },
                                    None => true,
                                };
                                if smaller {
                                    patch = Some(S::copy_version(f));
                                }
                            },
                            _ => {
                                affected = false;
                            },
                        }
                    },
                    None => {},
                }
                match &event.last_affected {
                    Some(l) => {
                        match S::rel(l, version) {
                            Rel::Less => {
                                affected = false;
                            },
                            _ => {},
                        }
                    },
                    None => {},
                }
                i += 1;
            }
            assert(events.take(i as int) =~= events);
            if affected {
                return Match::Affected { fixed: patch };
            }
        }
        n += 1;
    }
    Match::NotAffected
}

/// Matches `version` against the ranges; those that are not matchable are skipped.
pub fn affected_fixed_parsed<S: Scheme>(
    version: &S::Item,
    ranges: &Vec<ParsedRange<S::Item>>,
) -> (r: Match<S::Item>)
    ensures
        r.deep_view() == match_of::<S>(version.deep_view(), ranges.deep_view()),
{
    let compare = |a: &S::Item, b: &S::Item| -> (r: bool)
        ensures
            r == S::reached(a.deep_view(), b.deep_view()),
        { S::at_or_after_introduced(a, b) };
    assert(finds_reached(compare, version, reached_by::<S>(version.deep_view())));
    affected_fixed_parsed_by::<S, _>(version, ranges, compare)
}

fn parse_ranges<S: Scheme>(ranges: &Vec<Range>) -> (parsed: Vec<ParsedRange<S::Item>>)
    ensures
        parsed.deep_view() == parsed_ranges::<S>(ranges.deep_view()),
{
    let mut parsed: Vec<ParsedRange<S::Item>> = Vec::new();
    let ghost all = parsed_ranges::<S>(ranges.deep_view());
    let mut i: usize = 0;
    while i < ranges.len()
        invariant
            i <= ranges.len(),
            all == parsed_ranges::<S>(ranges.deep_view()),
            parsed.deep_view() == all.take(i as int),
        decreases ranges.len() - i,
    {
        let r = parse_range::<S>(&ranges[i]);
        let ghost before = parsed.deep_view();
        parsed.push(r);
        i += 1;
        assert(parsed.deep_view() =~= before.push(r.deep_view()));
        assert(all.take(i as int) =~= all.take(i - 1).push(all[i - 1]));
    }
    assert(parsed.deep_view() =~= all);
    parsed
}

/// Matches `version` against ranges whose bounds are texts, with a comparison of its own with
/// `introduced` bounds.
pub fn affected_fixed_by<S: Scheme, F: Fn(&S::Item, &S::Item) -> bool>(
    version: &S::Item,
    ranges: &Vec<Range>,
    at_or_after_introduced: F,
) -> (r: Match<S::Item>)
    requires
        forall|b: &S::Item| call_requires(at_or_after_introduced, (version, b)),
    ensures
        forall|reached: spec_fn(S::M) -> bool| #[trigger]
            finds_reached(at_or_after_introduced, version, reached) ==> r.deep_view()
                == match_by::<S>(
                version.deep_view(),
                parsed_ranges::<S>(ranges.deep_view()),
                reached,
            ),
{
    affected_fixed_parsed_by::<S, F>(version, &parse_ranges::<S>(ranges), at_or_after_introduced)
}

/// Matches `version` against ranges whose bounds are texts.
pub fn affected_fixed<S: Scheme>(version: &S::Item, ranges: &Vec<Range>) -> (r: Match<S::Item>)
    ensures
        r.deep_view() == match_of::<S>(version.deep_view(), parsed_ranges::<S>(ranges.deep_view())),
{
    affected_fixed_parsed::<S>(version, &parse_ranges::<S>(ranges))
}

// --- Laws of the matcher ---

/// The parsed matcher and the text matcher decide alike: on ranges that were read one by one,
/// the first decides as the second does on the texts.
pub proof fn parsed_matcher_agrees<S: Scheme>(
    v: S::M,
    ranges: Seq<RangeM>,
    parsed: Seq<ParsedRangeM<S::M>>,
)
    requires
        parsed.len() == ranges.len(),
        forall|i: int|
            0 <= i < ranges.len() ==> #[trigger] parsed[i] == parsed_range::<S>(ranges[i]),
    ensures
        match_of::<S>(v, parsed) == match_of::<S>(v, parsed_ranges::<S>(ranges)),
{
    assert(parsed =~= parsed_ranges::<S>(ranges));
}

/// The version is affected exactly when some range covers it.
pub proof fn affected_iff_covered<S: Scheme>(v: S::M, ranges: Seq<ParsedRangeM<S::M>>)
    ensures
        (match_of::<S>(v, ranges) is Affected) <==> exists|i: int|
            0 <= i < ranges.len() && covers::<S>(v, #[trigger] ranges[i]),
    decreases ranges.len(),
{
    if ranges.len() > 0 {
        let rest = ranges.drop_first();
        affected_iff_covered::<S>(v, rest);
        if covers::<S>(v, ranges[0]) {
            assert(covers::<S>(v, ranges[0]));
        } else {
            if exists|i: int| 0 <= i < rest.len() && covers::<S>(v, #[trigger] rest[i]) {
                let i = choose|i: int| 0 <= i < rest.len() && covers::<S>(v, #[trigger] rest[i]);
                assert(covers::<S>(v, ranges[i + 1]));
            }
            if exists|i: int| 0 <= i < ranges.len() && covers::<S>(v, #[trigger] ranges[i]) {
                let i = choose|i: int|
                    0 <= i < ranges.len() && covers::<S>(v, #[trigger] ranges[i]);
                assert(covers::<S>(v, rest[i - 1]));
            }
        }
    }
}

/// Where no event closes the interval of `v`, it is open as soon as one event opens it, or
/// from the start.
pub proof fn open_unless_closed<S: Scheme>(
    v: S::M,
    start: bool,
    events: Seq<ParsedEvent<S::M>>,
)
    requires
        forall|i: int| 0 <= i < events.len() ==> !closes::<S>(#[trigger] events[i], v),
    ensures
        open_after::<S>(v, start, events) <==> (start || exists|i: int|
            0 <= i < events.len() && opens::<S>(#[trigger] events[i], v)),
    decreases events.len(),
{
    if events.len() > 0 {
        let l = events.drop_last();
        assert forall|i: int| 0 <= i < l.len() implies !closes::<S>(#[trigger] l[i], v) by {
            assert(l[i] == events[i]);
        }
        open_unless_closed::<S>(v, start, l);
        if exists|i: int| 0 <= i < l.len() && opens::<S>(#[trigger] l[i], v) {
            let i = choose|i: int| 0 <= i < l.len() && opens::<S>(#[trigger] l[i], v);
            assert(opens::<S>(events[i], v));
        }
        if opens::<S>(events.last(), v) {
            assert(opens::<S>(events[events.len() - 1], v));
        }
        if exists|i: int| 0 <= i < events.len() && opens::<S>(#[trigger] events[i], v) {
            let i = choose|i: int| 0 <= i < events.len() && opens::<S>(#[trigger] events[i], v);
            if i < l.len() {
                assert(opens::<S>(l[i], v));
            }
        }
    }
}

/// An `introduced` bound that cannot be read fails loud: the version reads as affected unless
/// another bound of the range closes its interval.
pub proof fn unreadable_bound_fails_loud<S: Scheme>(
    v: S::M,
    ranges: Seq<ParsedRangeM<S::M>>,
    n: int,
    e: int,
)
    requires
        0 <= n < ranges.len(),
        ranges[n].matchable,
        0 <= e < ranges[n].events.len(),
        ranges[n].events[e].introduced == Some(ParsedBound::<S::M>::Unparseable),
        forall|i: int|
            0 <= i < ranges[n].events.len() ==> !closes::<S>(#[trigger] ranges[n].events[i], v),
    ensures
        match_of::<S>(v, ranges) is Affected,
{
    let events = ranges[n].events;
    open_unless_closed::<S>(v, from_start(events), events);
    assert(opens::<S>(events[e], v));
    assert(covers::<S>(v, ranges[n]));
    affected_iff_covered::<S>(v, ranges);
}

/// A matchable range without an `introduced` bound is affected from the start: the version
/// reads as affected unless a bound of the range closes its interval.
pub proof fn no_introduced_is_affected_from_start<S: Scheme>(
    v: S::M,
    ranges: Seq<ParsedRangeM<S::M>>,
    n: int,
)
    requires
        0 <= n < ranges.len(),
        ranges[n].matchable,
        from_start(ranges[n].events),
        forall|i: int|
            0 <= i < ranges[n].events.len() ==> !closes::<S>(#[trigger] ranges[n].events[i], v),
    ensures
        match_of::<S>(v, ranges) is Affected,
{
    open_unless_closed::<S>(v, true, ranges[n].events);
    assert(covers::<S>(v, ranges[n]));
    affected_iff_covered::<S>(v, ranges);
}

/// The reported fix is a `fixed` bound above the version, and no `fixed` bound above the
/// version is smaller; none is reported exactly when no `fixed` bound is above it.
pub proof fn fix_is_smallest<S: Scheme>(v: S::M, events: Seq<ParsedEvent<S::M>>)
    ensures
        match smallest_fix::<S>(v, events) {
            Some(f) => {
                &&& lt::<S>(v, f)
                &&& exists|i: int| 0 <= i < events.len() && (#[trigger] events[i]).fixed == Some(f)
                &&& forall|i: int|
                    0 <= i < events.len() && (#[trigger] events[i]).fixed is Some && lt::<S>(
                        v,
                        events[i].fixed->0,
                    ) ==> !lt::<S>(events[i].fixed->0, f)
            },
            None => forall|i: int|
                0 <= i < events.len() && (#[trigger] events[i]).fixed is Some ==> !lt::<S>(
                    v,
                    events[i].fixed->0,
                ),
        },
    decreases events.len(),
{
    if events.len() > 0 {
        let l = events.drop_last();
        let e = events.last();
        fix_is_smallest::<S>(v, l);
        let before = smallest_fix::<S>(v, l);
        let after = smallest_fix::<S>(v, events);
        assert forall|i: int| 0 <= i < l.len() implies #[trigger] events[i] == l[i] by {}
        if after == before {
            if let Some(f) = after {
                let i = choose|i: int| 0 <= i < l.len() && (#[trigger] l[i]).fixed == Some(f);
                assert(events[i].fixed == Some(f));
            }
        } else {
            assert(events[events.len() - 1].fixed == after);
        }
        if let Some(f) = after {
            assert forall|i: int|
                0 <= i < events.len() && (#[trigger] events[i]).fixed is Some && lt::<S>(
                    v,
                    events[i].fixed->0,
                ) implies !lt::<S>(events[i].fixed->0, f) by {
                let g = events[i].fixed->0;
                if i < l.len() {
                    assert(l[i].fixed == Some(g));
                    assert(before is Some);
                    let p = before->0;
                    assert(!lt::<S>(g, p));
                    if f != p {
                        order::lemma_lex_total(S::key(g), S::key(p));
                        order::lemma_lex_total(S::key(g), S::key(f));
                        if lt::<S>(g, f) {
                            order::lemma_lex_transitive(S::key(g), S::key(f), S::key(p));
                        }
                    }
                } else {
                    order::lemma_lex_irreflexive(S::key(g));
                }
            }
        }
    }
}

/// Ranges whose type is not evaluated do not matter.
pub proof fn unmatchable_range_is_skipped<S: Scheme>(
    v: S::M,
    ranges: Seq<ParsedRangeM<S::M>>,
    n: int,
)
    requires
        0 <= n < ranges.len(),
        !ranges[n].matchable,
    ensures
        match_of::<S>(v, ranges) == match_of::<S>(v, ranges.remove(n)),
    decreases ranges.len(),
{
    if n == 0 {
        assert(ranges.remove(0) =~= ranges.drop_first());
    } else {
        assert(ranges.remove(n)[0] == ranges[0]);
        assert(ranges.remove(n).drop_first() =~= ranges.drop_first().remove(n - 1));
        unmatchable_range_is_skipped::<S>(v, ranges.drop_first(), n - 1);
    }
}

// --- Advisory records ---

/// What a [`RawEvent`] stands for.
#[verifier::ext_equal]
pub struct RawEventM {
    pub introduced: Option<Seq<char>>,
    pub fixed: Option<Seq<char>>,
    pub last_affected: Option<Seq<char>>,
}

/// One event of a range as a record holds it.
#[derive(Debug, PartialEq)]
pub struct RawEvent {
    pub introduced: Option<String>,
    pub fixed: Option<String>,
    pub last_affected: Option<String>,
}

impl DeepView for RawEvent {
    type V = RawEventM;

    open spec fn deep_view(&self) -> RawEventM {
        RawEventM {
            introduced: self.introduced.deep_view(),
            fixed: self.fixed.deep_view(),
            last_affected: self.last_affected.deep_view(),
        }
    }
}

/// What a [`RawRange`] stands for.
#[verifier::ext_equal]
pub struct RawRangeM {
    pub kind: Option<Seq<char>>,
    pub events: Seq<RawEventM>,
}

/// One range as a record holds it.
#[derive(Debug, PartialEq)]
pub struct RawRange {
    pub kind: Option<String>,
    pub events: Vec<RawEvent>,
}

impl DeepView for RawRange {
    type V = RawRangeM;

    open spec fn deep_view(&self) -> RawRangeM {
        RawRangeM {
            kind: self.kind.deep_view(),
            events: self.events.deep_view(),
        }
    }
}

/// What a [`Package`] stands for.
#[verifier::ext_equal]
pub struct PackageM {
    pub name: Option<Seq<char>>,
    pub ecosystem: Option<Seq<char>>,
}

/// The package that an entry is about.
#[derive(Debug, PartialEq)]
pub struct Package {
    pub name: Option<String>,
    pub ecosystem: Option<String>,
}

impl DeepView for Package {
    type V = PackageM;

    open spec fn deep_view(&self) -> PackageM {
        PackageM {
            name: self.name.deep_view(),
            ecosystem: self.ecosystem.deep_view(),
        }
    }
}

/// What a [`Affected`] stands for.
#[verifier::ext_equal]
pub struct AffectedM {
    pub package: PackageM,
    pub ranges: Seq<RawRangeM>,
    pub versions: Option<Seq<Seq<char>>>,
}

/// One affected package of a record.
#[derive(Debug, PartialEq)]
pub struct Affected {
    pub package: Package,
    pub ranges: Vec<RawRange>,
    pub versions: Option<Vec<String>>,
}

impl DeepView for Affected {
    type V = AffectedM;

    open spec fn deep_view(&self) -> AffectedM {
        AffectedM {
            package: self.package.deep_view(),
            ranges: self.ranges.deep_view(),
            versions: self.versions.deep_view(),
        }
    }
}

/// What a [`DatabaseSpecific`] stands for.
#[verifier::ext_equal]
pub struct DatabaseSpecificM {
    pub severity: Option<Seq<char>>,
}

/// What the database adds to a record.
#[derive(Debug, PartialEq)]
pub struct DatabaseSpecific {
    pub severity: Option<String>,
}

impl DeepView for DatabaseSpecific {
    type V = DatabaseSpecificM;

    open spec fn deep_view(&self) -> DatabaseSpecificM {
        DatabaseSpecificM {
            severity: self.severity.deep_view(),
        }
    }
}

/// What a [`SeverityEntry`] stands for.
#[verifier::ext_equal]
pub struct SeverityEntryM {
    pub kind: Option<Seq<char>>,
    pub score: Option<Seq<char>>,
}

/// One severity vector of a record.
#[derive(Debug, PartialEq)]
pub struct SeverityEntry {
    pub kind: Option<String>,
    pub score: Option<String>,
}

impl DeepView for SeverityEntry {
    type V = SeverityEntryM;

    open spec fn deep_view(&self) -> SeverityEntryM {
        SeverityEntryM {
            kind: self.kind.deep_view(),
            score: self.score.deep_view(),
        }
    }
}

/// What a [`OsvRecord`] stands for.
#[verifier::ext_equal]
pub struct OsvRecordM {
    pub id: Seq<char>,
    pub aliases: Option<Seq<Seq<char>>>,
    pub summary: Option<Seq<char>>,
    pub affected: Seq<AffectedM>,
    pub severity: Seq<SeverityEntryM>,
    pub database_specific: Option<DatabaseSpecificM>,
}

/// One advisory record.
#[derive(Debug, PartialEq)]
pub struct OsvRecord {
    pub id: String,
    pub aliases: Option<Vec<String>>,
    pub summary: Option<String>,
    pub affected: Vec<Affected>,
    pub severity: Vec<SeverityEntry>,
    pub database_specific: Option<DatabaseSpecific>,
}

impl DeepView for OsvRecord {
    type V = OsvRecordM;

    open spec fn deep_view(&self) -> OsvRecordM {
        OsvRecordM {
            id: self.id@,
            aliases: self.aliases.deep_view(),
            summary: self.summary.deep_view(),
            affected: self.affected.deep_view(),
            severity: self.severity.deep_view(),
            database_specific: self.database_specific.deep_view(),
        }
    }
}

// --- Severity ---

/// The band that a severity label names.
pub open spec fn label_band(label: Seq<char>) -> Severity {
    let l = text::ascii_upper(label);
    if l == "LOW"@ {
        Severity::Low
    } else if l == "MODERATE"@ || l == "MEDIUM"@ {
        Severity::Medium
    } else if l == "HIGH"@ {
        Severity::High
    } else if l == "CRITICAL"@ {
        Severity::Critical
    } else {
        Severity::Unknown
    }
}

/// The band that a severity label names, in any case of letters.
pub fn band_from_label(label: &str) -> (r: Severity)
    ensures
        r == label_band(label@),
{
    let l = text::to_upper(label);
    if text::same(l.as_str(), "LOW") {
        Severity::Low
    } else if text::same(l.as_str(), "MODERATE") || text::same(l.as_str(), "MEDIUM") {
        Severity::Medium
    } else if text::same(l.as_str(), "HIGH") {
        Severity::High
    } else if text::same(l.as_str(), "CRITICAL") {
        Severity::Critical
    } else {
        Severity::Unknown
    }
}

/// The bands of the CVSS rating scale.
#[derive(Debug, Clone, Copy, PartialEq, Eq, Structural)]
pub enum CvssBand {
    Zero,
    Low,
    Medium,
    High,
    Critical,
}

/// The band and the base score of a CVSS 3 vector, where the text is one.
pub uninterp spec fn cvss_v3(vector: Seq<char>) -> Option<(CvssBand, Score)>;

/// Scores a CVSS 3 vector.
///
/// Calls `cvss::v3::Base::from_str`, and on its result `score`, `severity` and `value`; the
/// value is handed on as the bits of the double that it is.
#[verifier::external_body]
fn score_cvss_v3(vector: &str) -> (r: Option<(CvssBand, Score)>)
    ensures
        r == cvss_v3(vector@),
{
    let base: Option<cvss::v3::Base> = vector.parse().ok();
    base.map(|b| {
        let score = b.score();
        let band = match score.severity() {
            cvss::Severity::None => CvssBand::Zero,
            cvss::Severity::Low => CvssBand::Low,
            cvss::Severity::Medium => CvssBand::Medium,
            cvss::Severity::High => CvssBand::High,
            cvss::Severity::Critical => CvssBand::Critical,
        };
        (band, Score { bits: score.value().to_bits() })
    })
}

pub open spec fn cvss_severity(b: CvssBand) -> Severity {
    match b {
        CvssBand::Zero => Severity::Unknown,
        CvssBand::Low => Severity::Low,
        CvssBand::Medium => Severity::Medium,
        CvssBand::High => Severity::High,
        CvssBand::Critical => Severity::Critical,
    }
}

/// The severity of a CVSS band.
pub fn band_from_cvss(b: CvssBand) -> (r: Severity)
    ensures
        r == cvss_severity(b),
{
    match b {
        CvssBand::Zero => Severity::Unknown,
        CvssBand::Low => Severity::Low,
        CvssBand::Medium => Severity::Medium,
        CvssBand::High => Severity::High,
        CvssBand::Critical => Severity::Critical,
    }
}

/// What a severity vector is worth, in single precision: only readable CVSS 3 vectors count.
pub open spec fn vector_score(e: SeverityEntryM) -> Option<(CvssBand, Score)> {
    if e.kind == Some("CVSS_V3"@) && e.score is Some {
        match cvss_v3(e.score->0) {
            Some(x) => Some((x.0, score::narrowed(x.1))),
            None => None,
        }
    } else {
        None
    }
}

/// The better of the scores of two vectors: the higher, the later where they are equal.
pub open spec fn better_score(
    a: Option<(CvssBand, Score)>,
    b: Option<(CvssBand, Score)>,
) -> Option<(CvssBand, Score)> {
    match a {
        None => b,
        Some(x) => match b {
            None => a,
            Some(y) => if score::total_level(x.1) > score::total_level(y.1) {
                a
            } else {
                b
            },
        },
    }
}

/// The highest score among vectors.
pub open spec fn best_score(scores: Seq<Option<(CvssBand, Score)>>) -> Option<(CvssBand, Score)>
    decreases scores.len(),
{
    if scores.len() == 0 {
        None
    } else {
        better_score(best_score(scores.drop_last()), scores.last())
    }
}

/// The severity of a record, given what its vectors are worth: the curated band where there
/// is one, else the band of the highest score.
pub open spec fn severity_given(
    label: Option<Seq<char>>,
    scores: Seq<Option<(CvssBand, Score)>>,
) -> (Severity, Option<Score>) {
    let band = match label {
        Some(l) => label_band(l),
        None => Severity::Unknown,
    };
    match best_score(scores) {
        Some(b) => (
            if band != Severity::Unknown {
                band
            } else {
                cvss_severity(b.0)
            },
            Some(b.1),
        ),
        None => (band, None),
    }
}

pub open spec fn record_label(osv: OsvRecordM) -> Option<Seq<char>> {
    match osv.database_specific {
        Some(d) => d.severity,
        None => None,
    }
}

pub open spec fn record_scores(osv: OsvRecordM) -> Seq<Option<(CvssBand, Score)>> {
    Seq::new(osv.severity.len(), |i: int| vector_score(osv.severity[i]))
}

/// The severity of a record, given what its vectors are worth.
pub fn severity_from(
    label: &Option<String>,
    scores: &Vec<Option<(CvssBand, Score)>>,
) -> (r: (Severity, Option<Score>))
    ensures
        r == severity_given(label.deep_view(), scores@),
{
    let band: Severity = match label {
        Some(l) => band_from_label(l.as_str()),
        None => Severity::Unknown,
    };
    let mut best: Option<(CvssBand, Score)> = None;
    let mut i: usize = 0;
    assert(scores@.take(0) =~= Seq::empty());
    while i < scores.len()
        invariant
            i <= scores.len(),
            best == best_score(scores@.take(i as int)),
        decreases scores.len() - i,
    {
        proof {
            assert(scores@.take(i + 1).drop_last() =~= scores@.take(i as int));
        }
        match best {
            None => {
                best = scores[i];
            },
            Some(x) => {
                match scores[i] {
                    None => {},
                    Some(y) => {
                        if !(x.1.total() > y.1.total()) {
                            best = Some(y);
                        }
                    },
                }
            },
        }
        i += 1;
    }
    assert(scores@.take(i as int) =~= scores@);
    match best {
        Some(b) => {
            let severity: Severity = if band != Severity::Unknown {
                band
            } else {
                band_from_cvss(b.0)
            };
            (severity, Some(b.1))
        },
        None => (band, None),
    }
}

/// The severity and score of a record: the curated band where there is one, and the highest
/// CVSS 3 base score.
pub fn default_severity(osv: &OsvRecord) -> (r: (Severity, Option<Score>))
    ensures
        r == severity_given(record_label(osv.deep_view()), record_scores(osv.deep_view())),
{
    let mut scores: Vec<Option<(CvssBand, Score)>> = Vec::new();
    let ghost all = record_scores(osv.deep_view());
    let mut i: usize = 0;
    while i < osv.severity.len()
        invariant
            i <= osv.severity.len(),
            all == record_scores(osv.deep_view()),
            scores@ == all.take(i as int),
        decreases osv.severity.len() - i,
    {
        let e = &osv.severity[i];
        let mut s: Option<(CvssBand, Score)> = None;
        if text::is_text(&e.kind, "CVSS_V3") {
            match &e.score {
                Some(v) => {
                    s = match score_cvss_v3(v.as_str()) {
                        Some(x) => Some((x.0, x.1.narrow())),
                        None => None,
                    };
                },
                None => {},
            }
        }
        scores.push(s);
        i += 1;
        assert(all.take(i as int) =~= all.take(i - 1).push(all[i - 1]));
    }
    assert(scores@ =~= all);
    let label: Option<String> = match &osv.database_specific {
        Some(d) => d.severity.copy(),
        None => None,
    };
    severity_from(&label, &scores)
}

// --- The index by package ---

/// How an ecosystem reads advisory records, beyond how it reads versions.
pub trait Spec: Scheme {
    /// The `ecosystem` name of the entries that count.
    spec fn ecosystem_name() -> Seq<char>;

    /// The `type` of the ranges that are evaluated.
    spec fn range_kind() -> Seq<char>;

    /// Whether the listed versions are used.
    spec fn uses_versions() -> bool;

    /// The name under which a package is indexed.
    spec fn normalized(name: Seq<char>) -> Seq<char>;

    fn ecosystem() -> (r: &'static str)
        ensures
            r@ == Self::ecosystem_name(),
    ;

    fn range_type() -> (r: &'static str)
        ensures
            r@ == Self::range_kind(),
    ;

    fn use_versions() -> (r: bool)
        ensures
            r == Self::uses_versions(),
    ;

    fn normalize_name(name: &str) -> (r: String)
        ensures
            r@ == Self::normalized(name@),
    ;
}

/// What an [`Advisory`] stands for.
#[verifier::ext_equal]
#[verifier::reject_recursive_types(M)]
pub struct AdvisoryM<M> {
    pub id: Seq<char>,
    pub aliases: Seq<Seq<char>>,
    pub summary: Option<Seq<char>>,
    pub severity: Severity,
    pub cvss_score: Option<Score>,
    pub ranges: Seq<ParsedRangeM<M>>,
    pub versions: Seq<M>,
}

/// What one advisory says of one package.
#[derive(Debug)]
pub struct Advisory<V> {
    pub id: String,
    pub aliases: Vec<String>,
    pub summary: Option<String>,
    pub severity: Severity,
    pub cvss_score: Option<Score>,
    pub ranges: Vec<ParsedRange<V>>,
    /// The listed versions, in order and each once.
    pub versions: Vec<V>,
}

impl<V: DeepView> DeepView for Advisory<V> {
    type V = AdvisoryM<V::V>;

    open spec fn deep_view(&self) -> AdvisoryM<V::V> {
        AdvisoryM {
            id: self.id@,
            aliases: self.aliases.deep_view(),
            summary: self.summary.deep_view(),
            severity: self.severity,
            cvss_score: self.cvss_score,
            ranges: self.ranges.deep_view(),
            versions: self.versions.deep_view(),
        }
    }
}

/// The versions that a list of texts means, those that mean none left out.
pub open spec fn read_versions<S: Scheme>(texts: Seq<Seq<char>>) -> Seq<S::M>
    decreases texts.len(),
{
    if texts.len() == 0 {
        Seq::empty()
    } else {
        let front = read_versions::<S>(texts.drop_last());
        match S::bound(texts.last()) {
            Some(v) => front.push(v),
            None => front,
        }
    }
}

pub open spec fn raw_range<S: Spec>(r: RawRangeM) -> RangeM {
    RangeM {
        matchable: r.kind == Some(S::range_kind()),
        events: Seq::new(
            r.events.len(),
            |i: int|
                EventM {
                    introduced: r.events[i].introduced,
                    fixed: r.events[i].fixed,
                    last_affected: r.events[i].last_affected,
                },
        ),
    }
}

/// The listed versions in order, each once; none where the ecosystem does not use them.
pub open spec fn listed_versions<S: Spec>(texts: Option<Seq<Seq<char>>>) -> Seq<S::M> {
    if S::uses_versions() && texts is Some {
        order::first_per_key::<S>(order::in_order::<S>(read_versions::<S>(texts->0)))
    } else {
        Seq::empty()
    }
}

/// What one affected entry adds to the index: nothing where it is about another ecosystem or
/// names no package.
pub open spec fn indexed<S: Spec>(
    osv: OsvRecordM,
    rating: (Severity, Option<Score>),
    a: AffectedM,
) -> Option<(Seq<char>, AdvisoryM<S::M>)> {
    if a.package.ecosystem == Some(S::ecosystem_name()) && a.package.name is Some {
        Some(
            (
                S::normalized(a.package.name->0),
                AdvisoryM {
                    id: osv.id,
                    aliases: match osv.aliases {
                        Some(l) => l,
                        None => Seq::empty(),
                    },
                    summary: osv.summary,
                    severity: rating.0,
                    cvss_score: rating.1,
                    ranges: Seq::new(
                        a.ranges.len(),
                        |i: int| parsed_range::<S>(raw_range::<S>(a.ranges[i])),
                    ),
                    versions: listed_versions::<S>(a.versions),
                },
            ),
        )
    } else {
        None
    }
}

/// What the first entries of a record add to the index, in their order.
pub open spec fn indexed_all<S: Spec>(
    osv: OsvRecordM,
    rating: (Severity, Option<Score>),
    affected: Seq<AffectedM>,
) -> Seq<(Seq<char>, AdvisoryM<S::M>)>
    decreases affected.len(),
{
    if affected.len() == 0 {
        Seq::empty()
    } else {
        let front = indexed_all::<S>(osv, rating, affected.drop_last());
        match indexed::<S>(osv, rating, affected.last()) {
            Some(p) => front.push(p),
            None => front,
        }
    }
}

fn read_raw_range<S: Spec>(r: &RawRange) -> (out: ParsedRange<S::Item>)
    ensures
        out.deep_view() == parsed_range::<S>(raw_range::<S>(r.deep_view())),
{
    let mut events: Vec<Event> = Vec::new();
    let ghost all = raw_range::<S>(r.deep_view()).events;
    let mut i: usize = 0;
    while i < r.events.len()
        invariant
            i <= r.events.len(),
            all == raw_range::<S>(r.deep_view()).events,
            events.deep_view() == all.take(i as int),
        decreases r.events.len() - i,
    {
        let e = Event {
            introduced: r.events[i].introduced.copy(),
            fixed: r.events[i].fixed.copy(),
            last_affected: r.events[i].last_affected.copy(),
        };
        let ghost before = events.deep_view();
        events.push(e);
        i += 1;
        assert(events.deep_view() =~= before.push(e.deep_view()));
        assert(all.take(i as int) =~= all.take(i - 1).push(all[i - 1]));
    }
    assert(events.deep_view() =~= all);
    let range = Range { matchable: text::is_text(&r.kind, S::range_type()), events };
    parse_range::<S>(&range)
}

fn read_listed<S: Spec>(texts: &Option<Vec<String>>) -> (out: Vec<S::Item>)
    ensures
        out.deep_view() == listed_versions::<S>(texts.deep_view()),
{
    let mut read: Vec<S::Item> = Vec::new();
    assert(read.deep_view() =~= Seq::empty());
    if !S::use_versions() {
        return read;
    }
    match texts {
        None => read,
        Some(list) => {
            let ghost all = list.deep_view();
            let mut i: usize = 0;
            assert(all.take(0) =~= Seq::empty());
            while i < list.len()
                invariant
                    i <= list.len(),
                    all == list.deep_view(),
                    read.deep_view() == read_versions::<S>(all.take(i as int)),
                decreases list.len() - i,
            {
                proof {
                    assert(all.take(i + 1).drop_last() =~= all.take(i as int));
                }
                match S::parse_bound(list[i].as_str()) {
                    Some(v) => {
                        let ghost before = read.deep_view();
                        read.push(v);
                        assert(read.deep_view() =~= before.push(v.deep_view()));
                    },
                    None => {},
                }
                i += 1;
            }
            assert(all.take(i as int) =~= all);
            order::dedup_keys::<S>(order::sort::<S>(read))
        },
    }
}

/// What one record adds to the index, its severity given: one pair for each affected entry of
/// this ecosystem that names a package.
pub fn advisories_from_rated<S: Spec>(
    osv: &OsvRecord,
    rating: (Severity, Option<Score>),
) -> (out: Vec<(String, Advisory<S::Item>)>)
    ensures
        out.deep_view() == indexed_all::<S>(osv.deep_view(), rating, osv.deep_view().affected),
{
    let mut out: Vec<(String, Advisory<S::Item>)> = Vec::new();
    let ghost all = osv.affected.deep_view();
    let mut n: usize = 0;
    assert(all.take(0) =~= Seq::empty());
    assert(out.deep_view() =~= Seq::empty());
    while n < osv.affected.len()
        invariant
            n <= osv.affected.len(),
            all == osv.affected.deep_view(),
            out.deep_view() == indexed_all::<S>(osv.deep_view(), rating, all.take(n as int)),
        decreases osv.affected.len() - n,
    {
        proof {
            assert(all.take(n + 1).drop_last() =~= all.take(n as int));
        }
        let a = &osv.affected[n];
        if text::is_text(&a.package.ecosystem, S::ecosystem()) {
            match &a.package.name {
                Some(raw) => {
                    let name: String = S::normalize_name(raw.as_str());
                    let mut ranges: Vec<ParsedRange<S::Item>> = Vec::new();
                    let ghost want = Seq::new(
                        a.deep_view().ranges.len(),
                        |i: int| parsed_range::<S>(raw_range::<S>(a.deep_view().ranges[i])),
                    );
                    let mut i: usize = 0;
                    while i < a.ranges.len()
                        invariant
                            i <= a.ranges.len(),
                            want == Seq::new(
                                a.deep_view().ranges.len(),
                                |i: int| parsed_range::<S>(raw_range::<S>(a.deep_view().ranges[i])),
                            ),
                            ranges.deep_view() == want.take(i as int),
                        decreases a.ranges.len() - i,
                    {
                        let r = read_raw_range::<S>(&a.ranges[i]);
                        let ghost before = ranges.deep_view();
                        ranges.push(r);
                        i += 1;
                        assert(ranges.deep_view() =~= before.push(r.deep_view()));
                        assert(want.take(i as int) =~= want.take(i - 1).push(want[i - 1]));
                    }
                    assert(ranges.deep_view() =~= want);
                    let aliases: Vec<String> = match &osv.aliases {
                        Some(l) => l.copy(),
                        None => Vec::new(),
                    };
                    proof {
                        if osv.aliases is None {
                            assert(aliases.deep_view() =~= Seq::empty());
                        }
                    }
                    let advisory = Advisory {
                        id: osv.id.clone(),
                        aliases,
                        summary: osv.summary.copy(),
                        severity: rating.0,
                        cvss_score: rating.1,
                        ranges,
                        versions: read_listed::<S>(&a.versions),
                    };
                    let ghost before = out.deep_view();
                    let pair = (name, advisory);
                    out.push(pair);
                    assert(out.deep_view() =~= before.push(pair.deep_view()));
                },
                None => {},
            }
        }
        n += 1;
    }
    assert(all.take(n as int) =~= all);
    out
}

/// What one record adds to the index.
pub fn advisories_from<S: Spec>(osv: &OsvRecord) -> (out: Vec<(String, Advisory<S::Item>)>)
    ensures
        out.deep_view() == indexed_all::<S>(
            osv.deep_view(),
            severity_given(record_label(osv.deep_view()), record_scores(osv.deep_view())),
            osv.deep_view().affected,
        ),
{
    let rating = default_severity(osv);
    advisories_from_rated::<S>(osv, rating)
}

/// The advisories for one name, in the order in which they come.
pub open spec fn named<M>(pairs: Seq<(Seq<char>, M)>, name: Seq<char>) -> Seq<M>
    decreases pairs.len(),
{
    if pairs.len() == 0 {
        Seq::empty()
    } else {
        let front = named(pairs.drop_last(), name);
        if pairs.last().0 == name {
            front.push(pairs.last().1)
        } else {
            front
        }
    }
}

/// Whether a name occurs.
pub open spec fn is_named<M>(pairs: Seq<(Seq<char>, M)>, name: Seq<char>) -> bool {
    exists|i: int| 0 <= i < pairs.len() && (#[trigger] pairs[i]).0 == name
}

/// `index` takes each name that occurs to what comes under it.
pub open spec fn is_index<M>(
    index: Map<Seq<char>, Seq<M>>,
    pairs: Seq<(Seq<char>, M)>,
) -> bool {
    &&& forall|n: Seq<char>| #[trigger] index.dom().contains(n) == is_named(pairs, n)
    &&& forall|n: Seq<char>| #[trigger] index.dom().contains(n) ==> index[n] == named(pairs, n)
}

/// Folds the pairs of all records into the index by package.
pub fn merge<V: DeepView>(per_file: Vec<Vec<(String, Advisory<V>)>>) -> (r: TextMap<
    Vec<Advisory<V>>,
>)
    ensures
        is_index(r.deep_view(), per_file.deep_view().flatten()),
{
    let mut index: TextMap<Vec<Advisory<V>>> = TextMap::new();
    let ghost files = per_file.deep_view();
    let ghost mut done: Seq<(Seq<char>, AdvisoryM<V::V>)> = Seq::empty();
    let ghost mut n: int = 0;
    proof {
        assert(files.take(0) =~= Seq::empty());
        assert(files.take(0).flatten() =~= Seq::empty());
    }
    for record in it: per_file
        invariant
            it.seq() == per_file@,
            files == per_file.deep_view(),
            n == it.index(),
            n <= files.len(),
            done == files.take(n).flatten(),
            is_index(index.deep_view(), done),
    {
        let ghost these = record.deep_view();
        let ghost base = done;
        let ghost mut m: int = 0;
        proof {
            assert(these.take(0) =~= Seq::empty());
            assert(base + these.take(0) =~= base);
        }
        for pair in jt: record
            invariant
                jt.seq() == record@,
                these == record.deep_view(),
                m == jt.index(),
                m <= these.len(),
                done == base + these.take(m),
                is_index(index.deep_view(), done),
        {
            let ghost p = pair.deep_view();
            let (name, advisory) = pair;
            let ghost before = index.deep_view();
            let (rest, found) = index.take(name.as_str());
            let mut list: Vec<Advisory<V>> = match found {
                Some(l) => l,
                None => Vec::new(),
            };
            let ghost old_list = list.deep_view();
            list.push(advisory);
            proof {
                assert(list.deep_view() =~= old_list.push(p.1));
                if found is None {
                    assert(old_list =~= Seq::empty());
                    lemma_not_named(done, p.0);
                }
            }
            index = rest.insert(name, list);
            proof {
                let next = done.push(p);
                assert(next.drop_last() =~= done);
                assert(these[m] == p);
                assert(base + these.take(m + 1) =~= next);
                assert(index.deep_view() =~= before.insert(p.0, old_list.push(p.1)));
                assert forall|x: Seq<char>| #[trigger] index.deep_view().dom().contains(x)
                    == is_named(next, x) by {
                    if is_named(done, x) {
                        let i = choose|i: int|
                            0 <= i < done.len() && (#[trigger] done[i]).0 == x;
                        assert(next[i].0 == x);
                    }
                    if is_named(next, x) && x != p.0 {
                        let i = choose|i: int|
                            0 <= i < next.len() && (#[trigger] next[i]).0 == x;
                        assert(done[i].0 == x);
                    }
                    assert(next[next.len() - 1].0 == p.0);
                    assert(before.dom().contains(x) == is_named(done, x));
                }
                assert forall|x: Seq<char>| #[trigger]
                    index.deep_view().dom().contains(x) implies index.deep_view()[x] == named(
                    next,
                    x,
                ) by {
                    if x != p.0 {
                        assert(before.dom().contains(x));
                    } else {
                        if before.dom().contains(x) {
                            assert(before[x] == named(done, x));
                        }
                    }
                }
                done = next;
                m = m + 1;
            }
        }
        proof {
            assert(these.take(m) =~= these);
            assert(files.take(n + 1) =~= files.take(n).push(these));
            files.take(n).lemma_flatten_push(these);
            n = n + 1;
        }
    }
    assert(files.take(n) =~= files);
    index
}

proof fn lemma_not_named<M>(pairs: Seq<(Seq<char>, M)>, name: Seq<char>)
    requires
        !is_named(pairs, name),
    ensures
        named(pairs, name) == Seq::<M>::empty(),
    decreases pairs.len(),
{
    if pairs.len() > 0 {
        let l = pairs.drop_last();
        assert(pairs[pairs.len() - 1].0 != name);
        assert forall|i: int| 0 <= i < l.len() implies (#[trigger] l[i]).0 != name by {
            assert(l[i] == pairs[i]);
        }
        lemma_not_named(l, name);
    }
}

/// The offline advisory database: advisories by package name.
#[derive(Debug)]
pub struct OsvDb<V> {
    by_package: TextMap<Vec<Advisory<V>>>,
    none: Vec<Advisory<V>>,
}

/// The advisories of a database for a name.
pub open spec fn advisories_of<M>(db: Map<Seq<char>, Seq<M>>, name: Seq<char>) -> Seq<M> {
    if db.dom().contains(name) {
        db[name]
    } else {
        Seq::empty()
    }
}

impl<V: DeepView> DeepView for OsvDb<V> {
    type V = Map<Seq<char>, Seq<AdvisoryM<V::V>>>;

    closed spec fn deep_view(&self) -> Map<Seq<char>, Seq<AdvisoryM<V::V>>> {
        self.by_package.deep_view()
    }
}

impl<V> OsvDb<V> {
    #[verifier::type_invariant]
    spec fn none_is_empty(self) -> bool {
        self.none.len() == 0
    }
}

impl<V: DeepView> OsvDb<V> {
    /// The database of all records, given what each adds to the index.
    pub fn from_records(per_file: Vec<Vec<(String, Advisory<V>)>>) -> (r: OsvDb<V>)
        ensures
            is_index(r.deep_view(), per_file.deep_view().flatten()),
    {
        OsvDb { by_package: merge(per_file), none: Vec::new() }
    }

    /// The advisories indexed under a name that has been normalized.
    pub fn advisories_for(&self, key: &str) -> (r: &Vec<Advisory<V>>)
        ensures
            r.deep_view() == advisories_of(self.deep_view(), key@),
    {
        proof {
            use_type_invariant(self);
        }
        match self.by_package.get(key) {
            Some(l) => l,
            None => {
                assert(self.none.deep_view() =~= Seq::empty());
                &self.none
            },
        }
    }

    /// How many advisories are indexed, each package counting its own.
    pub fn len(&self) -> (r: usize)
        requires
            entry_count(self.deep_view(), sorted_names(self.deep_view())) <= usize::MAX,
        ensures
            r == entry_count(self.deep_view(), sorted_names(self.deep_view())),
    {
        let names: &Vec<String> = self.by_package.names();
        let ghost db = self.deep_view();
        let ghost all = names.deep_view();
        proof {
            lemma_sorted_names(db, all);
            assert(all.take(0) =~= Seq::empty());
        }
        let mut r: usize = 0;
        let mut i: usize = 0;
        while i < names.len()
            invariant
                i <= names.len(),
                db == self.deep_view(),
                all == names.deep_view(),
                forall|n: Seq<char>| #[trigger] db.dom().contains(n) == all.contains(n),
                entry_count(db, all) <= usize::MAX,
                r == entry_count(db, all.take(i as int)),
            decreases names.len() - i,
        {
            proof {
                assert(all.take(i + 1).drop_last() =~= all.take(i as int));
                assert(all.contains(all[i as int]));
                lemma_entry_count_grows(db, all, i + 1);
            }
            match self.by_package.get(names[i].as_str()) {
                Some(l) => {
                    assert(l.deep_view().len() == l.len());
                    r = r + l.len();
                },
                None => {},
            }
            i += 1;
        }
        assert(all.take(i as int) =~= all);
        r
    }

    /// Whether no advisory is indexed at all.
    pub fn is_empty(&self) -> (r: bool)
        ensures
            r == (self.deep_view() == Map::<Seq<char>, Seq<AdvisoryM<V::V>>>::empty()),
    {
        self.by_package.is_empty()
    }
}

impl<V: DeepView> Default for OsvDb<V> {
    /// The database without advisories.
    fn default() -> (r: OsvDb<V>)
        ensures
            r.deep_view() == Map::<Seq<char>, Seq<AdvisoryM<V::V>>>::empty(),
    {
        OsvDb { by_package: TextMap::new(), none: Vec::new() }
    }
}

/// The names of a map in order.
pub open spec fn sorted_names<M>(db: Map<Seq<char>, M>) -> Seq<Seq<char>> {
    choose|s: Seq<Seq<char>>|
        order::strictly_sorted::<ByText>(s) && forall|n: Seq<char>| #[trigger]
            db.dom().contains(n) == s.contains(n)
}

/// The names in order are the only such sequence.
pub proof fn lemma_sorted_names<M>(db: Map<Seq<char>, M>, s: Seq<Seq<char>>)
    requires
        order::strictly_sorted::<ByText>(s),
        forall|n: Seq<char>| #[trigger] db.dom().contains(n) == s.contains(n),
    ensures
        sorted_names(db) == s,
{
    let t = sorted_names(db);
    assert forall|x: Seq<char>| s.contains(x) == t.contains(x) by {
        assert(db.dom().contains(x) == s.contains(x));
        assert(db.dom().contains(x) == t.contains(x));
    }
    order::lemma_strict_unique::<value::ByText>(s, t);
}

/// How many items the map holds under the names.
pub open spec fn entry_count<M>(db: Map<Seq<char>, Seq<M>>, names: Seq<Seq<char>>) -> nat
    decreases names.len(),
{
    if names.len() == 0 {
        0
    } else {
        entry_count(db, names.drop_last()) + db[names.last()].len()
    }
}

proof fn lemma_entry_count_grows<M>(db: Map<Seq<char>, Seq<M>>, names: Seq<Seq<char>>, i: int)
    requires
        0 <= i <= names.len(),
    ensures
        entry_count(db, names.take(i)) <= entry_count(db, names),
    decreases names.len() - i,
{
    if i < names.len() {
        lemma_entry_count_grows(db, names, i + 1);
        assert(names.take(i + 1).drop_last() =~= names.take(i));
    } else {
        assert(names.take(i) =~= names);
    }
}

// --- Findings of a scan without a toolchain ---

/// What a scan of an ecosystem without its toolchain gives.
#[derive(Debug)]
pub struct TierCScan {
    /// The findings, in order and each once.
    pub findings: Vec<VulnFinding>,
    /// How many installed packages were skipped because their version could not be read.
    pub skipped_unparseable: u32,
}

#[verifier::ext_equal]
pub struct TierCScanM {
    pub findings: Seq<VulnFindingM>,
    pub skipped_unparseable: u32,
}

impl DeepView for TierCScan {
    type V = TierCScanM;

    open spec fn deep_view(&self) -> TierCScanM {
        TierCScanM {
            findings: self.findings.deep_view(),
            skipped_unparseable: self.skipped_unparseable,
        }
    }
}

pub open spec fn advisory_url_m(id: Seq<char>) -> Seq<char> {
    "https://osv.dev/vulnerability/"@ + id
}

/// Where an advisory can be read.
pub fn advisory_url(id: &str) -> (r: String)
    ensures
        r@ == advisory_url_m(id@),
{
    text::join("https://osv.dev/vulnerability/", id)
}

/// The package of the first occurrence, empty where that is not one in a repository.
pub open spec fn first_package(v: VulnFindingM) -> Seq<char> {
    if v.occurrences.len() == 0 {
        Seq::empty()
    } else {
        match v.occurrences[0] {
            OccurrenceM::InRepo { package, .. } => package,
            OccurrenceM::Toolchain { .. } => Seq::empty(),
        }
    }
}

/// The package of the first occurrence, empty where that is not one in a repository.
pub fn occ_package(v: &VulnFinding) -> (r: &str)
    ensures
        r@ == first_package(v.deep_view()),
{
    proof {
        reveal_strlit("");
        assert(""@ =~= Seq::empty());
    }
    if v.occurrences.len() == 0 {
        return "";
    }
    match &v.occurrences[0] {
        Occurrence::InRepo { package, .. } => package.as_str(),
        Occurrence::Toolchain { .. } => "",
    }
}

/// Findings by advisory, then by package.
pub struct ByAdvisoryAndPackage;

impl Order for ByAdvisoryAndPackage {
    type M = VulnFindingM;

    type Item = VulnFinding;

    open spec fn key(m: VulnFindingM) -> Seq<int> {
        text::text_key(m.advisory_id) + text::text_key(first_package(m))
    }

    fn rel(a: &VulnFinding, b: &VulnFinding) -> (r: Rel) {
        proof {
            text::lemma_text_key_apart(a.advisory_id@, b.advisory_id@);
            order::lemma_rel_pair(
                text::text_key(a.advisory_id@),
                text::text_key(b.advisory_id@),
                text::text_key(first_package(a.deep_view())),
                text::text_key(first_package(b.deep_view())),
            );
            order::lemma_lex_total(text::text_key(a.advisory_id@), text::text_key(b.advisory_id@));
        }
        match text::rel_text(a.advisory_id.as_str(), b.advisory_id.as_str()) {
            Rel::Equal => text::rel_text(occ_package(a), occ_package(b)),
            r => r,
        }
    }
}

/// Findings in order of advisory and package, the first for each such pair.
pub open spec fn ordered_findings(s: Seq<VulnFindingM>) -> Seq<VulnFindingM> {
    order::first_per_key::<ByAdvisoryAndPackage>(order::in_order::<ByAdvisoryAndPackage>(s))
}

/// Sorts findings by advisory and package and keeps the first for each such pair.
pub fn sort_dedup_findings(out: &mut Vec<VulnFinding>)
    ensures
        final(out).deep_view() == ordered_findings(old(out).deep_view()),
{
    let mut v: Vec<VulnFinding> = Vec::new();
    std::mem::swap(&mut v, out);
    let sorted = order::sort::<ByAdvisoryAndPackage>(v);
    *out = order::dedup_keys::<ByAdvisoryAndPackage>(sorted);
}

/// After sorting, no two findings have the same advisory and the same package, and every such
/// pair that was there still is.
pub proof fn ordered_findings_are_distinct(s: Seq<VulnFindingM>)
    ensures
        order::strictly_sorted::<ByAdvisoryAndPackage>(ordered_findings(s)),
        forall|i: int|
            0 <= i < s.len() ==> exists|j: int|
                0 <= j < ordered_findings(s).len() && (#[trigger] ordered_findings(s)[j]).advisory_id
                    == (#[trigger] s[i]).advisory_id && first_package(ordered_findings(s)[j])
                    == first_package(s[i]),
        forall|j: int|
            0 <= j < ordered_findings(s).len() ==> s.contains(#[trigger] ordered_findings(s)[j]),
{
    let t = order::in_order::<ByAdvisoryAndPackage>(s);
    let u = ordered_findings(s);
    order::lemma_in_order::<ByAdvisoryAndPackage>(s);
    order::lemma_first_per_key_strict::<ByAdvisoryAndPackage>(t);
    assert forall|i: int| 0 <= i < s.len() implies exists|j: int|
        0 <= j < u.len() && (#[trigger] u[j]).advisory_id == (#[trigger] s[i]).advisory_id
            && first_package(u[j]) == first_package(s[i]) by {
        order::lemma_in_order_contains::<ByAdvisoryAndPackage>(s, s[i]);
        assert(s.contains(s[i]));
        let h = choose|h: int| 0 <= h < t.len() && t[h] == s[i];
        assert(order::has_key::<ByAdvisoryAndPackage>(u, ByAdvisoryAndPackage::key(t[h])));
        let j = choose|j: int|
            0 <= j < u.len() && #[trigger] ByAdvisoryAndPackage::key(u[j])
                == ByAdvisoryAndPackage::key(t[h]);
        text::lemma_text_key_apart(u[j].advisory_id, s[i].advisory_id);
        text::lemma_text_key_apart(first_package(u[j]), first_package(s[i]));
        order::lemma_rel_pair(
            text::text_key(u[j].advisory_id),
            text::text_key(s[i].advisory_id),
            text::text_key(first_package(u[j])),
            text::text_key(first_package(s[i])),
        );
        assert(u[j].advisory_id == s[i].advisory_id);
    }
    assert forall|j: int| 0 <= j < u.len() implies s.contains(#[trigger] u[j]) by {
        order::lemma_in_order_contains::<ByAdvisoryAndPackage>(s, u[j]);
    }
}

/// What a feeder knows of one affected package.
pub struct TierCFinding<'a> {
    pub ecosystem: Ecosystem,
    pub advisory_id: String,
    pub aliases: Vec<String>,
    pub title: String,
    pub severity: Severity,
    pub cvss_score: Option<Score>,
    pub package: String,
    pub installed: Version,
    pub patched: Vec<VersionReq>,
    pub direct: bool,
    pub dependency_path: Vec<String>,
    pub repo: &'a RepoId,
    /// Why reachability is unknown.
    pub reach_reason: &'a str,
}

/// What a [`TierCFinding`] stands for.
#[verifier::ext_equal]
pub struct TierCFindingM {
    pub ecosystem: Ecosystem,
    pub advisory_id: Seq<char>,
    pub aliases: Seq<Seq<char>>,
    pub title: Seq<char>,
    pub severity: Severity,
    pub cvss_score: Option<Score>,
    pub package: Seq<char>,
    pub installed: VersionM,
    pub patched: Seq<Seq<ComparatorM>>,
    pub direct: bool,
    pub dependency_path: Seq<Seq<char>>,
    pub repo: Seq<char>,
    pub reach_reason: Seq<char>,
}

impl<'a> DeepView for TierCFinding<'a> {
    type V = TierCFindingM;

    open spec fn deep_view(&self) -> TierCFindingM {
        TierCFindingM {
            ecosystem: self.ecosystem,
            advisory_id: self.advisory_id@,
            aliases: self.aliases.deep_view(),
            title: self.title@,
            severity: self.severity,
            cvss_score: self.cvss_score,
            package: self.package@,
            installed: self.installed.deep_view(),
            patched: self.patched.deep_view(),
            direct: self.direct,
            dependency_path: self.dependency_path.deep_view(),
            repo: self.repo.deep_view(),
            reach_reason: self.reach_reason@,
        }
    }
}

/// The finding for one affected package: one occurrence, reachability unknown.
pub open spec fn tier_c_finding(f: TierCFindingM) -> VulnFindingM {
    VulnFindingM {
        advisory_id: f.advisory_id,
        aliases: f.aliases,
        ecosystem: f.ecosystem,
        title: f.title,
        severity: f.severity,
        cvss_score: f.cvss_score,
        url: Some(advisory_url_m(f.advisory_id)),
        occurrences: seq![
            OccurrenceM::InRepo {
                repo: f.repo,
                package: f.package,
                installed: f.installed,
                patched: f.patched,
                dependency_kind: if f.direct {
                    DependencyKind::Direct
                } else {
                    DependencyKind::Transitive
                },
                dependency_path: f.dependency_path,
                active: None,
                source: DepSourceM::CratesIo,
            },
        ],
        affected_functions: Seq::empty(),
        reachable: None,
        reachability: Some(finding::tier_c_unknown_m(f.reach_reason)),
        exploit: Exploitability { kev: false, epss: None },
    }
}

/// Whether a finding is what a version match gives: undecided, and at one place, in `repo`.
pub open spec fn is_version_match(
    f: VulnFindingM,
    ecosystem: Ecosystem,
    repo: Seq<char>,
) -> bool {
    &&& f.ecosystem == ecosystem
    &&& f.reachable is None
    &&& f.reachability matches Some(r) && r.verdict is Unknown
    &&& f.occurrences.len() == 1
    &&& f.occurrences[0] matches OccurrenceM::InRepo { repo: at, .. } && at == repo
}

pub open spec fn all_version_matches(
    s: Seq<VulnFindingM>,
    ecosystem: Ecosystem,
    repo: Seq<char>,
) -> bool {
    forall|i: int| 0 <= i < s.len() ==> is_version_match(#[trigger] s[i], ecosystem, repo)
}

/// Sorting and dropping repeats keeps what holds of every finding.
pub proof fn lemma_ordered_matches(s: Seq<VulnFindingM>, ecosystem: Ecosystem, repo: Seq<char>)
    requires
        all_version_matches(s, ecosystem, repo),
    ensures
        all_version_matches(ordered_findings(s), ecosystem, repo),
{
    ordered_findings_are_distinct(s);
    assert forall|j: int| 0 <= j < ordered_findings(s).len() implies is_version_match(
        #[trigger] ordered_findings(s)[j],
        ecosystem,
        repo,
    ) by {
        let i = choose|i: int| 0 <= i < s.len() && s[i] == ordered_findings(s)[j];
        assert(is_version_match(s[i], ecosystem, repo));
    }
}

impl<'a> TierCFinding<'a> {
    /// The finding. It names no functions, and its reachability is unknown: a version match
    /// never proves that code cannot run.
    pub fn build(self) -> (r: VulnFinding)
        ensures
            r.deep_view() == tier_c_finding(self.deep_view()),
            r.deep_view().reachability is Some,
            !(r.deep_view().reachability->0.verdict is NotReachable),
    {
        let url: String = advisory_url(self.advisory_id.as_str());
        let kind: DependencyKind = if self.direct {
            DependencyKind::Direct
        } else {
            DependencyKind::Transitive
        };
        let occurrence = Occurrence::InRepo {
            repo: self.repo.clone(),
            package: self.package,
            installed: self.installed,
            patched: self.patched,
            dependency_kind: kind,
            dependency_path: self.dependency_path,
            active: None,
            source: DepSource::CratesIo,
        };
        let mut occurrences: Vec<Occurrence> = Vec::new();
        occurrences.push(occurrence);
        let affected_functions: Vec<String> = Vec::new();
        proof {
            assert(occurrences.deep_view() =~= seq![occurrence.deep_view()]);
            assert(affected_functions.deep_view() =~= Seq::<Seq<char>>::empty());
        }
        VulnFinding {
            advisory_id: self.advisory_id,
            aliases: self.aliases,
            ecosystem: self.ecosystem,
            title: self.title,
            severity: self.severity,
            cvss_score: self.cvss_score,
            url: Some(url),
            occurrences,
            affected_functions,
            reachable: None,
            reachability: Some(Reachability::tier_c_unknown(self.reach_reason)),
            exploit: Exploitability { kev: false, epss: None },
        }
    }
}

/// Whether a bound of the event is at or before `v` and ends what was open: a `fixed` bound that
/// `v` has reached, or a `last_affected` bound that `v` is past.
pub open spec fn ends_before<S: Scheme>(e: ParsedEvent<S::M>, v: S::M) -> bool {
    (match e.fixed {
        Some(f) => S::key(f) == S::key(v) || lt::<S>(f, v),
        None => false,
    }) || (match e.last_affected {
        Some(l) => lt::<S>(l, v),
        None => false,
    })
}

/// Whether an `introduced` bound of the event lets `v` in: one that `v` has reached, or one that
/// cannot be read.
pub open spec fn lets_in<S: Scheme>(e: ParsedEvent<S::M>, v: S::M) -> bool {
    match e.introduced {
        Some(b) => match b {
            ParsedBound::Version(x) => S::reached(v, x),
            ParsedBound::Unparseable => true,
        },
        None => false,
    }
}

proof fn lemma_event<S: Scheme>(e: ParsedEvent<S::M>, v: S::M)
    ensures
        closes::<S>(e, v) == ends_before::<S>(e, v),
        opens::<S>(e, v) == lets_in::<S>(e, v),
{
    if let Some(f) = e.fixed {
        order::lemma_lex_total(S::key(f), S::key(v));
    }
}

/// The last event of a range that says anything of a version decides: the range covers it unless
/// that event ends what was open. Where none says anything the range covers it exactly where it
/// has no `introduced` bound at all.
pub proof fn the_last_event_decides<S: Scheme>(v: S::M, range: ParsedRangeM<S::M>, i: int)
    requires
        range.matchable,
        -1 <= i < range.events.len(),
        i >= 0 ==> ends_before::<S>(range.events[i], v) || lets_in::<S>(range.events[i], v),
        forall|k: int|
            i < k < range.events.len() ==> !ends_before::<S>(#[trigger] range.events[k], v)
                && !lets_in::<S>(range.events[k], v),
    ensures
        i >= 0 ==> covers::<S>(v, range) == !ends_before::<S>(range.events[i], v),
        i == -1 ==> (covers::<S>(v, range) <==> forall|k: int|
            0 <= k < range.events.len() ==> (#[trigger] range.events[k]).introduced is None),
{
    lemma_last_event::<S>(v, from_start(range.events), range.events, i);
}

proof fn lemma_last_event<S: Scheme>(
    v: S::M,
    start: bool,
    events: Seq<ParsedEvent<S::M>>,
    i: int,
)
    requires
        -1 <= i < events.len(),
        i >= 0 ==> ends_before::<S>(events[i], v) || lets_in::<S>(events[i], v),
        forall|k: int|
            i < k < events.len() ==> !ends_before::<S>(#[trigger] events[k], v) && !lets_in::<S>(
                events[k],
                v,
            ),
    ensures
        open_by::<S>(v, start, events, reached_by::<S>(v)) == (if i < 0 {
            start
        } else {
            !ends_before::<S>(events[i], v)
        }),
    decreases events.len(),
{
    if events.len() > 0 {
        lemma_event::<S>(events.last(), v);
        assert(opens_by(events.last(), reached_by::<S>(v)) == opens::<S>(events.last(), v));
        if i < events.len() - 1 {
            assert(!ends_before::<S>(events[events.len() - 1], v));
            let l = events.drop_last();
            assert forall|k: int| i < k < l.len() implies !ends_before::<S>(#[trigger] l[k], v)
                && !lets_in::<S>(l[k], v) by {
                assert(l[k] == events[k]);
            }
            if i >= 0 {
                assert(l[i] == events[i]);
            }
            lemma_last_event::<S>(v, start, l, i);
        }
    }
}

/// A range that is introduced at one version and fixed at another covers what is at or after the
/// first and before the second, and its fix is the second.
pub proof fn fixed_is_not_affected<S: Scheme>(v: S::M, from: S::M, fix: S::M)
    ensures
        ({
            let events = seq![
                ParsedEvent {
                    introduced: Some(ParsedBound::Version(from)),
                    fixed: None,
                    last_affected: None,
                },
                ParsedEvent { introduced: None, fixed: Some(fix), last_affected: None },
            ];
            let ranges = seq![ParsedRangeM { matchable: true, events }];
            if S::reached(v, from) && lt::<S>(v, fix) {
                match_of::<S>(v, ranges) == Match::Affected { fixed: Some(fix) }
            } else {
                match_of::<S>(v, ranges) == Match::<S::M>::NotAffected
            }
        }),
{
    let events = seq![
        ParsedEvent {
            introduced: Some(ParsedBound::Version(from)),
            fixed: None::<S::M>,
            last_affected: None::<S::M>,
        },
        ParsedEvent { introduced: None, fixed: Some(fix), last_affected: None },
    ];
    let ranges = seq![ParsedRangeM { matchable: true, events }];
    reveal_with_fuel(open_by, 3);
    reveal_with_fuel(match_by, 3);
    reveal_with_fuel(smallest_fix, 3);
    assert(events.drop_last() =~= seq![events[0]]);
    assert(events.drop_last().drop_last() =~= Seq::empty());
    assert(events[0].introduced is Some);
    assert(ranges.drop_first() =~= Seq::empty());
}

/// A range that is introduced at one version and last affected at another covers what is at or
/// after the first and not after the second, and it names no fix.
pub proof fn last_affected_is_affected<S: Scheme>(v: S::M, from: S::M, last: S::M)
    ensures
        ({
            let events = seq![
                ParsedEvent {
                    introduced: Some(ParsedBound::Version(from)),
                    fixed: None,
                    last_affected: None,
                },
                ParsedEvent { introduced: None, fixed: None, last_affected: Some(last) },
            ];
            let ranges = seq![ParsedRangeM { matchable: true, events }];
            if S::reached(v, from) && !lt::<S>(last, v) {
                match_of::<S>(v, ranges) == Match::Affected { fixed: None::<S::M> }
            } else {
                match_of::<S>(v, ranges) == Match::<S::M>::NotAffected
            }
        }),
{
    let events = seq![
        ParsedEvent {
            introduced: Some(ParsedBound::Version(from)),
            fixed: None::<S::M>,
            last_affected: None::<S::M>,
        },
        ParsedEvent { introduced: None, fixed: None, last_affected: Some(last) },
    ];
    let ranges = seq![ParsedRangeM { matchable: true, events }];
    reveal_with_fuel(open_by, 3);
    reveal_with_fuel(match_by, 3);
    reveal_with_fuel(smallest_fix, 3);
    assert(events.drop_last() =~= seq![events[0]]);
    assert(events.drop_last().drop_last() =~= Seq::empty());
    assert(events[0].introduced is Some);
    assert(ranges.drop_first() =~= Seq::empty());
}

/// The first range that covers a version decides what fixes it.
pub proof fn the_first_range_decides<S: Scheme>(
    v: S::M,
    ranges: Seq<ParsedRangeM<S::M>>,
    i: int,
)
    requires
        0 <= i < ranges.len(),
        covers::<S>(v, ranges[i]),
        forall|k: int| 0 <= k < i ==> !covers::<S>(v, #[trigger] ranges[k]),
    ensures
        match_of::<S>(v, ranges) == (Match::Affected {
            fixed: smallest_fix::<S>(v, ranges[i].events),
        }),
    decreases ranges.len(),
{
    if i > 0 {
        assert(!covers::<S>(v, ranges[0]));
        let rest = ranges.drop_first();
        assert forall|k: int| 0 <= k < i - 1 implies !covers::<S>(v, #[trigger] rest[k]) by {
            assert(rest[k] == ranges[k + 1]);
        }
        assert(rest[i - 1] == ranges[i]);
        the_first_range_decides::<S>(v, rest, i - 1);
    }
}

/// A fix that a match names is above the version, and is a `fixed` bound of a range that covers
/// it.
pub proof fn a_named_fix_is_above<S: Scheme>(v: S::M, ranges: Seq<ParsedRangeM<S::M>>)
    ensures
        match_of::<S>(v, ranges) matches Match::Affected { fixed: Some(f) } ==> lt::<S>(v, f)
            && exists|i: int, k: int|
            0 <= i < ranges.len() && covers::<S>(v, ranges[i]) && 0 <= k < ranges[i].events.len()
                && (#[trigger] ranges[i].events[k]).fixed == Some(f),
    decreases ranges.len(),
{
    if ranges.len() > 0 {
        fix_is_smallest::<S>(v, ranges[0].events);
        let rest = ranges.drop_first();
        a_named_fix_is_above::<S>(v, rest);
        if let Match::Affected { fixed: Some(f) } = match_of::<S>(v, ranges) {
            if covers::<S>(v, ranges[0]) {
                let k = choose|k: int|
                    0 <= k < ranges[0].events.len() && (#[trigger] ranges[0].events[k]).fixed
                        == Some(f);
                assert(ranges[0].events[k].fixed == Some(f));
            } else {
                let (i, k) = choose|i: int, k: int|
                    0 <= i < rest.len() && covers::<S>(v, rest[i]) && 0 <= k < rest[i].events.len()
                        && (#[trigger] rest[i].events[k]).fixed == Some(f);
                assert(rest[i] == ranges[i + 1]);
                assert(ranges[i + 1].events[k].fixed == Some(f));
            }
        }
    }
}

/// The best score is one of those that there are, and none is higher; there is none exactly
/// where no vector has one.
pub proof fn the_best_score_is_the_highest(scores: Seq<Option<(CvssBand, Score)>>)
    ensures
        best_score(scores) is None <==> forall|i: int|
            0 <= i < scores.len() ==> (#[trigger] scores[i]) is None,
        best_score(scores) is Some ==> exists|i: int|
            0 <= i < scores.len() && #[trigger] scores[i] == best_score(scores),
        forall|i: int|
            0 <= i < scores.len() && (#[trigger] scores[i]) is Some ==> {
                let (_, a) = scores[i]->0;
                let (_, b) = best_score(scores)->0;
                score::total_level(a) <= score::total_level(b)
            },
    decreases scores.len(),
{
    if scores.len() > 0 {
        let l = scores.drop_last();
        let n = l.len() as int;
        the_best_score_is_the_highest(l);
        assert(scores[n] == scores.last());
        assert forall|i: int| 0 <= i < n implies #[trigger] scores[i] == l[i] by {}
        if best_score(scores) is Some {
            if best_score(scores) == scores.last() {
                assert(scores[n] == best_score(scores));
            } else {
                let i = choose|i: int| 0 <= i < l.len() && #[trigger] l[i] == best_score(l);
                assert(scores[i] == best_score(scores));
            }
        } else {
            assert forall|i: int| 0 <= i < scores.len() implies (#[trigger] scores[i]) is None by {
                if i < n {
                    assert(l[i] is None);
                }
            }
        }
        if forall|i: int| 0 <= i < scores.len() ==> (#[trigger] scores[i]) is None {
            assert forall|i: int| 0 <= i < l.len() implies (#[trigger] l[i]) is None by {
                assert(scores[i] is None);
            }
            assert(scores[n] is None);
        }
    }
}

/// A label that names a band decides the severity, in any case of letters; else the band of the
/// best score does, where there is one. The score is that of the best vector either way.
pub proof fn a_label_wins(label: Option<Seq<char>>, scores: Seq<Option<(CvssBand, Score)>>)
    ensures
        ({
            let (severity, value) = severity_given(label, scores);
            let named = match label {
                Some(l) => text::ascii_upper(l),
                None => Seq::empty(),
            };
            &&& named == "CRITICAL"@ ==> severity == Severity::Critical
            &&& named == "HIGH"@ ==> severity == Severity::High
            &&& named == "MEDIUM"@ || named == "MODERATE"@ ==> severity == Severity::Medium
            &&& named == "LOW"@ ==> severity == Severity::Low
            &&& named != "CRITICAL"@ && named != "HIGH"@ && named != "MEDIUM"@ && named
                != "MODERATE"@ && named != "LOW"@ ==> severity == (match best_score(scores) {
                None => Severity::Unknown,
                Some((CvssBand::Zero, _)) => Severity::Unknown,
                Some((CvssBand::Low, _)) => Severity::Low,
                Some((CvssBand::Medium, _)) => Severity::Medium,
                Some((CvssBand::High, _)) => Severity::High,
                Some((CvssBand::Critical, _)) => Severity::Critical,
            })
            &&& value is Some <==> best_score(scores) is Some
            &&& best_score(scores) matches Some((_, b)) ==> value == Some(b)
        }),
{
    reveal_strlit("LOW");
    reveal_strlit("MODERATE");
    reveal_strlit("MEDIUM");
    reveal_strlit("HIGH");
    reveal_strlit("CRITICAL");
    assert("LOW"@.len() == 3 && "HIGH"@.len() == 4 && "MEDIUM"@.len() == 6 && "MODERATE"@.len() == 8
        && "CRITICAL"@.len() == 8);
    assert("MODERATE"@[0] == 'M' && "CRITICAL"@[0] == 'C');
    let none = Seq::<char>::empty();
    assert(none.len() == 0);
}

/// An entry is indexed exactly where it is about the ecosystem and names a package, under the
/// name as the ecosystem normalizes it. The index holds the id and the aliases of the record,
/// its severity and score, and of the ranges only those of the ecosystem's kind can match.
pub proof fn an_entry_is_indexed_by_its_name<S: Spec>(
    osv: OsvRecordM,
    rating: (Severity, Option<Score>),
    a: AffectedM,
)
    ensures
        indexed::<S>(osv, rating, a) is Some <==> a.package.ecosystem == Some(S::ecosystem_name())
            && a.package.name is Some,
        indexed::<S>(osv, rating, a) matches Some((name, adv)) ==> {
            let (severity, value) = rating;
            &&& name == S::normalized(a.package.name->0)
            &&& adv.id == osv.id
            &&& osv.aliases matches Some(l) ==> adv.aliases == l
            &&& osv.aliases is None ==> adv.aliases.len() == 0
            &&& adv.summary == osv.summary
            &&& adv.severity == severity
            &&& adv.cvss_score == value
            &&& adv.ranges.len() == a.ranges.len()
            &&& forall|i: int|
                0 <= i < a.ranges.len() ==> (#[trigger] adv.ranges[i]).matchable == (a.ranges[i].kind
                    == Some(S::range_kind())) && adv.ranges[i].events.len()
                    == a.ranges[i].events.len()
            &&& forall|i: int, k: int|
                0 <= i < a.ranges.len() && 0 <= k < a.ranges[i].events.len() ==> {
                    let raw = a.ranges[i].events[k];
                    let e = #[trigger] adv.ranges[i].events[k];
                    &&& raw.fixed is None ==> e.fixed is None
                    &&& raw.fixed matches Some(t) ==> e.fixed == S::bound(t)
                    &&& raw.last_affected is None ==> e.last_affected is None
                    &&& raw.last_affected matches Some(t) ==> e.last_affected == S::bound(t)
                    &&& raw.introduced is None ==> e.introduced is None
                    &&& raw.introduced matches Some(t) ==> e.introduced == Some(
                        match S::bound(t) {
                            Some(v) => ParsedBound::Version(v),
                            None => ParsedBound::Unparseable,
                        },
                    )
                }
        },
{
}

/// What a record adds to the index is what each of its entries does, in order, and nothing else.
pub proof fn every_entry_is_indexed<S: Spec>(
    osv: OsvRecordM,
    rating: (Severity, Option<Score>),
    affected: Seq<AffectedM>,
)
    ensures
        indexed_all::<S>(osv, rating, affected) == affected.filter(
            |a: AffectedM| indexed::<S>(osv, rating, a) is Some,
        ).map_values(|a: AffectedM| indexed::<S>(osv, rating, a)->0),
    decreases affected.len(),
{
    reveal(Seq::filter);
    let p = |a: AffectedM| indexed::<S>(osv, rating, a) is Some;
    let f = |a: AffectedM| indexed::<S>(osv, rating, a)->0;
    if affected.len() > 0 {
        let l = affected.drop_last();
        every_entry_is_indexed::<S>(osv, rating, l);
        if p(affected.last()) {
            assert(affected.filter(p).map_values(f) =~= l.filter(p).map_values(f).push(
                f(affected.last()),
            ));
        }
    } else {
        assert(affected.filter(p).map_values(f) =~= Seq::empty());
    }
}

/// The index gives, under a name, everything that comes under it and nothing else, in order.
pub proof fn an_index_keeps_what_comes_under_a_name<M>(
    index: Map<Seq<char>, Seq<M>>,
    pairs: Seq<(Seq<char>, M)>,
    name: Seq<char>,
)
    requires
        is_index(index, pairs),
    ensures
        advisories_of(index, name) == pairs.filter(|p: (Seq<char>, M)| p.0 == name).map_values(
            |p: (Seq<char>, M)| p.1,
        ),
{
    lemma_named(pairs, name);
    if !index.dom().contains(name) {
        assert(!is_named(pairs, name));
        let p = |p: (Seq<char>, M)| p.0 == name;
        if pairs.filter(p).len() > 0 {
            let x = pairs.filter(p)[0];
            pairs.lemma_filter_pred(p, 0);
            assert(pairs.filter(p).contains(x));
            pairs.lemma_filter_contains_rev(p, x);
            let k = choose|k: int| 0 <= k < pairs.len() && pairs[k] == x;
            assert(pairs[k].0 == name);
        }
        assert(pairs.filter(p).map_values(|p: (Seq<char>, M)| p.1) =~= Seq::empty());
    }
}

proof fn lemma_named<M>(pairs: Seq<(Seq<char>, M)>, name: Seq<char>)
    ensures
        named(pairs, name) == pairs.filter(|p: (Seq<char>, M)| p.0 == name).map_values(
            |p: (Seq<char>, M)| p.1,
        ),
    decreases pairs.len(),
{
    reveal(Seq::filter);
    let p = |p: (Seq<char>, M)| p.0 == name;
    let f = |p: (Seq<char>, M)| p.1;
    if pairs.len() > 0 {
        let l = pairs.drop_last();
        lemma_named(l, name);
        if p(pairs.last()) {
            assert(pairs.filter(p).map_values(f) =~= l.filter(p).map_values(f).push(
                f(pairs.last()),
            ));
        }
    } else {
        assert(pairs.filter(p).map_values(f) =~= Seq::empty());
    }
}

/// Only a readable vector of the third version counts toward the score, in single precision.
pub proof fn only_the_third_version_counts(e: SeverityEntryM)
    ensures
        vector_score(e) is Some <==> e.kind == Some("CVSS_V3"@) && e.score is Some && cvss_v3(
            e.score->0,
        ) is Some,
        vector_score(e) matches Some((band, value)) ==> cvss_v3(e.score->0) matches Some((b, v))
            && band == b && value == score::narrowed(v),
{
}

/// The listed versions are those of the texts that can be read, in order; the others are passed
/// over.
pub proof fn unreadable_versions_are_passed_over<S: Scheme>(texts: Seq<Seq<char>>)
    ensures
        read_versions::<S>(texts) == texts.filter(|t: Seq<char>| S::bound(t) is Some).map_values(
            |t: Seq<char>| S::bound(t)->0,
        ),
    decreases texts.len(),
{
    reveal(Seq::filter);
    let p = |t: Seq<char>| S::bound(t) is Some;
    let f = |t: Seq<char>| S::bound(t)->0;
    if texts.len() > 0 {
        let rest = texts.drop_last();
        unreadable_versions_are_passed_over::<S>(rest);
        if p(texts.last()) {
            assert(texts.filter(p).map_values(f) =~= rest.filter(p).map_values(f).push(
                f(texts.last()),
            ));
        }
    } else {
        assert(texts.filter(p).map_values(f) =~= Seq::empty());
    }
}

} // verus!
