//! Values that can be copied and compared by what they stand for.
use vstd::prelude::*;
use crate::order;
use crate::order::{Order, Rel};
use crate::text;
use crate::version::{Version, VersionReq};

verus! {

/// A value that can be copied and compared by what it stands for.
pub trait Plain: DeepView + Sized {
    fn copy(&self) -> (r: Self)
        ensures
            r.deep_view() == self.deep_view(),
    ;

    fn same(&self, other: &Self) -> (r: bool)
        ensures
            r == (self.deep_view() == other.deep_view()),
    ;
}

impl Plain for String {
    fn copy(&self) -> (r: String) {
        self.clone()
    }

    fn same(&self, other: &String) -> (r: bool) {
        *self == *other
    }
}

impl Plain for bool {
    fn copy(&self) -> (r: bool) {
        *self
    }

    fn same(&self, other: &bool) -> (r: bool) {
        *self == *other
    }
}

impl Plain for Version {
    fn copy(&self) -> (r: Version) {
        self.clone()
    }

    fn same(&self, other: &Version) -> (r: bool) {
        match self.rel(other) {
            Rel::Equal => true,
            _ => false,
        }
    }
}

impl Plain for VersionReq {
    fn copy(&self) -> (r: VersionReq) {
        self.clone()
    }

    fn same(&self, other: &VersionReq) -> (r: bool) {
        VersionReq::same(self, other)
    }
}

impl<T: Plain> Plain for Option<T> {
    fn copy(&self) -> (r: Option<T>) {
        match self {
            Some(x) => Some(x.copy()),
            None => None,
        }
    }

    fn same(&self, other: &Option<T>) -> (r: bool) {
        match self {
            Some(x) => match other {
                Some(y) => x.same(y),
                None => false,
            },
            None => match other {
                Some(_) => false,
                None => true,
            },
        }
    }
}

impl<T: Plain> Plain for Vec<T> {
    fn copy(&self) -> (r: Vec<T>) {
        let mut r: Vec<T> = Vec::new();
        let mut i: usize = 0;
        while i < self.len()
            invariant
                i <= self.len(),
                r.deep_view() == self.deep_view().take(i as int),
            decreases self.len() - i,
        {
            let x = self[i].copy();
            let ghost before = r.deep_view();
            r.push(x);
            i += 1;
            assert(r.deep_view() =~= before.push(x.deep_view()));
            assert(self.deep_view().take(i as int) =~= self.deep_view().take(i - 1).push(
                self.deep_view()[i - 1],
            ));
        }
        assert(r.deep_view() =~= self.deep_view());
        r
    }

    fn same(&self, other: &Vec<T>) -> (r: bool) {
        if self.len() != other.len() {
            assert(self.deep_view().len() != other.deep_view().len());
            return false;
        }
        let mut i: usize = 0;
        while i < self.len()
            invariant
                self.len() == other.len(),
                i <= self.len(),
                forall|j: int| 0 <= j < i ==> self.deep_view()[j] == other.deep_view()[j],
            decreases self.len() - i,
        {
            if !self[i].same(&other[i]) {
                assert(self.deep_view()[i as int] != other.deep_view()[i as int]);
                return false;
            }
            i += 1;
        }
        assert(self.deep_view() =~= other.deep_view());
        true
    }
}

/// Whether `x` stands in `v`.
pub fn holds<T: Plain>(v: &Vec<T>, x: &T) -> (r: bool)
    ensures
        r == v.deep_view().contains(x.deep_view()),
{
    let mut i: usize = 0;
    while i < v.len()
        invariant
            i <= v.len(),
            forall|j: int| 0 <= j < i ==> v.deep_view()[j] != x.deep_view(),
        decreases v.len() - i,
    {
        if v[i].same(x) {
            assert(v.deep_view()[i as int] == x.deep_view());
            return true;
        }
        i += 1;
    }
    false
}

/// Whether `x` stands in `v`, for texts.
pub fn holds_text(v: &Vec<String>, x: &str) -> (r: bool)
    ensures
        r == v.deep_view().contains(x@),
{
    let mut i: usize = 0;
    while i < v.len()
        invariant
            i <= v.len(),
            forall|j: int| 0 <= j < i ==> v.deep_view()[j] != x@,
        decreases v.len() - i,
    {
        if text::same(v[i].as_str(), x) {
            assert(v.deep_view()[i as int] == x@);
            return true;
        }
        i += 1;
    }
    false
}

/// Drops the items that repeat the item before them.
pub fn dedup<T: Plain>(v: Vec<T>) -> (out: Vec<T>)
    ensures
        out.deep_view() == order::without_repeats(v.deep_view()),
{
    let ghost all = v.deep_view();
    let mut out: Vec<T> = Vec::new();
    let ghost mut n: int = 0;
    proof {
        assert(out.deep_view() =~= order::without_repeats(all.take(0)));
    }
    for x in it: v
        invariant
            it.seq() == v@,
            all == v.deep_view(),
            n == it.index(),
            n <= all.len(),
            out.deep_view() == order::without_repeats(all.take(n)),
    {
        let ghost before = out.deep_view();
        let mut repeat: bool = false;
        proof {
            order::lemma_without_repeats(all.take(n));
            assert(all.take(n + 1).drop_last() =~= all.take(n));
            assert(all[n] == x.deep_view());
            assert(out.deep_view().len() == out.len());
        }
        if out.len() > 0 {
            repeat = out[out.len() - 1].same(&x);
            assert(out.deep_view().last() == out[out.len() - 1].deep_view());
        }
        proof {
            if n > 0 {
                assert(all.take(n).last() == all.take(n + 1)[n - 1]);
            }
        }
        if !repeat {
            out.push(x);
            assert(out.deep_view() =~= before.push(x.deep_view()));
        }
        proof {
            n = n + 1;
        }
    }
    assert(all.take(n) =~= all);
    out
}

/// Keeps each item once, where it stands first.
pub fn distinct<T: Plain>(v: Vec<T>) -> (out: Vec<T>)
    ensures
        out.deep_view() == order::distinct(v.deep_view()),
{
    let ghost all = v.deep_view();
    let mut out: Vec<T> = Vec::new();
    let ghost mut n: int = 0;
    assert(out.deep_view() =~= order::distinct(all.take(0)));
    for x in it: v
        invariant
            it.seq() == v@,
            all == v.deep_view(),
            n == it.index(),
            n <= all.len(),
            out.deep_view() == order::distinct(all.take(n)),
    {
        let ghost before = out.deep_view();
        proof {
            assert(all.take(n + 1).drop_last() =~= all.take(n));
            assert(all[n] == x.deep_view());
        }
        if !holds(&out, &x) {
            out.push(x);
            assert(out.deep_view() =~= before.push(x.deep_view()));
        }
        proof {
            n = n + 1;
        }
    }
    assert(all.take(n) =~= all);
    out
}

/// Puts the items of `more` behind those of `v`.
pub fn append<T: DeepView>(v: &mut Vec<T>, more: Vec<T>)
    ensures
        final(v)@ == old(v)@ + more@,
        final(v).deep_view() == old(v).deep_view() + more.deep_view(),
{
    let ghost before = v@;
    let mut more = more;
    let ghost added = more@;
    v.append(&mut more);
    proof {
        assert(v@ =~= before + added);
        assert(v.deep_view() =~= old(v).deep_view() + Seq::new(
            added.len(),
            |i: int| added[i].deep_view(),
        ));
    }
}

/// Texts by the order of their characters.
pub struct ByText;

impl Order for ByText {
    type M = Seq<char>;

    type Item = String;

    open spec fn key(m: Seq<char>) -> Seq<int> {
        text::text_key(m)
    }

    fn rel(a: &String, b: &String) -> (r: Rel) {
        text::rel_text(a.as_str(), b.as_str())
    }
}

/// The texts of `s` in order, each once.
pub open spec fn text_set(s: Seq<Seq<char>>) -> Seq<Seq<char>> {
    order::without_repeats(order::in_order::<ByText>(s))
}

/// Sorts texts and drops repeats.
pub fn sort_texts(v: Vec<String>) -> (out: Vec<String>)
    ensures
        out.deep_view() == text_set(v.deep_view()),
{
    dedup(order::sort::<ByText>(v))
}

/// The set of texts holds the same texts, strictly in order.
pub proof fn lemma_text_set(s: Seq<Seq<char>>)
    ensures
        order::strictly_sorted::<ByText>(text_set(s)),
        text_set(s).no_duplicates(),
        forall|x: Seq<char>| #[trigger] text_set(s).contains(x) == s.contains(x),
        text_set(s).len() <= s.len(),
{
    let t = order::in_order::<ByText>(s);
    order::lemma_in_order::<ByText>(s);
    assert forall|i: int, j: int|
        0 <= i < t.len() && 0 <= j < t.len() && #[trigger] ByText::key(t[i]) == #[trigger] ByText::key(
            t[j],
        ) implies t[i] == t[j] by {
        text::lemma_text_key_apart(t[i], t[j]);
    }
    order::lemma_set_strict::<ByText>(t);
    order::lemma_without_repeats(t);
    let u = text_set(s);
    assert forall|i: int, j: int| 0 <= i < u.len() && 0 <= j < u.len() && i != j implies u[i]
        != u[j] by {
        if i < j {
            order::lemma_lex_total(ByText::key(u[i]), ByText::key(u[j]));
        } else {
            order::lemma_lex_total(ByText::key(u[j]), ByText::key(u[i]));
        }
    }
    assert forall|x: Seq<char>| #[trigger] text_set(s).contains(x) == s.contains(x) by {
        order::lemma_in_order_contains::<ByText>(s, x);
    }
}

/// The set of texts does not depend on their order or on how often each occurs.
pub proof fn lemma_text_set_of_same(s: Seq<Seq<char>>, t: Seq<Seq<char>>)
    requires
        forall|x: Seq<char>| s.contains(x) == t.contains(x),
    ensures
        text_set(s) == text_set(t),
{
    lemma_text_set(s);
    lemma_text_set(t);
    assert forall|x: Seq<char>| text_set(s).contains(x) == text_set(t).contains(x) by {
        assert(s.contains(x) == t.contains(x));
    }
    order::lemma_strict_unique::<ByText>(text_set(s), text_set(t));
}

} // verus!
