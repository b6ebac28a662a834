//! Total orders given by integer keys, and stable sorting.
//!
//! Every order of the library is the lexicographic order of a key: a sequence of
//! integers. Totality and transitivity are then proved once, here.
use vstd::prelude::*;

verus! {

/// How one value stands to another in an order.
#[derive(Debug, Clone, Copy, PartialEq, Eq, Structural)]
pub enum Rel {
    Less,
    Equal,
    Greater,
}

/// Lexicographic order on integer sequences: the first difference decides, and a
/// proper prefix comes first.
pub open spec fn lex_lt(a: Seq<int>, b: Seq<int>) -> bool
    decreases a.len(),
{
    if b.len() == 0 {
        false
    } else if a.len() == 0 {
        true
    } else if a[0] != b[0] {
        a[0] < b[0]
    } else {
        lex_lt(a.drop_first(), b.drop_first())
    }
}

pub open spec fn lex_le(a: Seq<int>, b: Seq<int>) -> bool {
    a == b || lex_lt(a, b)
}

pub open spec fn rel_of(a: Seq<int>, b: Seq<int>) -> Rel {
    if lex_lt(a, b) {
        Rel::Less
    } else if a == b {
        Rel::Equal
    } else {
        Rel::Greater
    }
}

/// Nothing comes before itself.
pub proof fn lemma_lex_irreflexive(a: Seq<int>)
    ensures
        !lex_lt(a, a),
    decreases a.len(),
{
    if a.len() > 0 {
        lemma_lex_irreflexive(a.drop_first());
    }
}

/// Of two different sequences exactly one comes first.
pub proof fn lemma_lex_total(a: Seq<int>, b: Seq<int>)
    ensures
        lex_lt(a, b) || a == b || lex_lt(b, a),
        !(lex_lt(a, b) && lex_lt(b, a)),
        lex_lt(a, b) ==> a != b,
    decreases a.len(),
{
    if a.len() > 0 && b.len() > 0 && a[0] == b[0] {
        lemma_lex_total(a.drop_first(), b.drop_first());
        if a.drop_first() == b.drop_first() {
            assert(a =~= seq![a[0]] + a.drop_first());
            assert(b =~= seq![b[0]] + b.drop_first());
        }
    } else if a.len() == 0 && b.len() == 0 {
        assert(a =~= b);
    }
}

pub proof fn lemma_lex_transitive(a: Seq<int>, b: Seq<int>, c: Seq<int>)
    requires
        lex_lt(a, b),
        lex_lt(b, c),
    ensures
        lex_lt(a, c),
    decreases a.len(),
{
    if a.len() > 0 && b.len() > 0 && c.len() > 0 && a[0] == b[0] && b[0] == c[0] {
        lemma_lex_transitive(a.drop_first(), b.drop_first(), c.drop_first());
    }
}

pub proof fn lemma_lex_le_transitive(a: Seq<int>, b: Seq<int>, c: Seq<int>)
    requires
        lex_le(a, b),
        lex_le(b, c),
    ensures
        lex_le(a, c),
        lex_lt(a, b) ==> lex_lt(a, c),
        lex_lt(b, c) ==> lex_lt(a, c),
{
    if lex_lt(a, b) && lex_lt(b, c) {
        lemma_lex_transitive(a, b, c);
    }
}

/// A common front does not matter.
pub proof fn lemma_lex_common(p: Seq<int>, a: Seq<int>, b: Seq<int>)
    ensures
        lex_lt(p + a, p + b) == lex_lt(a, b),
    decreases p.len(),
{
    if p.len() == 0 {
        assert(p + a =~= a);
        assert(p + b =~= b);
    } else {
        assert((p + a).drop_first() =~= p.drop_first() + a);
        assert((p + b).drop_first() =~= p.drop_first() + b);
        lemma_lex_common(p.drop_first(), a, b);
    }
}

/// Neither sequence starts with the other.
pub open spec fn apart(a: Seq<int>, b: Seq<int>) -> bool
    decreases a.len(),
{
    a.len() > 0 && b.len() > 0 && (a[0] != b[0] || apart(a.drop_first(), b.drop_first()))
}

/// Where the fronts are apart, what follows does not matter.
pub proof fn lemma_lex_apart(a: Seq<int>, b: Seq<int>, x: Seq<int>, y: Seq<int>)
    requires
        apart(a, b),
    ensures
        lex_lt(a + x, b + y) == lex_lt(a, b),
        apart(a + x, b + y),
        a + x != b + y,
    decreases a.len(),
{
    assert((a + x)[0] == a[0]);
    assert((b + y)[0] == b[0]);
    if a[0] == b[0] {
        assert((a + x).drop_first() =~= a.drop_first() + x);
        assert((b + y).drop_first() =~= b.drop_first() + y);
        lemma_lex_apart(a.drop_first(), b.drop_first(), x, y);
    }
}

/// The order of two keys with fronts `a`, `b` that are equal or apart: the fronts decide
/// first, what follows decides second.
pub proof fn lemma_rel_pair(a: Seq<int>, b: Seq<int>, x: Seq<int>, y: Seq<int>)
    requires
        a == b || apart(a, b),
    ensures
        rel_of(a + x, b + y) == (if a == b {
            rel_of(x, y)
        } else {
            rel_of(a, b)
        }),
        (a + x == b + y) == (a == b && x == y),
        apart(x, y) ==> apart(a + x, b + y),
{
    if a == b {
        lemma_lex_common(a, x, y);
        if a + x == b + y {
            assert(x =~= (a + x).skip(a.len() as int));
            assert(y =~= (b + y).skip(b.len() as int));
        }
        if apart(x, y) {
            lemma_apart_common(a, x, y);
        }
    } else {
        lemma_lex_apart(a, b, x, y);
    }
}

pub proof fn lemma_apart_common(p: Seq<int>, x: Seq<int>, y: Seq<int>)
    requires
        apart(x, y),
    ensures
        apart(p + x, p + y),
    decreases p.len(),
{
    if p.len() == 0 {
        assert(p + x =~= x);
        assert(p + y =~= y);
    } else {
        assert((p + x).drop_first() =~= p.drop_first() + x);
        assert((p + y).drop_first() =~= p.drop_first() + y);
        lemma_apart_common(p.drop_first(), x, y);
    }
}

/// An order on `Item`, given by a key of what an item stands for.
pub trait Order {
    type M;

    type Item: DeepView<V = Self::M>;

    spec fn key(m: Self::M) -> Seq<int>;

    fn rel(a: &Self::Item, b: &Self::Item) -> (r: Rel)
        ensures
            r == rel_of(Self::key(a.deep_view()), Self::key(b.deep_view())),
    ;
}

/// Keys never go down.
pub open spec fn sorted<O: Order>(s: Seq<O::M>) -> bool {
    forall|i: int, j: int|
        0 <= i < j < s.len() ==> lex_le(#[trigger] O::key(s[i]), #[trigger] O::key(s[j]))
}

/// Keys always go up: sorted, and no key twice.
pub open spec fn strictly_sorted<O: Order>(s: Seq<O::M>) -> bool {
    forall|i: int, j: int|
        0 <= i < j < s.len() ==> lex_lt(#[trigger] O::key(s[i]), #[trigger] O::key(s[j]))
}

pub open spec fn key_is<O: Order>(k: Seq<int>) -> spec_fn(O::M) -> bool {
    |x: O::M| O::key(x) == k
}

/// The items with one key, in the order in which they stand.
pub open spec fn with_key<O: Order>(s: Seq<O::M>, k: Seq<int>) -> Seq<O::M> {
    s.filter(key_is::<O>(k))
}

/// The place in a sorted sequence behind every item whose key is not above `k`.
pub open spec fn place<O: Order>(s: Seq<O::M>, k: Seq<int>) -> int
    decreases s.len(),
{
    if s.len() > 0 && lex_lt(k, O::key(s.last())) {
        place::<O>(s.drop_last(), k)
    } else {
        s.len() as int
    }
}

/// `s` in order, items with equal keys keeping their order: each item in turn is put behind
/// those that may stand before it.
pub open spec fn in_order<O: Order>(s: Seq<O::M>) -> Seq<O::M>
    decreases s.len(),
{
    if s.len() == 0 {
        Seq::empty()
    } else {
        let front = in_order::<O>(s.drop_last());
        front.insert(place::<O>(front, O::key(s.last())), s.last())
    }
}

pub proof fn lemma_filter_concat<A>(a: Seq<A>, b: Seq<A>, p: spec_fn(A) -> bool)
    ensures
        (a + b).filter(p) == a.filter(p) + b.filter(p),
    decreases b.len(),
{
    reveal(Seq::filter);
    if b.len() == 0 {
        assert(a + b =~= a);
        assert(b.filter(p) =~= Seq::<A>::empty());
        assert(a.filter(p) + b.filter(p) =~= a.filter(p));
    } else {
        assert((a + b).drop_last() =~= a + b.drop_last());
        lemma_filter_concat(a, b.drop_last(), p);
        assert((a + b).last() == b.last());
        if p(b.last()) {
            assert(a.filter(p) + b.filter(p) =~= (a.filter(p) + b.drop_last().filter(p)).push(
                b.last(),
            ));
        }
    }
}

pub proof fn lemma_filter_none<A>(a: Seq<A>, p: spec_fn(A) -> bool)
    requires
        forall|i: int| 0 <= i < a.len() ==> !p(#[trigger] a[i]),
    ensures
        a.filter(p) == Seq::<A>::empty(),
    decreases a.len(),
{
    reveal(Seq::filter);
    if a.len() > 0 {
        assert forall|i: int| 0 <= i < a.drop_last().len() implies !p(
            #[trigger] a.drop_last()[i],
        ) by {
            assert(a.drop_last()[i] == a[i]);
        }
        lemma_filter_none(a.drop_last(), p);
    }
}

/// What `place` finds.
proof fn lemma_place<O: Order>(s: Seq<O::M>, k: Seq<int>)
    requires
        sorted::<O>(s),
    ensures
        0 <= place::<O>(s, k) <= s.len(),
        forall|i: int| 0 <= i < place::<O>(s, k) ==> lex_le(#[trigger] O::key(s[i]), k),
        forall|i: int| place::<O>(s, k) <= i < s.len() ==> lex_lt(k, #[trigger] O::key(s[i])),
    decreases s.len(),
{
    if s.len() > 0 {
        let l = s.drop_last();
        lemma_lex_total(k, O::key(s.last()));
        if lex_lt(k, O::key(s.last())) {
            assert forall|i: int, j: int| 0 <= i < j < l.len() implies lex_le(
                #[trigger] O::key(l[i]),
                #[trigger] O::key(l[j]),
            ) by {
                assert(l[i] == s[i] && l[j] == s[j]);
            }
            lemma_place::<O>(l, k);
            assert forall|i: int| 0 <= i < place::<O>(s, k) implies lex_le(
                #[trigger] O::key(s[i]),
                k,
            ) by {
                assert(l[i] == s[i]);
            }
            assert forall|i: int| place::<O>(s, k) <= i < s.len() implies lex_lt(
                k,
                #[trigger] O::key(s[i]),
            ) by {
                if i < l.len() {
                    assert(l[i] == s[i]);
                }
            }
        } else {
            assert forall|i: int| 0 <= i < s.len() implies lex_le(#[trigger] O::key(s[i]), k) by {
                if i < s.len() - 1 {
                    lemma_lex_le_transitive(O::key(s[i]), O::key(s.last()), k);
                }
            }
        }
    }
}

/// The place after every item whose key is not above that of `x`.
fn place_after<O: Order>(v: &Vec<O::Item>, x: &O::Item) -> (p: usize)
    requires
        sorted::<O>(v.deep_view()),
    ensures
        p == place::<O>(v.deep_view(), O::key(x.deep_view())),
        p <= v.len(),
{
    let mut lo: usize = 0;
    let mut hi: usize = v.len();
    let ghost s = v.deep_view();
    let ghost k = O::key(x.deep_view());
    while lo < hi
        invariant
            lo <= hi <= v.len(),
            s == v.deep_view(),
            k == O::key(x.deep_view()),
            sorted::<O>(s),
            forall|i: int| 0 <= i < lo ==> lex_le(#[trigger] O::key(s[i]), k),
            forall|i: int| hi <= i < v.len() ==> lex_lt(k, #[trigger] O::key(s[i])),
        decreases hi - lo,
    {
        let mid: usize = lo + (hi - lo) / 2;
        let r = O::rel(x, &v[mid]);
        proof {
            lemma_lex_total(k, O::key(s[mid as int]));
        }
        match r {
            Rel::Less => {
                proof {
                    assert forall|i: int| mid <= i < v.len() implies lex_lt(
                        k,
                        #[trigger] O::key(s[i]),
                    ) by {
                        if i > mid {
                            lemma_lex_le_transitive(k, O::key(s[mid as int]), O::key(s[i]));
                        }
                    }
                }
                hi = mid;
            },
            _ => {
                proof {
                    assert forall|i: int| 0 <= i <= mid implies lex_le(
                        #[trigger] O::key(s[i]),
                        k,
                    ) by {
                        if i < mid {
                            lemma_lex_le_transitive(O::key(s[i]), O::key(s[mid as int]), k);
                        }
                    }
                }
                lo = mid + 1;
            },
        }
    }
    proof {
        let p = place::<O>(s, k);
        lemma_place::<O>(s, k);
        if p < lo {
            lemma_lex_total(k, O::key(s[p]));
        } else if lo < p {
            lemma_lex_total(k, O::key(s[lo as int]));
        }
    }
    lo
}

proof fn lemma_insert_sorted<O: Order>(s: Seq<O::M>, x: O::M)
    requires
        sorted::<O>(s),
    ensures
        sorted::<O>(s.insert(place::<O>(s, O::key(x)), x)),
        s.insert(place::<O>(s, O::key(x)), x).to_multiset() == s.to_multiset().insert(x),
        forall|k: Seq<int>| #[trigger]
            with_key::<O>(s.insert(place::<O>(s, O::key(x)), x), k) == with_key::<O>(
                s.push(x),
                k,
            ),
{
    broadcast use vstd::seq_lib::group_to_multiset_ensures;

    let p = place::<O>(s, O::key(x));
    lemma_place::<O>(s, O::key(x));
    let t = s.insert(p, x);
    assert forall|i: int, j: int| 0 <= i < j < t.len() implies lex_le(
        #[trigger] O::key(t[i]),
        #[trigger] O::key(t[j]),
    ) by {
        let a: int = if i < p {
            i
        } else {
            i - 1
        };
        let b: int = if j < p {
            j
        } else {
            j - 1
        };
        if i != p {
            assert(t[i] == s[a]);
        }
        if j != p {
            assert(t[j] == s[b]);
        }
    }
    assert forall|k: Seq<int>| #[trigger] with_key::<O>(t, k) == with_key::<O>(s.push(x), k) by {
        let f = key_is::<O>(k);
        let a = s.take(p);
        let b = s.skip(p);
        assert(t =~= a + seq![x] + b);
        assert(s.push(x) =~= a + b + seq![x]);
        lemma_filter_concat(a + seq![x], b, f);
        lemma_filter_concat(a, seq![x], f);
        lemma_filter_concat(a + b, seq![x], f);
        lemma_filter_concat(a, b, f);
        if f(x) {
            assert forall|i: int| 0 <= i < b.len() implies !f(#[trigger] b[i]) by {
                assert(b[i] == s[p + i]);
                lemma_lex_total(O::key(x), O::key(s[p + i]));
            }
            lemma_filter_none(b, f);
        } else {
            lemma_filter_none(seq![x], f);
        }
        assert(a.filter(f) + seq![x].filter(f) + b.filter(f) =~= a.filter(f) + b.filter(f)
            + seq![x].filter(f));
    }
}

/// `in_order` sorts: keys never go down, nothing is lost or added, and the items with one key
/// keep their order.
pub proof fn lemma_in_order<O: Order>(s: Seq<O::M>)
    ensures
        sorted::<O>(in_order::<O>(s)),
        in_order::<O>(s).len() == s.len(),
        in_order::<O>(s).to_multiset() == s.to_multiset(),
        forall|k: Seq<int>| #[trigger]
            with_key::<O>(in_order::<O>(s), k) == with_key::<O>(s, k),
    decreases s.len(),
{
    broadcast use vstd::seq_lib::group_to_multiset_ensures;

    if s.len() > 0 {
        let l = s.drop_last();
        let x = s.last();
        lemma_in_order::<O>(l);
        lemma_insert_sorted::<O>(in_order::<O>(l), x);
        lemma_place::<O>(in_order::<O>(l), O::key(x));
        assert(s =~= l.push(x));
        assert forall|k: Seq<int>| #[trigger]
            with_key::<O>(in_order::<O>(s), k) == with_key::<O>(s, k) by {
            let f = key_is::<O>(k);
            let d = in_order::<O>(l);
            assert(with_key::<O>(d, k) == with_key::<O>(l, k));
            lemma_filter_concat(d, seq![x], f);
            lemma_filter_concat(l, seq![x], f);
            assert(d.push(x) =~= d + seq![x]);
            assert(l.push(x) =~= l + seq![x]);
            assert(with_key::<O>(d.push(x), k) == with_key::<O>(l.push(x), k));
        }
    } else {
        assert(s =~= Seq::empty());
    }
}

/// The same items stand in `in_order(s)` as in `s`.
pub proof fn lemma_in_order_contains<O: Order>(s: Seq<O::M>, x: O::M)
    ensures
        in_order::<O>(s).contains(x) == s.contains(x),
{
    broadcast use vstd::seq_lib::group_to_multiset_ensures;

    lemma_in_order::<O>(s);
    assert(s.contains(x) <==> s.to_multiset().count(x) > 0);
    assert(in_order::<O>(s).contains(x) <==> in_order::<O>(s).to_multiset().count(x) > 0);
}

/// Puts `v` in order; items with equal keys keep their order.
pub fn sort<O: Order>(v: Vec<O::Item>) -> (out: Vec<O::Item>)
    ensures
        out.deep_view() == in_order::<O>(v.deep_view()),
        out.len() == v.len(),
{
    let ghost all = v.deep_view();
    let mut out: Vec<O::Item> = Vec::new();
    let ghost mut n: int = 0;
    proof {
        assert(all.take(0) =~= Seq::empty());
        assert(out.deep_view() =~= Seq::empty());
    }
    for x in it: v
        invariant
            it.seq() == v@,
            all == v.deep_view(),
            n == it.index(),
            n <= all.len(),
            out.len() == n,
            out.deep_view() == in_order::<O>(all.take(n)),
    {
        proof {
            lemma_in_order::<O>(all.take(n));
        }
        let p: usize = place_after::<O>(&out, &x);
        let ghost before = out.deep_view();
        out.insert(p, x);
        proof {
            assert(out.deep_view() =~= before.insert(p as int, x.deep_view()));
            assert(all.take(n + 1).drop_last() =~= all.take(n));
            assert(all[n] == x.deep_view());
            n = n + 1;
        }
    }
    assert(all.take(n) =~= all);
    out
}

/// `s` without the items that repeat the item before them.
pub open spec fn without_repeats<M>(s: Seq<M>) -> Seq<M>
    decreases s.len(),
{
    if s.len() == 0 {
        s
    } else {
        let front = without_repeats(s.drop_last());
        if s.len() > 1 && s[s.len() - 2] == s.last() {
            front
        } else {
            front.push(s.last())
        }
    }
}

/// Two strictly sorted sequences of the same items are equal.
pub proof fn lemma_strict_unique<O: Order>(a: Seq<O::M>, b: Seq<O::M>)
    requires
        strictly_sorted::<O>(a),
        strictly_sorted::<O>(b),
        forall|x: O::M| a.contains(x) == b.contains(x),
    ensures
        a == b,
    decreases a.len(),
{
    if a.len() == 0 {
        if b.len() > 0 {
            assert(b.contains(b[0]));
            assert(a.contains(b[0]));
        }
        assert(a =~= b);
    } else {
        assert(a.contains(a[0]));
        assert(b.contains(a[0]));
        assert(b.contains(b[0]));
        assert(a.contains(b[0]));
        let i = choose|i: int| 0 <= i < b.len() && b[i] == a[0];
        let j = choose|j: int| 0 <= j < a.len() && a[j] == b[0];
        lemma_lex_total(O::key(a[0]), O::key(b[0]));
        if i > 0 {
            assert(lex_lt(O::key(b[0]), O::key(b[i])));
            if j > 0 {
                assert(lex_lt(O::key(a[0]), O::key(a[j])));
            }
        }
        assert(a[0] == b[0]);
        let x = a.drop_first();
        let y = b.drop_first();
        assert forall|p: int, q: int| 0 <= p < q < x.len() implies lex_lt(
            #[trigger] O::key(x[p]),
            #[trigger] O::key(x[q]),
        ) by {
            assert(lex_lt(O::key(a[p + 1]), O::key(a[q + 1])));
        }
        assert forall|p: int, q: int| 0 <= p < q < y.len() implies lex_lt(
            #[trigger] O::key(y[p]),
            #[trigger] O::key(y[q]),
        ) by {
            assert(lex_lt(O::key(b[p + 1]), O::key(b[q + 1])));
        }
        assert forall|t: O::M| x.contains(t) == y.contains(t) by {
            if x.contains(t) {
                let p = choose|p: int| 0 <= p < x.len() && x[p] == t;
                assert(a[p + 1] == t);
                assert(lex_lt(O::key(a[0]), O::key(a[p + 1])));
                lemma_lex_irreflexive(O::key(t));
                assert(b.contains(t));
                let q = choose|q: int| 0 <= q < b.len() && b[q] == t;
                assert(y[q - 1] == t);
            }
            if y.contains(t) {
                let p = choose|p: int| 0 <= p < y.len() && y[p] == t;
                assert(b[p + 1] == t);
                assert(lex_lt(O::key(b[0]), O::key(b[p + 1])));
                lemma_lex_irreflexive(O::key(t));
                assert(a.contains(t));
                let q = choose|q: int| 0 <= q < a.len() && a[q] == t;
                assert(x[q - 1] == t);
            }
        }
        lemma_strict_unique::<O>(x, y);
        assert(a =~= seq![a[0]] + x);
        assert(b =~= seq![b[0]] + y);
    }
}

/// `s` with each item once, where it stands first.
pub open spec fn distinct<M>(s: Seq<M>) -> Seq<M>
    decreases s.len(),
{
    if s.len() == 0 {
        s
    } else {
        let front = distinct(s.drop_last());
        if front.contains(s.last()) {
            front
        } else {
            front.push(s.last())
        }
    }
}

/// The same items, each once, and no more of them; all of them where none was there twice.
pub proof fn lemma_distinct<M>(s: Seq<M>)
    ensures
        distinct(s).no_duplicates(),
        distinct(s).len() <= s.len(),
        forall|x: M| #[trigger] distinct(s).contains(x) == s.contains(x),
        s.no_duplicates() ==> distinct(s) == s,
    decreases s.len(),
{
    if s.len() > 0 {
        let l = s.drop_last();
        let front = distinct(l);
        let d = distinct(s);
        lemma_distinct(l);
        assert forall|x: M| #[trigger] d.contains(x) == s.contains(x) by {
            assert(front.contains(x) == l.contains(x));
            assert(s.contains(x) == (l.contains(x) || x == s.last())) by {
                if l.contains(x) {
                    let i = choose|i: int| 0 <= i < l.len() && l[i] == x;
                    assert(s[i] == x);
                }
                if s.contains(x) {
                    let i = choose|i: int| 0 <= i < s.len() && s[i] == x;
                    if i < l.len() {
                        assert(l[i] == x);
                    }
                }
                assert(s[s.len() - 1] == s.last());
            }
            if front.contains(x) {
                let i = choose|i: int| 0 <= i < front.len() && front[i] == x;
                assert(d[i] == x);
            }
            if !front.contains(s.last()) {
                assert(d[front.len() as int] == s.last());
            }
            if d.contains(x) && !front.contains(x) {
                let i = choose|i: int| 0 <= i < d.len() && d[i] == x;
                if i < front.len() {
                    assert(front[i] == x);
                }
            }
        }
        if s.no_duplicates() {
            assert(l.no_duplicates());
            assert(!l.contains(s.last())) by {
                if l.contains(s.last()) {
                    let i = choose|i: int| 0 <= i < l.len() && l[i] == s.last();
                    assert(s[i] == s[s.len() - 1]);
                }
            }
            assert(d =~= s);
        }
    }
}

/// Dropping repeats keeps the order.
pub proof fn lemma_distinct_sorted<O: Order>(s: Seq<O::M>)
    requires
        sorted::<O>(s),
    ensures
        sorted::<O>(distinct(s)),
    decreases s.len(),
{
    if s.len() > 0 {
        let l = s.drop_last();
        let front = distinct(l);
        assert(sorted::<O>(l)) by {
            assert forall|i: int, j: int| 0 <= i <= j < l.len() implies lex_le(
                #[trigger] O::key(l[i]),
                #[trigger] O::key(l[j]),
            ) by {
                assert(l[i] == s[i] && l[j] == s[j]);
            }
        }
        lemma_distinct_sorted::<O>(l);
        lemma_distinct(l);
        let d = distinct(s);
        assert forall|i: int, j: int| 0 <= i <= j < d.len() implies lex_le(
            #[trigger] O::key(d[i]),
            #[trigger] O::key(d[j]),
        ) by {
            if j < front.len() {
                assert(d[i] == front[i] && d[j] == front[j]);
            } else {
                assert(d[j] == s[s.len() - 1]);
                if i < front.len() {
                    assert(front.contains(front[i]));
                    let k = choose|k: int| 0 <= k < l.len() && l[k] == front[i];
                    assert(s[k] == d[i]);
                    assert(lex_le(O::key(s[k]), O::key(s[s.len() - 1])));
                } else {
                    assert(lex_le(O::key(s[s.len() - 1]), O::key(s[s.len() - 1])));
                }
            }
        }
    }
}

/// What is in order already stays as it is.
pub proof fn lemma_in_order_stays<O: Order>(s: Seq<O::M>)
    requires
        sorted::<O>(s),
    ensures
        in_order::<O>(s) == s,
    decreases s.len(),
{
    if s.len() > 0 {
        let l = s.drop_last();
        assert(sorted::<O>(l)) by {
            assert forall|i: int, j: int| 0 <= i <= j < l.len() implies lex_le(
                #[trigger] O::key(l[i]),
                #[trigger] O::key(l[j]),
            ) by {
                assert(l[i] == s[i] && l[j] == s[j]);
            }
        }
        lemma_in_order_stays::<O>(l);
        if l.len() > 0 {
            assert(lex_le(O::key(s[l.len() - 1]), O::key(s[s.len() - 1])));
            lemma_lex_total(O::key(l.last()), O::key(s.last()));
        }
        assert(place::<O>(l, O::key(s.last())) == l.len());
        assert(in_order::<O>(s) =~= s);
    } else {
        assert(in_order::<O>(s) =~= s);
    }
}

/// `s` without the items whose key is that of the item before them.
pub open spec fn first_per_key<O: Order>(s: Seq<O::M>) -> Seq<O::M>
    decreases s.len(),
{
    if s.len() == 0 {
        s
    } else {
        let front = first_per_key::<O>(s.drop_last());
        if s.len() > 1 && O::key(s[s.len() - 2]) == O::key(s.last()) {
            front
        } else {
            front.push(s.last())
        }
    }
}

proof fn lemma_first_per_key<O: Order>(s: Seq<O::M>)
    ensures
        s.len() > 0 ==> first_per_key::<O>(s).len() > 0 && O::key(first_per_key::<O>(s).last())
            == O::key(s.last()),
        s.len() == 0 ==> first_per_key::<O>(s).len() == 0,
    decreases s.len(),
{
    if s.len() > 0 {
        lemma_first_per_key::<O>(s.drop_last());
    }
}

/// In a sorted sequence, keeping the first item per key leaves no key twice, and no key out.
pub proof fn lemma_first_per_key_strict<O: Order>(s: Seq<O::M>)
    requires
        sorted::<O>(s),
    ensures
        strictly_sorted::<O>(first_per_key::<O>(s)),
        forall|i: int|
            0 <= i < s.len() ==> has_key::<O>(first_per_key::<O>(s), #[trigger] O::key(s[i])),
        forall|j: int|
            0 <= j < first_per_key::<O>(s).len() ==> s.contains(
                #[trigger] first_per_key::<O>(s)[j],
            ),
    decreases s.len(),
{
    if s.len() > 0 {
        let l = s.drop_last();
        let x = s.last();
        assert forall|i: int| 0 <= i < l.len() implies #[trigger] l[i] == s[i] by {}
        lemma_first_per_key_strict::<O>(l);
        lemma_first_per_key::<O>(l);
        lemma_first_per_key::<O>(s);
        let d = first_per_key::<O>(l);
        let t = first_per_key::<O>(s);
        assert forall|i: int, j: int| 0 <= i < j < t.len() implies lex_lt(
            #[trigger] O::key(t[i]),
            #[trigger] O::key(t[j]),
        ) by {
            if j == d.len() {
                assert(lex_le(O::key(s[s.len() - 2]), O::key(x)));
                assert(O::key(d.last()) == O::key(s[s.len() - 2]));
                if i < d.len() - 1 {
                    assert(lex_lt(O::key(d[i]), O::key(d[d.len() - 1])));
                    lemma_lex_le_transitive(O::key(d[i]), O::key(d.last()), O::key(x));
                }
            }
        }
        assert forall|i: int| 0 <= i < s.len() implies has_key::<O>(t, #[trigger] O::key(s[i])) by {
            if i < l.len() {
                assert(has_key::<O>(d, O::key(l[i])));
                let j = choose|j: int|
                    0 <= j < d.len() && #[trigger] O::key(d[j]) == O::key(l[i]);
                assert(O::key(t[j]) == O::key(s[i]));
            } else {
                assert(O::key(t[t.len() - 1]) == O::key(x));
            }
        }
        assert forall|j: int| 0 <= j < t.len() implies s.contains(#[trigger] t[j]) by {
            if j < d.len() {
                assert(l.contains(d[j]));
                let i = choose|i: int| 0 <= i < l.len() && l[i] == d[j];
                assert(s[i] == t[j]);
            } else {
                assert(s[s.len() - 1] == t[j]);
            }
        }
    }
}

pub open spec fn has_key<O: Order>(s: Seq<O::M>, k: Seq<int>) -> bool {
    exists|i: int| 0 <= i < s.len() && #[trigger] O::key(s[i]) == k
}

/// Drops the items whose key is that of the item before them.
pub fn dedup_keys<O: Order>(v: Vec<O::Item>) -> (out: Vec<O::Item>)
    ensures
        out.deep_view() == first_per_key::<O>(v.deep_view()),
{
    let ghost all = v.deep_view();
    let mut out: Vec<O::Item> = Vec::new();
    let ghost mut n: int = 0;
    proof {
        assert(out.deep_view() =~= first_per_key::<O>(all.take(0)));
    }
    for x in it: v
        invariant
            it.seq() == v@,
            all == v.deep_view(),
            n == it.index(),
            n <= all.len(),
            out.deep_view() == first_per_key::<O>(all.take(n)),
    {
        let ghost before = out.deep_view();
        let mut repeat: bool = false;
        proof {
            lemma_first_per_key::<O>(all.take(n));
            assert(all.take(n + 1).drop_last() =~= all.take(n));
            assert(all[n] == x.deep_view());
            assert(out.deep_view().len() == out.len());
        }
        if out.len() > 0 {
            assert(out.deep_view().last() == out[out.len() - 1].deep_view());
            proof {
                lemma_lex_total(O::key(out.deep_view().last()), O::key(x.deep_view()));
            }
            match O::rel(&out[out.len() - 1], &x) {
                Rel::Equal => {
                    repeat = true;
                },
                _ => {},
            }
        }
        proof {
            if n > 0 {
                assert(all.take(n).last() == all.take(n + 1)[n - 1]);
            }
        }
        if !repeat {
            out.push(x);
            assert(out.deep_view() =~= before.push(x.deep_view()));
        }
        proof {
            n = n + 1;
        }
    }
    assert(all.take(n) =~= all);
    out
}

/// What `without_repeats` keeps: every item once per run, the last one at the end.
pub proof fn lemma_without_repeats<M>(s: Seq<M>)
    ensures
        without_repeats(s).len() <= s.len(),
        s.len() > 0 ==> without_repeats(s).len() > 0 && without_repeats(s).last() == s.last(),
        forall|x: M| without_repeats(s).contains(x) == s.contains(x),
    decreases s.len(),
{
    if s.len() > 0 {
        let l = s.drop_last();
        lemma_without_repeats(l);
        assert(s =~= l.push(s.last()));
        assert forall|x: M| without_repeats(s).contains(x) == s.contains(x) by {
            assert(without_repeats(l).contains(x) == l.contains(x));
            if s.contains(x) {
                let i = choose|i: int| 0 <= i < s.len() && s[i] == x;
                if i < s.len() - 1 {
                    assert(l[i] == x);
                    let j = choose|j: int|
                        0 <= j < without_repeats(l).len() && without_repeats(l)[j] == x;
                    assert(without_repeats(s)[j] == x);
                } else {
                    assert(without_repeats(s).last() == x);
                    assert(without_repeats(s)[without_repeats(s).len() - 1] == x);
                }
            }
            if without_repeats(s).contains(x) {
                let j = choose|j: int|
                    0 <= j < without_repeats(s).len() && without_repeats(s)[j] == x;
                if j < without_repeats(l).len() {
                    assert(without_repeats(l)[j] == x);
                    let i = choose|i: int| 0 <= i < l.len() && l[i] == x;
                    assert(s[i] == x);
                } else {
                    assert(s[s.len() - 1] == x);
                }
            }
        }
    }
}

/// Where equal keys mean equal items, a sorted sequence without repeats has no key twice.
pub proof fn lemma_set_strict<O: Order>(s: Seq<O::M>)
    requires
        sorted::<O>(s),
        forall|i: int, j: int|
            0 <= i < s.len() && 0 <= j < s.len() && #[trigger] O::key(s[i]) == #[trigger] O::key(
                s[j],
            ) ==> s[i] == s[j],
    ensures
        strictly_sorted::<O>(without_repeats(s)),
    decreases s.len(),
{
    if s.len() > 0 {
        let l = s.drop_last();
        assert forall|i: int| 0 <= i < l.len() implies #[trigger] l[i] == s[i] by {}
        lemma_set_strict::<O>(l);
        lemma_without_repeats(l);
        let d = without_repeats(l);
        let x = s.last();
        if !(s.len() > 1 && s[s.len() - 2] == x) {
            let t = d.push(x);
            assert forall|i: int, j: int| 0 <= i < j < t.len() implies lex_lt(
                #[trigger] O::key(t[i]),
                #[trigger] O::key(t[j]),
            ) by {
                if j == d.len() {
                    let y = l.last();
                    assert(y == s[s.len() - 2]);
                    assert(lex_le(O::key(y), O::key(x)));
                    assert(O::key(s[s.len() - 2]) != O::key(s[s.len() - 1]));
                    assert(d.last() == y);
                    if i < d.len() - 1 {
                        assert(lex_lt(O::key(d[i]), O::key(d[d.len() - 1])));
                        lemma_lex_le_transitive(O::key(d[i]), O::key(y), O::key(x));
                    }
                }
            }
        }
    }
}

/// The runs of items with equal keys.
pub open spec fn runs<O: Order>(s: Seq<O::M>) -> Seq<Seq<O::M>>
    decreases s.len(),
{
    if s.len() == 0 {
        Seq::empty()
    } else {
        let front = runs::<O>(s.drop_last());
        if s.len() > 1 && O::key(s[s.len() - 2]) == O::key(s.last()) {
            front.drop_last().push(front.last().push(s.last()))
        } else {
            front.push(seq![s.last()])
        }
    }
}

/// The items in groups with equal keys, keys going up, the items of a group in the order in
/// which they stand in `s`.
pub open spec fn groups<O: Order>(s: Seq<O::M>) -> Seq<Seq<O::M>> {
    runs::<O>(in_order::<O>(s))
}

/// The key of a group.
pub open spec fn group_key<O: Order>(g: Seq<O::M>) -> Seq<int> {
    O::key(g[0])
}

pub open spec fn one_key<O: Order>(g: Seq<O::M>) -> bool {
    g.len() > 0 && forall|i: int| 0 <= i < g.len() ==> #[trigger] O::key(g[i]) == group_key::<O>(g)
}

/// Runs are not empty, hold one key each, and make up the whole.
proof fn lemma_runs_shape<O: Order>(s: Seq<O::M>)
    ensures
        s.len() > 0 ==> runs::<O>(s).len() > 0,
        s.len() > 0 ==> group_key::<O>(runs::<O>(s).last()) == O::key(s.last()),
        forall|i: int| 0 <= i < runs::<O>(s).len() ==> one_key::<O>(#[trigger] runs::<O>(s)[i]),
        runs::<O>(s).flatten() == s,
    decreases s.len(),
{
    if s.len() == 0 {
        assert(runs::<O>(s).flatten() =~= s);
    } else {
        let l = s.drop_last();
        let x = s.last();
        lemma_runs_shape::<O>(l);
        let front = runs::<O>(l);
        let all = runs::<O>(s);
        assert(s =~= l.push(x));
        if s.len() > 1 && O::key(s[s.len() - 2]) == O::key(x) {
            let g = front.last();
            assert(one_key::<O>(front[front.len() - 1]));
            assert(g.push(x)[0] == g[0]);
            assert forall|i: int| 0 <= i < g.push(x).len() implies #[trigger] O::key(g.push(x)[i])
                == group_key::<O>(g.push(x)) by {
                if i < g.len() {
                    assert(g.push(x)[i] == g[i]);
                }
            }
            assert forall|i: int| 0 <= i < all.len() implies one_key::<O>(#[trigger] all[i]) by {
                if i < front.len() - 1 {
                    assert(all[i] == front[i]);
                }
            }
            front.drop_last().lemma_flatten_push(g);
            front.drop_last().lemma_flatten_push(g.push(x));
            assert(front.drop_last().push(g) =~= front);
            assert(all.flatten() =~= s);
        } else {
            assert(one_key::<O>(seq![x]));
            assert forall|i: int| 0 <= i < all.len() implies one_key::<O>(#[trigger] all[i]) by {
                if i < front.len() {
                    assert(all[i] == front[i]);
                }
            }
            front.lemma_flatten_push(seq![x]);
            assert(all.flatten() =~= s);
        }
    }
}

/// The keys of the runs: those of the items, going up where the items are sorted.
proof fn lemma_runs_keys<O: Order>(s: Seq<O::M>)
    requires
        sorted::<O>(s),
    ensures
        forall|i: int, j: int|
            0 <= i < j < runs::<O>(s).len() ==> lex_lt(
                group_key::<O>(#[trigger] runs::<O>(s)[i]),
                group_key::<O>(#[trigger] runs::<O>(s)[j]),
            ),
        forall|h: int| 0 <= h < s.len() ==> has_group::<O>(runs::<O>(s), #[trigger] O::key(s[h])),
    decreases s.len(),
{
    if s.len() > 0 {
        let l = s.drop_last();
        let x = s.last();
        assert forall|i: int| 0 <= i < l.len() implies #[trigger] l[i] == s[i] by {}
        lemma_runs_keys::<O>(l);
        lemma_runs_shape::<O>(l);
        lemma_runs_shape::<O>(s);
        let front = runs::<O>(l);
        let all = runs::<O>(s);
        let n: int = front.len() - 1;
        let join = s.len() > 1 && O::key(s[s.len() - 2]) == O::key(x);
        assert forall|i: int| 0 <= i < front.len() implies group_key::<O>(#[trigger] all[i])
            == group_key::<O>(front[i]) by {
            if join && i == n {
                assert(all[i] == front[n].push(x));
                assert(one_key::<O>(front[n]));
                assert(front[n].push(x)[0] == front[n][0]);
            } else {
                assert(all[i] == front[i]);
            }
        }
        assert forall|i: int, j: int| 0 <= i < j < all.len() implies lex_lt(
            group_key::<O>(#[trigger] all[i]),
            group_key::<O>(#[trigger] all[j]),
        ) by {
            if j < front.len() {
                assert(lex_lt(group_key::<O>(front[i]), group_key::<O>(front[j])));
            } else {
                assert(all[j] == seq![x]);
                assert(l.last() == s[s.len() - 2]);
                assert(lex_le(O::key(s[s.len() - 2]), O::key(s[s.len() - 1])));
                assert(front[n] == front.last());
                if i < n {
                    assert(lex_lt(group_key::<O>(front[i]), group_key::<O>(front[n])));
                    lemma_lex_le_transitive(
                        group_key::<O>(front[i]),
                        group_key::<O>(front[n]),
                        O::key(x),
                    );
                }
            }
        }
        assert forall|h: int| 0 <= h < s.len() implies has_group::<O>(
            all,
            #[trigger] O::key(s[h]),
        ) by {
            if h < l.len() {
                assert(has_group::<O>(front, O::key(l[h])));
                let j = choose|j: int|
                    0 <= j < front.len() && group_key::<O>(#[trigger] front[j]) == O::key(l[h]);
                assert(group_key::<O>(all[j]) == O::key(s[h]));
            } else {
                assert(group_key::<O>(all[all.len() - 1]) == O::key(s[h]));
            }
        }
    }
}

/// Where the last key differs from the one before it, it occurs once.
proof fn lemma_last_alone<O: Order>(s: Seq<O::M>)
    requires
        sorted::<O>(s),
        s.len() > 0,
        s.len() > 1 ==> O::key(s[s.len() - 2]) != O::key(s.last()),
    ensures
        with_key::<O>(s, O::key(s.last())) == seq![s.last()],
{
    let l = s.drop_last();
    let x = s.last();
    let f = key_is::<O>(O::key(x));
    assert forall|h: int| 0 <= h < l.len() implies !f(#[trigger] l[h]) by {
        if f(l[h]) {
            let m: int = s.len() - 2;
            assert(l[h] == s[h]);
            assert(lex_le(O::key(s[m]), O::key(s[s.len() - 1])));
            if h < m {
                assert(lex_le(O::key(s[h]), O::key(s[m])));
                lemma_lex_total(O::key(s[m]), O::key(x));
            }
        }
    }
    assert(s =~= l.push(x));
    l.lemma_filter_push(x, f);
    lemma_filter_none(l, f);
    assert(seq![x] =~= Seq::<O::M>::empty().push(x));
}

proof fn lemma_with_key_push<O: Order>(l: Seq<O::M>, x: O::M, k: Seq<int>)
    ensures
        with_key::<O>(l.push(x), k) == (if O::key(x) == k {
            with_key::<O>(l, k).push(x)
        } else {
            with_key::<O>(l, k)
        }),
{
    let f = key_is::<O>(k);
    l.lemma_filter_push(x, f);
}

/// A run is all that has its key.
proof fn lemma_run_whole<O: Order>(s: Seq<O::M>, i: int)
    requires
        sorted::<O>(s),
        0 <= i < runs::<O>(s).len(),
    ensures
        runs::<O>(s)[i] == with_key::<O>(s, group_key::<O>(runs::<O>(s)[i])),
    decreases s.len(),
{
    let l = s.drop_last();
    let x = s.last();
    let front = runs::<O>(l);
    let all = runs::<O>(s);
    let k = group_key::<O>(all[i]);
    assert forall|i: int| 0 <= i < l.len() implies #[trigger] l[i] == s[i] by {}
    assert(s =~= l.push(x));
    lemma_runs_shape::<O>(s);
    lemma_runs_shape::<O>(l);
    lemma_with_key_push::<O>(l, x, k);
    if i < all.len() - 1 {
        assert(all[i] == front[i]);
        lemma_run_whole::<O>(l, i);
        assert(lex_lt(group_key::<O>(all[i]), group_key::<O>(all[all.len() - 1]))) by {
            lemma_runs_keys::<O>(s);
        }
        lemma_lex_total(k, O::key(x));
    } else if s.len() > 1 && O::key(s[s.len() - 2]) == O::key(x) {
        let n: int = front.len() - 1;
        assert(all[i] == front[n].push(x));
        assert(one_key::<O>(front[n]));
        assert(front[n].push(x)[0] == front[n][0]);
        lemma_run_whole::<O>(l, n);
    } else {
        lemma_last_alone::<O>(s);
        assert(all[i] == seq![x]);
    }
}

pub open spec fn has_group<O: Order>(gs: Seq<Seq<O::M>>, k: Seq<int>) -> bool {
    exists|j: int| 0 <= j < gs.len() && group_key::<O>(#[trigger] gs[j]) == k
}

/// What the groups are: the items of each key as they stand in `s`, every key once and in
/// order, nothing lost.
pub proof fn lemma_groups<O: Order>(s: Seq<O::M>)
    ensures
        forall|i: int|
            0 <= i < groups::<O>(s).len() ==> one_key::<O>(#[trigger] groups::<O>(s)[i])
                && groups::<O>(s)[i] == with_key::<O>(s, group_key::<O>(groups::<O>(s)[i])),
        forall|i: int, j: int|
            0 <= i < j < groups::<O>(s).len() ==> lex_lt(
                group_key::<O>(#[trigger] groups::<O>(s)[i]),
                group_key::<O>(#[trigger] groups::<O>(s)[j]),
            ),
        forall|i: int|
            0 <= i < s.len() ==> has_group::<O>(groups::<O>(s), #[trigger] O::key(s[i])),
        groups::<O>(s).flatten().to_multiset() == s.to_multiset(),
{
    let t = in_order::<O>(s);
    lemma_in_order::<O>(s);
    lemma_runs_shape::<O>(t);
    lemma_runs_keys::<O>(t);
    let g = groups::<O>(s);
    assert forall|i: int| 0 <= i < g.len() implies one_key::<O>(#[trigger] g[i]) && g[i]
        == with_key::<O>(s, group_key::<O>(g[i])) by {
        lemma_run_whole::<O>(t, i);
        assert(with_key::<O>(t, group_key::<O>(g[i])) == with_key::<O>(s, group_key::<O>(g[i])));
    }
    assert forall|i: int| 0 <= i < s.len() implies has_group::<O>(
        g,
        #[trigger] O::key(s[i]),
    ) by {
        lemma_in_order_contains::<O>(s, s[i]);
        assert(s.contains(s[i]));
        let h = choose|h: int| 0 <= h < t.len() && t[h] == s[i];
        assert(has_group::<O>(g, O::key(t[h])));
    }
}

/// Puts the items in groups with equal keys.
pub fn group<O: Order>(v: Vec<O::Item>) -> (out: Vec<Vec<O::Item>>)
    ensures
        out.deep_view() == groups::<O>(v.deep_view()),
{
    let w: Vec<O::Item> = sort::<O>(v);
    let ghost all = w.deep_view();
    proof {
        lemma_in_order::<O>(v.deep_view());
    }
    let mut out: Vec<Vec<O::Item>> = Vec::new();
    let mut run: Vec<O::Item> = Vec::new();
    let ghost mut n: int = 0;
    proof {
        assert(out.deep_view() =~= Seq::empty());
        assert(all.take(0) =~= Seq::empty());
    }
    for x in it: w
        invariant
            it.seq() == w@,
            all == w.deep_view(),
            sorted::<O>(all),
            n == it.index(),
            n <= all.len(),
            n > 0 ==> run.len() > 0 && O::key(run.deep_view().last()) == O::key(all[n - 1]),
            n == 0 ==> run.len() == 0 && out.len() == 0,
            runs::<O>(all.take(n)) == (if n == 0 {
                Seq::empty()
            } else {
                out.deep_view().push(run.deep_view())
            }),
    {
        let mut join: bool = false;
        proof {
            assert(all.take(n + 1).drop_last() =~= all.take(n));
            assert(all[n] == x.deep_view());
            assert(run.deep_view().len() == run.len());
        }
        if run.len() > 0 {
            assert(run.deep_view().last() == run[run.len() - 1].deep_view());
            proof {
                lemma_lex_total(O::key(run.deep_view().last()), O::key(x.deep_view()));
                assert(all.take(n + 1)[n - 1] == all[n - 1]);
            }
            match O::rel(&run[run.len() - 1], &x) {
                Rel::Equal => {
                    join = true;
                },
                _ => {},
            }
        }
        let ghost before = out.deep_view();
        let ghost run_before = run.deep_view();
        if !join {
            let mut done: Vec<O::Item> = Vec::new();
            std::mem::swap(&mut done, &mut run);
            if done.len() > 0 {
                out.push(done);
                assert(out.deep_view() =~= before.push(run_before));
            }
            assert(run.deep_view() =~= Seq::empty());
        }
        let ghost run_mid = run.deep_view();
        run.push(x);
        proof {
            assert(run.deep_view() =~= run_mid.push(x.deep_view()));
            if join {
                assert(runs::<O>(all.take(n)).drop_last() =~= before);
            } else {
                assert(run.deep_view() =~= seq![x.deep_view()]);
            }
            assert(out.deep_view().push(run.deep_view()).len() > 0);
            n = n + 1;
        }
    }
    let ghost before = out.deep_view();
    let ghost last = run.deep_view();
    assert(run.deep_view().len() == run.len());
    if run.len() > 0 {
        out.push(run);
        assert(out.deep_view() =~= before.push(last));
    }
    assert(all.take(n) =~= all);
    assert(out.deep_view() =~= runs::<O>(all));
    out
}

/// The sum of a number of each item.
pub open spec fn sum_of<M>(s: Seq<M>, n: spec_fn(M) -> nat) -> nat
    decreases s.len(),
{
    if s.len() == 0 {
        0
    } else {
        sum_of(s.drop_last(), n) + n(s.last())
    }
}

/// The sum over all groups.
pub open spec fn sum_of_groups<M>(gs: Seq<Seq<M>>, n: spec_fn(M) -> nat) -> nat
    decreases gs.len(),
{
    if gs.len() == 0 {
        0
    } else {
        sum_of_groups(gs.drop_last(), n) + sum_of(gs.last(), n)
    }
}

proof fn lemma_sum_insert<M>(s: Seq<M>, k: int, x: M, n: spec_fn(M) -> nat)
    requires
        0 <= k <= s.len(),
    ensures
        sum_of(s.insert(k, x), n) == sum_of(s, n) + n(x),
    decreases s.len(),
{
    let t = s.insert(k, x);
    if k == s.len() {
        assert(t.drop_last() =~= s);
    } else {
        assert(t.drop_last() =~= s.drop_last().insert(k, x));
        assert(t.last() == s.last());
        lemma_sum_insert(s.drop_last(), k, x, n);
    }
}

proof fn lemma_place_within<O: Order>(s: Seq<O::M>, k: Seq<int>)
    ensures
        0 <= place::<O>(s, k) <= s.len(),
    decreases s.len(),
{
    if s.len() > 0 {
        lemma_place_within::<O>(s.drop_last(), k);
    }
}

proof fn lemma_sum_in_order<O: Order>(s: Seq<O::M>, n: spec_fn(O::M) -> nat)
    ensures
        sum_of(in_order::<O>(s), n) == sum_of(s, n),
    decreases s.len(),
{
    if s.len() > 0 {
        let front = in_order::<O>(s.drop_last());
        lemma_sum_in_order::<O>(s.drop_last(), n);
        lemma_place_within::<O>(front, O::key(s.last()));
        lemma_sum_insert(front, place::<O>(front, O::key(s.last())), s.last(), n);
    }
}

proof fn lemma_sum_runs<O: Order>(s: Seq<O::M>, n: spec_fn(O::M) -> nat)
    ensures
        sum_of_groups(runs::<O>(s), n) == sum_of(s, n),
        s.len() > 0 ==> runs::<O>(s).len() > 0,
    decreases s.len(),
{
    if s.len() > 0 {
        let l = s.drop_last();
        let x = s.last();
        let front = runs::<O>(l);
        lemma_sum_runs::<O>(l, n);
        if s.len() > 1 && O::key(s[s.len() - 2]) == O::key(x) {
            let g = front.last().push(x);
            assert(g.drop_last() =~= front.last());
            let all = front.drop_last().push(g);
            assert(all.drop_last() =~= front.drop_last());
        } else {
            let one = seq![x];
            assert(one.drop_last() =~= Seq::empty());
            assert(sum_of(one, n) == sum_of(one.drop_last(), n) + n(x));
            assert(front.push(one).drop_last() =~= front);
        }
    }
}

/// Putting items in groups changes no sum.
pub proof fn lemma_sum_groups<O: Order>(s: Seq<O::M>, n: spec_fn(O::M) -> nat)
    ensures
        sum_of_groups(groups::<O>(s), n) == sum_of(s, n),
        sum_of(in_order::<O>(s), n) == sum_of(s, n),
{
    lemma_sum_in_order::<O>(s, n);
    lemma_sum_runs::<O>(in_order::<O>(s), n);
}

} // verus!
