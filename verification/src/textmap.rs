//! Maps from texts to values, kept in the order of the texts.
use vstd::prelude::*;
use crate::order;
use crate::order::{Order, Rel};
use crate::text;
use crate::value::ByText;

verus! {

/// A map from texts to values, kept in the order of the texts.
#[derive(Debug)]
pub struct TextMap<V> {
    names: Vec<String>,
    values: Vec<V>,
}

/// The place of a text among texts.
pub open spec fn place_of(names: Seq<Seq<char>>, name: Seq<char>) -> int {
    choose|i: int| 0 <= i < names.len() && names[i] == name
}

impl<V: DeepView> DeepView for TextMap<V> {
    type V = Map<Seq<char>, V::V>;

    closed spec fn deep_view(&self) -> Map<Seq<char>, V::V> {
        pairs(self.names.deep_view(), self.values.deep_view())
    }
}

/// The map that takes each name to the value at the same place.
pub open spec fn pairs<M>(names: Seq<Seq<char>>, values: Seq<M>) -> Map<Seq<char>, M> {
    Map::new(|n: Seq<char>| names.contains(n), |n: Seq<char>| values[place_of(names, n)])
}

proof fn lemma_place(names: Seq<Seq<char>>, i: int)
    requires
        order::strictly_sorted::<ByText>(names),
        0 <= i < names.len(),
    ensures
        place_of(names, names[i]) == i,
        names.contains(names[i]),
{
    let j = place_of(names, names[i]);
    assert(0 <= j < names.len() && names[j] == names[i]);
    order::lemma_lex_irreflexive(ByText::key(names[i]));
    if i < j {
        assert(order::lex_lt(ByText::key(names[i]), ByText::key(names[j])));
    } else if j < i {
        assert(order::lex_lt(ByText::key(names[j]), ByText::key(names[i])));
    }
}

/// The place where `name` stands, or else the place where it would have to be put.
fn seek(names: &Vec<String>, name: &str) -> (r: (bool, usize))
    requires
        order::strictly_sorted::<ByText>(names.deep_view()),
    ensures
        r.0 == names.deep_view().contains(name@),
        r.1 <= names.len(),
        r.0 ==> r.1 < names.len() && names.deep_view()[r.1 as int] == name@,
        !r.0 ==> (forall|i: int|
            0 <= i < r.1 ==> order::lex_lt(
                #[trigger] ByText::key(names.deep_view()[i]),
                ByText::key(name@),
            )),
        !r.0 ==> (forall|i: int|
            r.1 <= i < names.len() ==> order::lex_lt(
                ByText::key(name@),
                #[trigger] ByText::key(names.deep_view()[i]),
            )),
{
    let mut lo: usize = 0;
    let mut hi: usize = names.len();
    let ghost s = names.deep_view();
    let ghost k = ByText::key(name@);
    while lo < hi
        invariant
            lo <= hi <= names.len(),
            s == names.deep_view(),
            k == ByText::key(name@),
            order::strictly_sorted::<ByText>(s),
            forall|i: int| 0 <= i < lo ==> order::lex_lt(#[trigger] ByText::key(s[i]), k),
            forall|i: int| hi <= i < names.len() ==> order::lex_lt(k, #[trigger] ByText::key(s[i])),
        decreases hi - lo,
    {
        let mid: usize = lo + (hi - lo) / 2;
        let r = text::rel_text(names[mid].as_str(), name);
        proof {
            order::lemma_lex_total(ByText::key(s[mid as int]), k);
            text::lemma_text_key_apart(s[mid as int], name@);
        }
        match r {
            Rel::Equal => {
                assert(s[mid as int] == name@);
                return (true, mid);
            },
            Rel::Less => {
                proof {
                    assert forall|i: int| 0 <= i <= mid implies order::lex_lt(
                        #[trigger] ByText::key(s[i]),
                        k,
                    ) by {
                        if i < mid {
                            order::lemma_lex_transitive(
                                ByText::key(s[i]),
                                ByText::key(s[mid as int]),
                                k,
                            );
                        }
                    }
                }
                lo = mid + 1;
            },
            Rel::Greater => {
                proof {
                    assert forall|i: int| mid <= i < names.len() implies order::lex_lt(
                        k,
                        #[trigger] ByText::key(s[i]),
                    ) by {
                        if i > mid {
                            order::lemma_lex_transitive(
                                k,
                                ByText::key(s[mid as int]),
                                ByText::key(s[i]),
                            );
                        }
                    }
                }
                hi = mid;
            },
        }
    }
    proof {
        if s.contains(name@) {
            let i = choose|i: int| 0 <= i < s.len() && s[i] == name@;
            order::lemma_lex_irreflexive(k);
            assert(order::lex_lt(ByText::key(s[i]), k) || order::lex_lt(k, ByText::key(s[i])));
        }
    }
    (false, lo)
}

impl<V> TextMap<V> {
    #[verifier::type_invariant]
    spec fn ordered(self) -> bool {
        &&& self.names.len() == self.values.len()
        &&& order::strictly_sorted::<ByText>(self.names.deep_view())
    }
}

impl<V: DeepView> TextMap<V> {
    /// The empty map.
    pub fn new() -> (r: TextMap<V>)
        ensures
            r.deep_view() == Map::<Seq<char>, V::V>::empty(),
    {
        let names: Vec<String> = Vec::new();
        let values: Vec<V> = Vec::new();
        let r = TextMap { names, values };
        assert(r.deep_view() =~= Map::<Seq<char>, V::V>::empty());
        r
    }

    /// The value for `name`.
    pub fn get(&self, name: &str) -> (r: Option<&V>)
        ensures
            r is Some == self.deep_view().dom().contains(name@),
            r matches Some(v) ==> v.deep_view() == self.deep_view()[name@],
    {
        proof {
            use_type_invariant(self);
        }
        let (found, i) = seek(&self.names, name);
        if found {
            proof {
                lemma_place(self.names.deep_view(), i as int);
            }
            Some(&self.values[i])
        } else {
            None
        }
    }

    /// Whether there is a value for `name`.
    pub fn has(&self, name: &str) -> (r: bool)
        ensures
            r == self.deep_view().dom().contains(name@),
    {
        proof {
            use_type_invariant(self);
        }
        let (found, _) = seek(&self.names, name);
        found
    }

    /// Whether there is no value at all.
    pub fn is_empty(&self) -> (r: bool)
        ensures
            r == (self.deep_view() == Map::<Seq<char>, V::V>::empty()),
    {
        proof {
            use_type_invariant(self);
            let m = self.deep_view();
            if self.names.len() > 0 {
                lemma_place(self.names.deep_view(), 0);
                assert(m.dom().contains(self.names.deep_view()[0]));
            } else {
                assert(m =~= Map::<Seq<char>, V::V>::empty());
            }
        }
        self.names.len() == 0
    }

    /// The names that have a value, in order.
    pub fn names(&self) -> (r: &Vec<String>)
        ensures
            order::strictly_sorted::<ByText>(r.deep_view()),
            forall|n: Seq<char>| #[trigger]
                self.deep_view().dom().contains(n) == r.deep_view().contains(n),
    {
        proof {
            use_type_invariant(self);
        }
        &self.names
    }

    /// The map with `value` for `name`, in place of any value that it had.
    pub fn insert(self, name: String, value: V) -> (r: TextMap<V>)
        ensures
            r.deep_view() == self.deep_view().insert(name@, value.deep_view()),
    {
        proof {
            use_type_invariant(&self);
        }
        let ghost before = self.deep_view();
        let ghost s = self.names.deep_view();
        let ghost t = self.values.deep_view();
        let TextMap { names, values } = self;
        let mut names = names;
        let mut values = values;
        let (found, i) = seek(&names, name.as_str());
        let ghost n = name@;
        let ghost v = value.deep_view();
        if found {
            values.set(i, value);
            proof {
                assert(values.deep_view() =~= t.update(i as int, v));
                let after = pairs(s, values.deep_view());
                assert forall|x: Seq<char>| #[trigger] after.dom().contains(x) implies after[x]
                    == before.insert(n, v)[x] by {
                    let j = choose|j: int| 0 <= j < s.len() && s[j] == x;
                    lemma_place(s, j);
                    lemma_place(s, i as int);
                }
                assert(after =~= before.insert(n, v));
            }
            TextMap { names, values }
        } else {
            names.insert(i, name);
            values.insert(i, value);
            proof {
                let ns = names.deep_view();
                let vs = values.deep_view();
                assert(ns =~= s.insert(i as int, n));
                assert(vs =~= t.insert(i as int, v));
                assert forall|a: int, b: int| 0 <= a < b < ns.len() implies order::lex_lt(
                    #[trigger] ByText::key(ns[a]),
                    #[trigger] ByText::key(ns[b]),
                ) by {
                    let p: int = if a < i {
                        a
                    } else {
                        a - 1
                    };
                    let q: int = if b < i {
                        b
                    } else {
                        b - 1
                    };
                    if a != i {
                        assert(ns[a] == s[p]);
                    }
                    if b != i {
                        assert(ns[b] == s[q]);
                    }
                }
                let after = pairs(ns, vs);
                assert forall|x: Seq<char>| after.dom().contains(x) == before.insert(
                    n,
                    v,
                ).dom().contains(x) by {
                    if ns.contains(x) {
                        let j = choose|j: int| 0 <= j < ns.len() && ns[j] == x;
                        if j != i {
                            let p: int = if j < i {
                                j
                            } else {
                                j - 1
                            };
                            assert(s[p] == x);
                        }
                    }
                    if s.contains(x) {
                        let j = choose|j: int| 0 <= j < s.len() && s[j] == x;
                        let p: int = if j < i {
                            j
                        } else {
                            j + 1
                        };
                        assert(ns[p] == x);
                    }
                    assert(ns[i as int] == n);
                }
                assert forall|x: Seq<char>| #[trigger] after.dom().contains(x) implies after[x]
                    == before.insert(n, v)[x] by {
                    let j = choose|j: int| 0 <= j < ns.len() && ns[j] == x;
                    lemma_place(ns, j);
                    if j != i {
                        let p: int = if j < i {
                            j
                        } else {
                            j - 1
                        };
                        assert(s[p] == x);
                        lemma_place(s, p);
                        assert(!s.contains(n));
                    } else {
                        assert(x == n);
                    }
                }
                assert(after =~= before.insert(n, v));
            }
            TextMap { names, values }
        }
    }

    /// The value for `name`, taken out, and the map without it.
    pub fn take(self, name: &str) -> (r: (TextMap<V>, Option<V>))
        ensures
            r.0.deep_view() == self.deep_view().remove(name@),
            r.1 is Some == self.deep_view().dom().contains(name@),
            r.1 matches Some(v) ==> v.deep_view() == self.deep_view()[name@],
    {
        proof {
            use_type_invariant(&self);
        }
        let ghost before = self.deep_view();
        let ghost s = self.names.deep_view();
        let ghost t = self.values.deep_view();
        let TextMap { names, values } = self;
        let mut names = names;
        let mut values = values;
        let (found, i) = seek(&names, name);
        let ghost n = name@;
        if !found {
            assert(before.remove(n) =~= before);
            return (TextMap { names, values }, None);
        }
        names.remove(i);
        let value: V = values.remove(i);
        proof {
            let ns = names.deep_view();
            let vs = values.deep_view();
            assert(ns =~= s.remove(i as int));
            assert(vs =~= t.remove(i as int));
            assert forall|a: int, b: int| 0 <= a < b < ns.len() implies order::lex_lt(
                #[trigger] ByText::key(ns[a]),
                #[trigger] ByText::key(ns[b]),
            ) by {
                let p: int = if a < i {
                    a
                } else {
                    a + 1
                };
                let q: int = if b < i {
                    b
                } else {
                    b + 1
                };
                assert(ns[a] == s[p] && ns[b] == s[q]);
            }
            lemma_place(s, i as int);
            let after = pairs(ns, vs);
            assert forall|x: Seq<char>| after.dom().contains(x) == before.remove(n).dom().contains(
                x,
            ) by {
                if ns.contains(x) {
                    let j = choose|j: int| 0 <= j < ns.len() && ns[j] == x;
                    let p: int = if j < i {
                        j
                    } else {
                        j + 1
                    };
                    assert(s[p] == x);
                    lemma_place(s, p);
                }
                if s.contains(x) && x != n {
                    let j = choose|j: int| 0 <= j < s.len() && s[j] == x;
                    let p: int = if j < i {
                        j
                    } else {
                        j - 1
                    };
                    assert(ns[p] == x);
                }
            }
            assert forall|x: Seq<char>| #[trigger] after.dom().contains(x) implies after[x]
                == before.remove(n)[x] by {
                let j = choose|j: int| 0 <= j < ns.len() && ns[j] == x;
                lemma_place(ns, j);
                let p: int = if j < i {
                    j
                } else {
                    j + 1
                };
                assert(s[p] == x);
                lemma_place(s, p);
            }
            assert(after =~= before.remove(n));
        }
        (TextMap { names, values }, Some(value))
    }
}

} // verus!
