//! Which package asks for which, and the shortest chain by which one comes in.
use vstd::prelude::*;
use crate::order;
use crate::text;
use crate::textmap::TextMap;
use crate::value;

verus! {

/// What a [`DepGraph`] stands for.
#[verifier::ext_equal]
pub struct DepGraphM {
    pub root: Seq<char>,
    pub edges: Map<Seq<char>, Seq<Seq<char>>>,
}

/// The names that packages ask for, from a project down.
#[derive(Debug)]
pub struct DepGraph {
    root: String,
    edges: TextMap<Vec<String>>,
}

impl Default for DepGraph {
    /// The graph of a project without a name, without edges.
    fn default() -> (r: DepGraph)
        ensures
            r.deep_view() == (DepGraphM { root: Seq::empty(), edges: Map::empty() }),
    {
        DepGraph::new(String::new())
    }
}

impl DeepView for DepGraph {
    type V = DepGraphM;

    closed spec fn deep_view(&self) -> DepGraphM {
        DepGraphM { root: self.root@, edges: self.edges.deep_view() }
    }
}

impl DepGraphM {
    /// Whether `a` asks for `b`.
    pub open spec fn asks(self, a: Seq<char>, b: Seq<char>) -> bool {
        self.edges.dom().contains(a) && self.edges[a].contains(b)
    }

    /// A chain of names, each asking for the next.
    pub open spec fn is_chain(self, c: Seq<Seq<char>>) -> bool {
        forall|i: int| 0 <= i < c.len() - 1 ==> self.asks(#[trigger] c[i], c[i + 1])
    }

    /// A chain from the project to `target`.
    pub open spec fn leads_to(self, c: Seq<Seq<char>>, target: Seq<char>) -> bool {
        c.len() > 0 && c[0] == self.root && c.last() == target && self.is_chain(c)
    }

    /// A chain from the project to `target` that is not longer than any other, and of those
    /// the first in the order of the names.
    pub open spec fn first_shortest(self, c: Seq<Seq<char>>, target: Seq<char>) -> bool {
        &&& self.leads_to(c, target)
        &&& forall|d: Seq<Seq<char>>| #[trigger]
            self.leads_to(d, target) ==> c.len() < d.len() || (c.len() == d.len() && path_le(c, d))
    }

    /// What is given for `target`: the first of the shortest chains, and nothing where no chain
    /// leads there or for the project itself.
    pub open spec fn is_answer(self, c: Seq<Seq<char>>, target: Seq<char>) -> bool {
        if target == self.root || forall|d: Seq<Seq<char>>| !#[trigger] self.leads_to(d, target) {
            c.len() == 0
        } else {
            self.first_shortest(c, target)
        }
    }

    /// The chain to `target`.
    pub open spec fn chain(self, target: Seq<char>) -> Seq<Seq<char>> {
        choose|c: Seq<Seq<char>>| self.is_answer(c, target)
    }

    /// The graph with one more set of names that `from` asks for.
    pub open spec fn with_edges(self, from: Seq<char>, tos: Seq<Seq<char>>) -> DepGraphM {
        DepGraphM {
            edges: self.edges.insert(
                from,
                value::text_set(
                    (if self.edges.dom().contains(from) {
                        self.edges[from]
                    } else {
                        Seq::empty()
                    }) + tos,
                ),
            ),
            ..self
        }
    }
}

pub open spec fn text_before(a: Seq<char>, b: Seq<char>) -> bool {
    order::lex_lt(text::text_key(a), text::text_key(b))
}

/// The first names in which two sequences differ are in order.
pub open spec fn path_lt(a: Seq<Seq<char>>, b: Seq<Seq<char>>) -> bool {
    exists|k: int| #[trigger] differ_at(a, b, k) && text_before(a[k], b[k])
}

pub open spec fn differ_at(a: Seq<Seq<char>>, b: Seq<Seq<char>>, k: int) -> bool {
    0 <= k < a.len() && k < b.len() && a.take(k) == b.take(k) && a[k] != b[k]
}

pub open spec fn path_le(a: Seq<Seq<char>>, b: Seq<Seq<char>>) -> bool {
    a == b || path_lt(a, b)
}

proof fn lemma_before(a: Seq<char>, b: Seq<char>)
    ensures
        text_before(a, b) ==> a != b && !text_before(b, a),
{
    order::lemma_lex_total(text::text_key(a), text::text_key(b));
}

proof fn lemma_path_order(a: Seq<Seq<char>>, b: Seq<Seq<char>>, c: Seq<Seq<char>>)
    requires
        a.len() == b.len(),
        b.len() == c.len(),
    ensures
        !(path_lt(a, b) && path_lt(b, a)),
        path_lt(a, b) && path_le(b, c) ==> path_lt(a, c),
{
    if path_lt(a, b) {
        let k = choose|k: int| #[trigger] differ_at(a, b, k) && text_before(a[k], b[k]);
        if path_lt(b, a) {
            let j = choose|j: int| #[trigger] differ_at(b, a, j) && text_before(b[j], a[j]);
            if j < k {
                assert(a.take(k)[j] == b.take(k)[j]);
            } else if k < j {
                assert(a.take(j)[k] == b.take(j)[k]);
            }
            lemma_before(a[k], b[k]);
        }
        if path_lt(b, c) {
            let j = choose|j: int| #[trigger] differ_at(b, c, j) && text_before(b[j], c[j]);
            if j < k {
                assert(a.take(k)[j] == b.take(k)[j]);
                assert(a.take(j) =~= a.take(k).take(j));
                assert(b.take(j) =~= b.take(k).take(j));
                assert(differ_at(a, c, j));
            } else {
                assert(c.take(k) =~= c.take(j).take(k));
                assert(b.take(k) =~= b.take(j).take(k));
                if k < j {
                    assert(b.take(j)[k] == c.take(j)[k]);
                } else {
                    order::lemma_lex_transitive(
                        text::text_key(a[k]),
                        text::text_key(b[k]),
                        text::text_key(c[k]),
                    );
                    lemma_before(a[k], c[k]);
                }
                assert(differ_at(a, c, k));
            }
        }
    }
}

/// What follows does not matter to two different sequences of the same length; after equal
/// ones the next names decide.
proof fn lemma_path_push(a: Seq<Seq<char>>, b: Seq<Seq<char>>, x: Seq<char>, y: Seq<char>)
    requires
        a.len() == b.len(),
    ensures
        path_lt(a, b) ==> path_lt(a.push(x), b.push(y)),
        a == b && text_before(x, y) ==> path_lt(a.push(x), b.push(y)),
{
    let p = a.push(x);
    let q = b.push(y);
    if path_lt(a, b) {
        let k = choose|k: int| #[trigger] differ_at(a, b, k) && text_before(a[k], b[k]);
        assert(p.take(k) =~= a.take(k));
        assert(q.take(k) =~= b.take(k));
        assert(differ_at(p, q, k));
    }
    if a == b && text_before(x, y) {
        lemma_before(x, y);
        assert(p.take(a.len() as int) =~= a);
        assert(q.take(a.len() as int) =~= b);
        assert(differ_at(p, q, a.len() as int));
    }
}

/// There is one answer only.
pub proof fn chain_is_unique(g: DepGraphM, target: Seq<char>, c: Seq<Seq<char>>)
    requires
        g.is_answer(c, target),
    ensures
        c == g.chain(target),
{
    let d = g.chain(target);
    assert(g.is_answer(d, target));
    if c.len() > 0 && d.len() > 0 {
        assert(g.leads_to(c, target) && g.leads_to(d, target));
        lemma_path_order(c, d, c);
        assert(c == d);
    } else {
        assert(c =~= d);
    }
}

/// The names that are asked for by the names in `names`.
spec fn asked_for(edges: Map<Seq<char>, Seq<Seq<char>>>, names: Seq<Seq<char>>) -> Set<Seq<char>>
    decreases names.len(),
{
    if names.len() == 0 {
        Set::empty()
    } else {
        asked_for(edges, names.drop_last()).union(edges[names.last()].to_set())
    }
}

proof fn lemma_asked_for(
    edges: Map<Seq<char>, Seq<Seq<char>>>,
    names: Seq<Seq<char>>,
    a: Seq<char>,
    b: Seq<char>,
)
    ensures
        asked_for(edges, names).finite(),
        names.contains(a) && edges[a].contains(b) ==> asked_for(edges, names).contains(b),
    decreases names.len(),
{
    if names.len() > 0 {
        let l = names.drop_last();
        lemma_asked_for(edges, l, a, b);
        edges[names.last()].lemma_cardinality_of_set();
        if names.contains(a) && a != names.last() {
            let i = choose|i: int| 0 <= i < names.len() && names[i] == a;
            assert(l[i] == a);
        }
    }
}

/// What holds while the graph is searched: names are found once each, level by level and in
/// order, each under the first name that asks for it, and those before `head` have had all that
/// they ask for found.
spec fn searched(
    g: DepGraphM,
    nodes: Seq<Seq<char>>,
    parent: Seq<usize>,
    depth: Seq<int>,
    head: int,
) -> bool {
    &&& nodes.len() > 0
    &&& nodes[0] == g.root
    &&& nodes.len() == parent.len()
    &&& nodes.len() == depth.len()
    &&& nodes.no_duplicates()
    &&& depth[0] == 0
    &&& parent[0] == 0
    &&& 0 <= head <= nodes.len()
    &&& forall|i: int, j: int| 0 <= i <= j < nodes.len() ==> #[trigger] depth[i] <= #[trigger] depth[j]
    &&& forall|i: int|
        0 < i < nodes.len() ==> #[trigger] parent[i] < i && g.asks(
            nodes[parent[i] as int],
            nodes[i],
        ) && depth[i] == depth[parent[i] as int] + 1
    &&& forall|i: int, j: int|
        0 < i < j < nodes.len() ==> #[trigger] parent[i] < #[trigger] parent[j] || (parent[i]
            == parent[j] && text_before(nodes[i], nodes[j]))
    &&& forall|i: int, b: Seq<char>|
        0 <= i < head && #[trigger] g.asks(nodes[i], b) ==> found_by(nodes, parent, depth, b, i)
}

/// `b` is found, no deeper than right below place `i` and under nothing later than it.
spec fn found_by(
    nodes: Seq<Seq<char>>,
    parent: Seq<usize>,
    depth: Seq<int>,
    b: Seq<char>,
    i: int,
) -> bool {
    exists|j: int|
        0 <= j < nodes.len() && #[trigger] nodes[j] == b && depth[j] <= depth[i] + 1 && parent[j]
            <= i
}

spec fn found_within(nodes: Seq<Seq<char>>, depth: Seq<int>, b: Seq<char>, d: int) -> bool {
    exists|j: int| 0 <= j < nodes.len() && #[trigger] nodes[j] == b && depth[j] <= d
}

/// The names from the project to the one at place `j`.
spec fn path(nodes: Seq<Seq<char>>, parent: Seq<usize>, j: int) -> Seq<Seq<char>>
    decreases j,
{
    if j <= 0 || parent[j] >= j {
        seq![nodes[0]]
    } else {
        path(nodes, parent, parent[j] as int).push(nodes[j])
    }
}

proof fn lemma_path(
    g: DepGraphM,
    nodes: Seq<Seq<char>>,
    parent: Seq<usize>,
    depth: Seq<int>,
    head: int,
    j: int,
)
    requires
        searched(g, nodes, parent, depth, head),
        0 <= j < nodes.len(),
    ensures
        g.leads_to(path(nodes, parent, j), nodes[j]),
        path(nodes, parent, j).len() == depth[j] + 1,
    decreases j,
{
    if j > 0 {
        assert(parent[j] < j);
        let p = path(nodes, parent, parent[j] as int);
        lemma_path(g, nodes, parent, depth, head, parent[j] as int);
        let q = p.push(nodes[j]);
        assert forall|i: int| 0 <= i < q.len() - 1 implies g.asks(#[trigger] q[i], q[i + 1]) by {
            if i < p.len() - 1 {
                assert(g.asks(p[i], p[i + 1]));
            }
        }
    }
}

/// On one level, what is found earlier has the earlier path.
proof fn lemma_level_order(
    g: DepGraphM,
    nodes: Seq<Seq<char>>,
    parent: Seq<usize>,
    depth: Seq<int>,
    head: int,
    i: int,
    j: int,
)
    requires
        searched(g, nodes, parent, depth, head),
        0 <= i < j < nodes.len(),
        depth[i] == depth[j],
    ensures
        path_lt(path(nodes, parent, i), path(nodes, parent, j)),
    decreases j,
{
    assert(parent[j] < j);
    assert(depth[0] <= depth[parent[j] as int]);
    assert(i > 0);
    assert(parent[i] < i);
    let a = parent[i] as int;
    let b = parent[j] as int;
    lemma_path(g, nodes, parent, depth, head, a);
    lemma_path(g, nodes, parent, depth, head, b);
    if a < b {
        lemma_level_order(g, nodes, parent, depth, head, a, b);
    }
    lemma_path_push(path(nodes, parent, a), path(nodes, parent, b), nodes[i], nodes[j]);
}

/// A chain stays within what was found as long as it has not got past what was searched.
proof fn lemma_chain_found(
    g: DepGraphM,
    nodes: Seq<Seq<char>>,
    parent: Seq<usize>,
    depth: Seq<int>,
    head: int,
    c: Seq<Seq<char>>,
    k: int,
)
    requires
        searched(g, nodes, parent, depth, head),
        c.len() > 0,
        c[0] == g.root,
        g.is_chain(c),
        0 <= k < c.len(),
        head == nodes.len() || k <= depth[head],
    ensures
        found_within(nodes, depth, c[k], k),
    decreases k,
{
    if k == 0 {
        assert(nodes[0] == c[0] && depth[0] <= 0);
    } else {
        lemma_chain_found(g, nodes, parent, depth, head, c, k - 1);
        let j = choose|j: int|
            0 <= j < nodes.len() && #[trigger] nodes[j] == c[k - 1] && depth[j] <= k - 1;
        assert(j < head) by {
            if j >= head {
                assert(depth[head] <= depth[j]);
            }
        }
        assert(g.asks(c[k - 1], c[k - 1 + 1]));
        assert(g.asks(nodes[j], c[k]));
        assert(found_by(nodes, parent, depth, c[k], j));
        let i = choose|i: int|
            0 <= i < nodes.len() && #[trigger] nodes[i] == c[k] && depth[i] <= depth[j] + 1
                && parent[i] <= j;
        assert(nodes[i] == c[k] && depth[i] <= k);
    }
}

/// No chain as short as the path to a name comes before that path.
proof fn lemma_path_first(
    g: DepGraphM,
    nodes: Seq<Seq<char>>,
    parent: Seq<usize>,
    depth: Seq<int>,
    head: int,
    c: Seq<Seq<char>>,
    k: int,
    q: int,
)
    requires
        searched(g, nodes, parent, depth, head),
        c.len() > 0,
        c[0] == g.root,
        g.is_chain(c),
        0 <= k < c.len(),
        head == nodes.len() || k <= depth[head],
        0 <= q < nodes.len(),
        nodes[q] == c[k],
        depth[q] == k,
    ensures
        path_le(path(nodes, parent, q), c.take(k + 1)),
    decreases k,
{
    if k == 0 {
        if q > 0 {
            assert(depth[0] <= depth[parent[q] as int]);
        }
        assert(path(nodes, parent, q) =~= c.take(1));
    } else {
        assert(q > 0);
        assert(parent[q] < q);
        lemma_chain_found(g, nodes, parent, depth, head, c, k - 1);
        let r = choose|r: int|
            0 <= r < nodes.len() && #[trigger] nodes[r] == c[k - 1] && depth[r] <= k - 1;
        assert(r < head) by {
            if r >= head {
                assert(depth[head] <= depth[r]);
            }
        }
        assert(g.asks(c[k - 1], c[k - 1 + 1]));
        assert(g.asks(nodes[r], c[k]));
        assert(found_by(nodes, parent, depth, c[k], r));
        let i = choose|i: int|
            0 <= i < nodes.len() && #[trigger] nodes[i] == c[k] && depth[i] <= depth[r] + 1
                && parent[i] <= r;
        assert(i == q);
        assert(depth[r] == k - 1);
        lemma_path_first(g, nodes, parent, depth, head, c, k - 1, r);
        let p = parent[q] as int;
        let a = path(nodes, parent, p);
        let b = path(nodes, parent, r);
        let d = c.take(k);
        lemma_path(g, nodes, parent, depth, head, p);
        lemma_path(g, nodes, parent, depth, head, r);
        assert(c.take(k - 1 + 1) == d);
        if p < r {
            lemma_level_order(g, nodes, parent, depth, head, p, r);
            lemma_path_order(a, b, d);
        }
        assert(path_le(a, d));
        lemma_path_push(a, d, nodes[q], c[k]);
        assert(c.take(k + 1) =~= d.push(c[k]));
        assert(path(nodes, parent, q) == a.push(nodes[q]));
    }
}

impl DepGraph {
    /// What each name asks for is kept in order.
    #[verifier::type_invariant]
    spec fn in_order(self) -> bool {
        forall|n: Seq<char>| #[trigger]
            self.edges.deep_view().dom().contains(n) ==> order::strictly_sorted::<value::ByText>(
                self.edges.deep_view()[n],
            )
    }

    /// The graph of the project `root`, without edges.
    pub fn new(root: String) -> (r: DepGraph)
        ensures
            r.deep_view() == (DepGraphM { root: root@, edges: Map::empty() }),
    {
        DepGraph { root, edges: TextMap::new() }
    }

    /// Records that `from` asks for each of `tos`.
    pub fn add_edges(&mut self, from: &str, tos: Vec<String>)
        ensures
            final(self).deep_view() == old(self).deep_view().with_edges(from@, tos.deep_view()),
    {
        proof {
            use_type_invariant(&*self);
        }
        let ghost before = self.edges.deep_view();
        let mut edges: TextMap<Vec<String>> = TextMap::new();
        std::mem::swap(&mut edges, &mut self.edges);
        let (rest, had) = edges.take(from);
        let mut set: Vec<String> = match had {
            Some(s) => s,
            None => Vec::new(),
        };
        proof {
            if had is None {
                assert(set.deep_view() =~= Seq::empty());
            }
        }
        value::append(&mut set, tos);
        proof {
            value::lemma_text_set(set.deep_view());
        }
        let all: TextMap<Vec<String>> = rest.insert(from.to_owned(), value::sort_texts(set));
        assert(all.deep_view() =~= before.insert(from@, all.deep_view()[from@]));
        self.edges = all;
    }

    /// Whether there are no edges at all.
    pub fn is_empty(&self) -> (r: bool)
        ensures
            r == forall|a: Seq<char>, b: Seq<char>| !#[trigger] self.deep_view().asks(a, b),
    {
        let ghost g = self.deep_view();
        let names: &Vec<String> = self.edges.names();
        let ghost all = names.deep_view();
        let mut i: usize = 0;
        while i < names.len()
            invariant
                i <= names.len(),
                g == self.deep_view(),
                all == names.deep_view(),
                forall|j: int|
                    0 <= j < i ==> g.edges.dom().contains(#[trigger] all[j])
                        && g.edges[all[j]].len() == 0,
                forall|n: Seq<char>| #[trigger] g.edges.dom().contains(n) == all.contains(n),
            decreases names.len() - i,
        {
            assert(all[i as int] == names@[i as int]@);
            assert(all.contains(all[i as int]));
            match self.edges.get(names[i].as_str()) {
                Some(tos) => {
                    if tos.len() > 0 {
                        proof {
                            let b = tos.deep_view()[0];
                            assert(g.edges[all[i as int]].contains(b));
                            assert(g.asks(all[i as int], b));
                        }
                        return false;
                    }
                },
                None => {},
            }
            i += 1;
        }
        assert forall|a: Seq<char>, b: Seq<char>| !#[trigger] g.asks(a, b) by {
            if g.asks(a, b) {
                let j = choose|j: int| 0 <= j < all.len() && all[j] == a;
                assert(g.edges[all[j]].len() == 0);
            }
        }
        true
    }

    /// The first of the shortest chains of names from the project to `target`, both included.
    /// Empty where no chain leads there, and for the project itself.
    pub fn chain_to(&self, target: &str) -> (r: Vec<String>)
        ensures
            r.deep_view() == self.deep_view().chain(target@),
            self.deep_view().is_answer(r.deep_view(), target@),
    {
        proof {
            use_type_invariant(self);
        }
        let ghost g = self.deep_view();
        let ghost t = target@;
        if self.edges.is_empty() || text::same(self.root.as_str(), target) {
            let r: Vec<String> = Vec::new();
            proof {
                assert forall|c: Seq<Seq<char>>| target@ != g.root implies !#[trigger] g.leads_to(
                    c,
                    t,
                ) by {
                    if g.leads_to(c, t) {
                        assert(c.len() > 1);
                        assert(g.asks(c[0int], c[0int + 1]));
                    }
                }
                assert(r.deep_view().len() == 0);
                chain_is_unique(g, t, r.deep_view());
            }
            return r;
        }
        let names: &Vec<String> = self.edges.names();
        let ghost universe = asked_for(g.edges, names.deep_view()).insert(g.root);
        proof {
            lemma_asked_for(g.edges, names.deep_view(), g.root, g.root);
        }
        let mut nodes: Vec<String> = Vec::new();
        let mut parent: Vec<usize> = Vec::new();
        let ghost mut depth: Seq<int> = seq![0int];
        let mut seen: TextMap<bool> = TextMap::new();
        nodes.push(self.root.clone());
        parent.push(0);
        seen = seen.insert(self.root.clone(), true);
        proof {
            assert(nodes.deep_view() =~= seq![g.root]);
            assert forall|n: Seq<char>| seen.deep_view().dom().contains(n)
                == nodes.deep_view().contains(n) by {
                if n == g.root {
                    assert(nodes.deep_view()[0] == n);
                }
            }
        }
        let mut head: usize = 0;
        let mut at_target: bool = false;
        while head < nodes.len() && !at_target
            invariant
                g == self.deep_view(),
                t == target@,
                t != g.root,
                universe == asked_for(g.edges, names.deep_view()).insert(g.root),
                universe.finite(),
                forall|n: Seq<char>| #[trigger]
                    g.edges.dom().contains(n) == names.deep_view().contains(n),
                searched(g, nodes.deep_view(), parent@, depth, head as int),
                nodes.len() == parent.len(),
                forall|n: Seq<char>| #[trigger]
                    g.edges.dom().contains(n) ==> order::strictly_sorted::<value::ByText>(
                        g.edges[n],
                    ),
                forall|q: int| 0 < q < parent.len() ==> #[trigger] parent@[q] < head,
                head < nodes.len() ==> depth.last() <= depth[head as int] + 1,
                forall|i: int|
                    0 <= i < nodes.len() ==> universe.contains(#[trigger] nodes.deep_view()[i]),
                forall|n: Seq<char>| #[trigger]
                    seen.deep_view().dom().contains(n) == nodes.deep_view().contains(n),
                at_target ==> head < nodes.len() && nodes.deep_view()[head as int] == t,
                !at_target ==> forall|i: int|
                    0 <= i < head ==> #[trigger] nodes.deep_view()[i] != t,
            decreases universe.len() - head, (if at_target { 0int } else { 1int }),
        {
            proof {
                lemma_bounded(nodes.deep_view(), universe);
                assert(nodes.deep_view().len() == nodes.len());
            }
            let node: String = nodes[head].clone();
            if text::same(node.as_str(), target) {
                at_target = true;
            } else {
                match self.edges.get(node.as_str()) {
                    Some(deps) => {
                        let mut i: usize = 0;
                        while i < deps.len()
                            invariant
                                g == self.deep_view(),
                                head < nodes.len(),
                                nodes.deep_view()[head as int] == node@,
                                g.edges.dom().contains(node@),
                                deps.deep_view() == g.edges[node@],
                                order::strictly_sorted::<value::ByText>(deps.deep_view()),
                                i <= deps.len(),
                                forall|q: int|
                                    0 < q < parent.len() ==> #[trigger] parent@[q] <= head,
                                forall|q: int|
                                    0 < q < parent.len() && #[trigger] parent@[q] == head
                                        ==> among(
                                        deps.deep_view(),
                                        i as int,
                                        nodes.deep_view()[q],
                                    ),
                                universe == asked_for(g.edges, names.deep_view()).insert(g.root),
                                forall|n: Seq<char>| #[trigger]
                                    g.edges.dom().contains(n) == names.deep_view().contains(n),
                                searched(g, nodes.deep_view(), parent@, depth, head as int),
                                nodes.len() == parent.len(),
                                depth.last() <= depth[head as int] + 1,
                                forall|j: int|
                                    0 <= j < i ==> found_by(
                                        nodes.deep_view(),
                                        parent@,
                                        depth,
                                        #[trigger] deps.deep_view()[j],
                                        head as int,
                                    ),
                                forall|j: int|
                                    0 <= j < nodes.len() ==> universe.contains(
                                        #[trigger] nodes.deep_view()[j],
                                    ),
                                forall|n: Seq<char>| #[trigger]
                                    seen.deep_view().dom().contains(n)
                                        == nodes.deep_view().contains(n),
                                forall|j: int|
                                    0 <= j <= head ==> #[trigger] nodes.deep_view()[j] != t,
                            decreases deps.len() - i,
                        {
                            let dep: &String = &deps[i];
                            let ghost ns = nodes.deep_view();
                            let ghost ds = depth;
                            let ghost ps = parent@;
                            let ghost d = dep@;
                            proof {
                                assert(deps.deep_view()[i as int] == d);
                                assert(g.edges[node@].contains(d));
                                lemma_asked_for(g.edges, names.deep_view(), node@, d);
                            }
                            if !seen.has(dep.as_str()) {
                                seen = seen.insert(dep.clone(), true);
                                nodes.push(dep.clone());
                                parent.push(head);
                                proof {
                                    depth = depth.push(depth[head as int] + 1);
                                    let after = nodes.deep_view();
                                    assert(after =~= ns.push(d));
                                    assert forall|q: int|
                                        0 < q < ps.len() && #[trigger] ps[q]
                                            == head implies text_before(ns[q], d) by {
                                        let x = choose|x: int|
                                            0 <= x < i && #[trigger] deps.deep_view()[x] == ns[q];
                                        assert(order::lex_lt(
                                            <value::ByText as order::Order>::key(
                                                deps.deep_view()[x],
                                            ),
                                            <value::ByText as order::Order>::key(
                                                deps.deep_view()[i as int],
                                            ),
                                        ));
                                    }
                                    lemma_push_found(g, ns, ps, ds, head as int, d);
                                    assert forall|q: int|
                                        0 < q < parent@.len() && #[trigger] parent@[q]
                                            == head implies among(
                                        deps.deep_view(),
                                        i + 1,
                                        after[q],
                                    ) by {
                                        if q < ps.len() {
                                            assert(ps[q] == head);
                                            assert(among(deps.deep_view(), i as int, ns[q]));
                                            let x = choose|x: int|
                                                0 <= x < i && #[trigger] deps.deep_view()[x]
                                                    == ns[q];
                                            assert(deps.deep_view()[x] == after[q]);
                                        } else {
                                            assert(deps.deep_view()[i as int] == after[q]);
                                        }
                                    }
                                    assert forall|n: Seq<char>| #[trigger]
                                        seen.deep_view().dom().contains(n) == after.contains(n) by {
                                        if ns.contains(n) {
                                            let j = choose|j: int| 0 <= j < ns.len() && ns[j] == n;
                                            assert(after[j] == n);
                                        }
                                        assert(after[ns.len() as int] == d);
                                        if after.contains(n) {
                                            let j = choose|j: int|
                                                0 <= j < after.len() && after[j] == n;
                                            if j < ns.len() {
                                                assert(ns[j] == n);
                                            }
                                        }
                                    }
                                    assert forall|j: int|
                                        0 <= j < after.len() implies universe.contains(
                                        #[trigger] after[j],
                                    ) by {
                                        if j < ns.len() {
                                            assert(after[j] == ns[j]);
                                        }
                                    }
                                    assert forall|j: int| 0 <= j < i implies found_by(
                                        after,
                                        parent@,
                                        depth,
                                        #[trigger] deps.deep_view()[j],
                                        head as int,
                                    ) by {
                                        let b = deps.deep_view()[j];
                                        assert(found_by(ns, ps, ds, b, head as int));
                                        let q = choose|q: int|
                                            0 <= q < ns.len() && #[trigger] ns[q] == b && ds[q]
                                                <= ds[head as int] + 1 && ps[q] <= head;
                                        assert(after[q] == b && depth[q] == ds[q] && parent@[q]
                                            == ps[q]);
                                    }
                                    assert(after[ns.len() as int] == d && depth[ns.len() as int]
                                        <= depth[head as int] + 1);
                                }
                            } else {
                                proof {
                                    let j = choose|j: int| 0 <= j < ns.len() && ns[j] == d;
                                    assert(depth[j] <= depth[ns.len() - 1]);
                                    assert(parent@[j] <= head);
                                    assert(ns[j] == d && depth[j] <= depth[head as int] + 1);
                                    assert(found_by(ns, parent@, depth, d, head as int));
                                    assert forall|q: int|
                                        0 < q < parent@.len() && #[trigger] parent@[q]
                                            == head implies among(
                                        deps.deep_view(),
                                        i + 1,
                                        ns[q],
                                    ) by {
                                        assert(among(deps.deep_view(), i as int, ns[q]));
                                        let x = choose|x: int|
                                            0 <= x < i && #[trigger] deps.deep_view()[x] == ns[q];
                                        assert(deps.deep_view()[x] == ns[q]);
                                    }
                                }
                            }
                            i += 1;
                        }
                        proof {
                            let ns = nodes.deep_view();
                            assert forall|b: Seq<char>| #[trigger] g.asks(
                                ns[head as int],
                                b,
                            ) implies found_by(ns, parent@, depth, b, head as int) by {
                                let j = choose|j: int|
                                    0 <= j < deps.deep_view().len() && deps.deep_view()[j] == b;
                                assert(found_by(
                                    ns,
                                    parent@,
                                    depth,
                                    deps.deep_view()[j],
                                    head as int,
                                ));
                            }
                            assert(searched(g, ns, parent@, depth, head + 1));
                        }
                    },
                    None => {
                        assert(searched(g, nodes.deep_view(), parent@, depth, head + 1));
                    },
                }
                proof {
                    if head + 1 < nodes.len() {
                        assert(depth[head as int] <= depth[head + 1]);
                    }
                }
                head += 1;
            }
        }
        let ghost ns = nodes.deep_view();
        if !at_target {
            let none: Vec<String> = Vec::new();
            proof {
                lemma_not_found(g, ns, parent@, depth, t);
                assert(none.deep_view().len() == 0);
                chain_is_unique(g, t, none.deep_view());
            }
            return none;
        }
        let r: Vec<String> = read_back(&nodes, &parent, head);
        proof {
            lemma_found(g, ns, parent@, depth, head as int);
            chain_is_unique(g, t, r.deep_view());
        }
        r
    }
}

/// The names from the project to the one at place `head`.
fn read_back(nodes: &Vec<String>, parent: &Vec<usize>, head: usize) -> (r: Vec<String>)
    requires
        head < nodes.len(),
        nodes.len() == parent.len(),
        forall|q: int| 0 < q < parent.len() ==> #[trigger] parent@[q] < q,
    ensures
        r.deep_view() == path(nodes.deep_view(), parent@, head as int),
{
    let ghost ns = nodes.deep_view();
    let mut back: Vec<String> = Vec::new();
    let mut cursor: usize = head;
    back.push(nodes[head].clone());
    proof {
        assert(back.deep_view() =~= seq![ns[head as int]]);
        assert(path(ns, parent@, head as int) =~= path(ns, parent@, head as int)
            + back.deep_view().drop_last().reverse());
    }
    while cursor != 0
        invariant
            ns == nodes.deep_view(),
            nodes.len() == parent.len(),
            forall|q: int| 0 < q < parent.len() ==> #[trigger] parent@[q] < q,
            head < nodes.len(),
            cursor <= head,
            back.deep_view().len() > 0,
            back.deep_view().last() == ns[cursor as int],
            path(ns, parent@, head as int) == path(ns, parent@, cursor as int)
                + back.deep_view().drop_last().reverse(),
        decreases cursor,
    {
        let up: usize = parent[cursor];
        let ghost before = back.deep_view();
        let name: String = nodes[up].clone();
        back.push(name);
        proof {
            assert(back.deep_view() =~= before.push(ns[up as int]));
            assert(back.deep_view().drop_last() =~= before);
            assert(path(ns, parent@, head as int) =~= path(ns, parent@, up as int)
                + before.reverse());
        }
        cursor = up;
    }
    let ghost bs = back.deep_view();
    let mut r: Vec<String> = Vec::new();
    let mut i: usize = back.len();
    assert(bs.len() == back.len());
    while i > 0
        invariant
            i <= back.len(),
            bs == back.deep_view(),
            r.deep_view().len() == bs.len() - i,
            forall|j: int|
                0 <= j < r.deep_view().len() ==> #[trigger] r.deep_view()[j] == bs[bs.len() - 1
                    - j],
        decreases i,
    {
        i -= 1;
        let ghost before = r.deep_view();
        let name: String = back[i].clone();
        r.push(name);
        assert(r.deep_view() =~= before.push(bs[i as int]));
    }
    assert(r.deep_view() =~= path(ns, parent@, head as int));
    r
}

/// What a finished search did not find, no chain leads to.
proof fn lemma_not_found(
    g: DepGraphM,
    nodes: Seq<Seq<char>>,
    parent: Seq<usize>,
    depth: Seq<int>,
    t: Seq<char>,
)
    requires
        searched(g, nodes, parent, depth, nodes.len() as int),
        forall|i: int| 0 <= i < nodes.len() ==> #[trigger] nodes[i] != t,
    ensures
        forall|c: Seq<Seq<char>>| !#[trigger] g.leads_to(c, t),
{
    assert forall|c: Seq<Seq<char>>| !#[trigger] g.leads_to(c, t) by {
        if g.leads_to(c, t) {
            let k: int = c.len() - 1;
            lemma_chain_found(g, nodes, parent, depth, nodes.len() as int, c, k);
            let j = choose|j: int|
                0 <= j < nodes.len() && #[trigger] nodes[j] == c[k] && depth[j] <= k;
            assert(nodes[j] != t);
        }
    }
}

/// The path to the name that the search has come to is the first of the shortest chains to it.
proof fn lemma_found(
    g: DepGraphM,
    nodes: Seq<Seq<char>>,
    parent: Seq<usize>,
    depth: Seq<int>,
    head: int,
)
    requires
        searched(g, nodes, parent, depth, head),
        head < nodes.len(),
    ensures
        g.first_shortest(path(nodes, parent, head), nodes[head]),
{
    let t = nodes[head];
    let ps = path(nodes, parent, head);
    lemma_path(g, nodes, parent, depth, head, head);
    assert forall|c: Seq<Seq<char>>| #[trigger] g.leads_to(c, t) implies ps.len() < c.len() || (
    ps.len() == c.len() && path_le(ps, c)) by {
        let k: int = c.len() - 1;
        if k <= depth[head] {
            lemma_chain_found(g, nodes, parent, depth, head, c, k);
            let j = choose|j: int|
                0 <= j < nodes.len() && #[trigger] nodes[j] == c[k] && depth[j] <= k;
            assert(nodes[j] == nodes[head]);
            assert(j == head);
            lemma_path_first(g, nodes, parent, depth, head, c, k, j);
            assert(c.take(k + 1) =~= c);
        }
    }
}

/// One of the first `n` names.
spec fn among(names: Seq<Seq<char>>, n: int, x: Seq<char>) -> bool {
    exists|j: int| 0 <= j < n && #[trigger] names[j] == x
}

/// One more name found keeps what holds of the search.
proof fn lemma_push_found(
    g: DepGraphM,
    nodes: Seq<Seq<char>>,
    parent: Seq<usize>,
    depth: Seq<int>,
    head: int,
    d: Seq<char>,
)
    requires
        searched(g, nodes, parent, depth, head),
        head < nodes.len() <= usize::MAX,
        depth.last() <= depth[head] + 1,
        g.asks(nodes[head], d),
        !nodes.contains(d),
        forall|q: int| 0 < q < parent.len() ==> #[trigger] parent[q] <= head,
        forall|q: int|
            0 < q < parent.len() && #[trigger] parent[q] == head ==> text_before(nodes[q], d),
    ensures
        searched(
            g,
            nodes.push(d),
            parent.push(head as usize),
            depth.push(depth[head] + 1),
            head,
        ),
{
    let ns = nodes.push(d);
    let ds = depth.push(depth[head] + 1);
    let ps = parent.push(head as usize);
    assert forall|i: int, j: int| 0 <= i <= j < ns.len() implies #[trigger] ds[i]
        <= #[trigger] ds[j] by {
        if j == nodes.len() && i < j {
            assert(depth[i] <= depth[nodes.len() - 1]);
        }
    }
    assert forall|i: int, b: Seq<char>| 0 <= i < head && #[trigger] g.asks(
        ns[i],
        b,
    ) implies found_by(ns, ps, ds, b, i) by {
        assert(g.asks(nodes[i], b));
        assert(found_by(nodes, parent, depth, b, i));
        let j = choose|j: int|
            0 <= j < nodes.len() && #[trigger] nodes[j] == b && depth[j] <= depth[i] + 1
                && parent[j] <= i;
        assert(ns[j] == b && ds[j] <= ds[i] + 1 && ps[j] <= i);
    }
    assert forall|i: int| 0 < i < ns.len() implies #[trigger] ps[i] < i && g.asks(
        ns[ps[i] as int],
        ns[i],
    ) && ds[i] == ds[ps[i] as int] + 1 by {
        if i < nodes.len() {
            assert(parent[i] < i);
        }
    }
    assert forall|i: int, j: int| 0 < i < j < ns.len() implies #[trigger] ps[i] < #[trigger] ps[j]
        || (ps[i] == ps[j] && text_before(ns[i], ns[j])) by {
        if j < nodes.len() {
            assert(parent[i] < parent[j] || (parent[i] == parent[j] && text_before(
                nodes[i],
                nodes[j],
            )));
        } else {
            assert(parent[i] <= head);
        }
    }
    assert forall|i: int, j: int| 0 <= i < ns.len() && 0 <= j < ns.len() && i != j implies ns[i]
        != ns[j] by {
        if i < nodes.len() && j < nodes.len() {
            assert(nodes[i] != nodes[j]);
        } else if i < nodes.len() {
            assert(nodes.contains(nodes[i]));
        } else {
            assert(nodes.contains(nodes[j]));
        }
    }
}

proof fn lemma_bounded(nodes: Seq<Seq<char>>, universe: Set<Seq<char>>)
    requires
        nodes.no_duplicates(),
        universe.finite(),
        forall|i: int| 0 <= i < nodes.len() ==> universe.contains(#[trigger] nodes[i]),
    ensures
        nodes.len() <= universe.len(),
{
    nodes.unique_seq_to_set();
    assert(nodes.to_set().subset_of(universe));
    vstd::set_lib::lemma_len_subset(nodes.to_set(), universe);
}

} // verus!
