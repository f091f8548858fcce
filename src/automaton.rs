use vstd::prelude::*;
use crate::bound::{lemma_subset_family_bound, two_pow};
use crate::grammar::Grammar;
use crate::lr0::{contains_item, Lr0Item};

verus! {

/// A state of the LR(0) automaton: its kernel and the closure items that
/// the kernel adds.
#[derive(Debug, Clone)]
pub struct Lr0AutomatonNode {
    pub kernel: Vec<Lr0Item>,
    pub closure: Vec<Lr0Item>,
}

/// The LR(0) automaton: states in discovery order and labelled edges
/// `(from, to, symbol)`.
#[derive(Debug, Clone)]
pub struct Lr0Automaton {
    pub nodes: Vec<Lr0AutomatonNode>,
    pub edges: Vec<(usize, usize, char)>,
}

impl Lr0AutomatonNode {
    pub open spec fn items(self) -> Seq<Lr0Item> {
        self.kernel@ + self.closure@
    }
}

/// The item with the dot moved one symbol on.
pub open spec fn advanced(it: Lr0Item) -> Lr0Item {
    Lr0Item { production: it.production, dot_position: (it.dot_position + 1) as usize }
}

/// The start item `@ -> . S`.
pub open spec fn start_item() -> Lr0Item {
    Lr0Item { production: None, dot_position: 0 }
}

/// Some edge leads to state `t` from a state numbered before it.
pub open spec fn found_earlier(edges: Seq<(usize, usize, char)>, t: int) -> bool {
    exists|e: int| 0 <= e < edges.len() && (#[trigger] edges[e]).1 == t && edges[e].0 < t
}

/// State `t` was found from an earlier state by an edge, and its kernel is
/// the GOTO of that state on the edge's symbol.
pub open spec fn discovered(g: Grammar, nodes: Seq<Lr0AutomatonNode>, edges: Seq<(usize, usize, char)>, t: int) -> bool {
    exists|e: int|
        0 <= e < edges.len() && (#[trigger] edges[e]).1 == t && edges[e].0 < t && nodes[t].kernel@ == g.goto_items(
            nodes[edges[e].0 as int].items(),
            edges[e].2,
        )
}

/// The largest target of the edges, 0 where there is none.
pub open spec fn max_target(edges: Seq<(usize, usize, char)>) -> nat
    decreases edges.len(),
{
    if edges.len() == 0 {
        0
    } else if edges.last().1 as nat > max_target(edges.drop_last()) {
        edges.last().1 as nat
    } else {
        max_target(edges.drop_last())
    }
}

/// Item `i` is the first of `items` with `x` after its dot.
pub open spec fn first_with_next(g: Grammar, items: Seq<Lr0Item>, i: int, x: char) -> bool {
    0 <= i < items.len() && g.next_sym(items[i]) == Some(x) && forall|j: int| 0 <= j < i ==> g.next_sym(#[trigger] items[j]) != Some(x)
}

/// In `items`, symbol `x` first follows a dot before symbol `y` does.
pub open spec fn symbol_before(g: Grammar, items: Seq<Lr0Item>, x: char, y: char) -> bool {
    exists|i: int, j: int| i < j && #[trigger] first_with_next(g, items, i, x) && #[trigger] first_with_next(g, items, j, y)
}

/// The order of the breadth-first search: edges grouped by source in state
/// order, each state's edges in the order in which their symbols first
/// follow a dot, and each new state numbered next.
#[verifier::opaque]
pub open spec fn numbering_ok(g: Grammar, nodes: Seq<Lr0AutomatonNode>, edges: Seq<(usize, usize, char)>) -> bool {
    &&& forall|e1: int, e2: int| 0 <= e1 < e2 < edges.len() ==> (#[trigger] edges[e1]).0 <= (#[trigger] edges[e2]).0
    &&& forall|e1: int, e2: int|
        0 <= e1 < e2 < edges.len() && (#[trigger] edges[e1]).0 == (#[trigger] edges[e2]).0 ==> symbol_before(
            g,
            nodes[edges[e1].0 as int].items(),
            edges[e1].2,
            edges[e2].2,
        )
    &&& forall|e: int| 0 <= e < edges.len() ==> (#[trigger] edges[e]).1 <= max_target(edges.subrange(0, e)) + 1
    &&& forall|t: int| 0 < t < nodes.len() ==> #[trigger] discovered(g, nodes, edges, t)
}

/// Two item sequences hold the same items.
pub open spec fn same_items(a: Seq<Lr0Item>, b: Seq<Lr0Item>) -> bool {
    a.to_set() == b.to_set()
}

impl Grammar {
    /// GOTO: the items of `s` whose next symbol is `x`, with the dot moved past it.
    pub open spec fn goto_items(self, s: Seq<Lr0Item>, x: char) -> Seq<Lr0Item>
        decreases s.len(),
    {
        if s.len() == 0 {
            Seq::empty()
        } else {
            let r = self.goto_items(s.drop_last(), x);
            if self.next_sym(s.last()) == Some(x) {
                r.push(advanced(s.last()))
            } else {
                r
            }
        }
    }

    /// Some item of `s` has `x` right after its dot.
    pub open spec fn has_next(self, s: Seq<Lr0Item>, x: char) -> bool {
        exists|i: int| 0 <= i < s.len() && self.next_sym(#[trigger] s[i]) == Some(x)
    }

    /// A state of the automaton is well formed: valid items, and the closure
    /// that its kernel determines.
    pub open spec fn node_ok(self, n: Lr0AutomatonNode) -> bool {
        &&& self.valid_items(n.kernel@)
        &&& self.valid_items(n.closure@)
        &&& self.is_closure_of(n.kernel@, n.closure@)
    }

    /// `a` is the canonical LR(0) collection of the grammar, numbered in the
    /// order in which a breadth-first search from the start state finds it.
    pub open spec fn automaton_ok(self, a: Lr0Automaton) -> bool {
        let nodes = a.nodes@;
        let edges = a.edges@;
        &&& nodes.len() >= 1
        &&& nodes[0].kernel@ == seq![start_item()]
        &&& forall|s: int| 0 <= s < nodes.len() ==> self.node_ok(#[trigger] nodes[s])
        &&& forall|s: int, t: int|
            0 <= s < t < nodes.len() ==> !same_items((#[trigger] nodes[s]).kernel@, (#[trigger] nodes[t]).kernel@)
        &&& forall|e: int|
            0 <= e < edges.len() ==> (#[trigger] edges[e]).0 < nodes.len() && edges[e].1 < nodes.len()
                && self.has_next(nodes[edges[e].0 as int].items(), edges[e].2) && same_items(
                nodes[edges[e].1 as int].kernel@,
                self.goto_items(nodes[edges[e].0 as int].items(), edges[e].2),
            )
        &&& forall|s: int, x: char|
            0 <= s < nodes.len() && #[trigger] self.has_next(nodes[s].items(), x) ==> exists|e: int|
                0 <= e < edges.len() && (#[trigger] edges[e]).0 == s && edges[e].2 == x
        &&& forall|e1: int, e2: int|
            0 <= e1 < e2 < edges.len() ==> (#[trigger] edges[e1]).0 != (#[trigger] edges[e2]).0 || edges[e1].2
                != edges[e2].2
        &&& numbering_ok(self, nodes, edges)
    }
}

pub proof fn lemma_goto_valid(g: Grammar, s: Seq<Lr0Item>, x: char)
    requires
        g.valid_items(s),
    ensures
        g.valid_items(g.goto_items(s, x)),
        g.has_next(s, x) ==> g.goto_items(s, x).len() > 0,
    decreases s.len(),
{
    if s.len() > 0 {
        assert(g.valid_items(s.drop_last()));
        lemma_goto_valid(g, s.drop_last(), x);
        if g.has_next(s, x) && g.next_sym(s.last()) != Some(x) {
            let i = choose|i: int| 0 <= i < s.len() && g.next_sym(#[trigger] s[i]) == Some(x);
            assert(s.drop_last()[i] == s[i]);
        }
    }
}

impl Lr0AutomatonNode {
    /// GOTO of this state by `by_char`.
    pub fn get_generated_kernel(&self, by_char: char, g: &Grammar) -> (r: Vec<Lr0Item>)
        requires
            g.wf(),
            g.valid_items(self.items()),
        ensures
            r@ == g.goto_items(self.items(), by_char),
    {
        let mut r: Vec<Lr0Item> = Vec::new();
        let ghost k = self.kernel@;
        let ghost c = self.closure@;
        let mut i: usize = 0;
        assert(k.subrange(0, 0) =~= Seq::<Lr0Item>::empty());
        while i < self.kernel.len()
            invariant
                g.wf(),
                k == self.kernel@,
                g.valid_items(self.items()),
                0 <= i <= k.len(),
                r@ == g.goto_items(k.subrange(0, i as int), by_char),
            decreases k.len() - i,
        {
            let it = self.kernel[i];
            assert(self.items()[i as int] == it);
            assert(k.subrange(0, i + 1).drop_last() =~= k.subrange(0, i as int));
            if let Some(x) = it.next_symbol(g) {
                if x == by_char {
                    r.push(it.next_item(g).unwrap());
                }
            }
            i += 1;
        }
        assert(k.subrange(0, i as int) =~= k + c.subrange(0, 0));
        let mut j: usize = 0;
        while j < self.closure.len()
            invariant
                g.wf(),
                k == self.kernel@,
                c == self.closure@,
                g.valid_items(self.items()),
                0 <= j <= c.len(),
                r@ == g.goto_items(k + c.subrange(0, j as int), by_char),
            decreases c.len() - j,
        {
            let it = self.closure[j];
            assert(self.items()[k.len() + j] == it);
            assert((k + c.subrange(0, j + 1)).drop_last() =~= k + c.subrange(0, j as int));
            assert((k + c.subrange(0, j + 1)).last() == it);
            if let Some(x) = it.next_symbol(g) {
                if x == by_char {
                    r.push(it.next_item(g).unwrap());
                }
            }
            j += 1;
        }
        assert(k + c.subrange(0, j as int) =~= self.items());
        r
    }
}

/// Every item of `a` is in `b`.
pub fn items_within(a: &Vec<Lr0Item>, b: &Vec<Lr0Item>) -> (r: bool)
    ensures
        r == forall|it: Lr0Item| a@.contains(it) ==> b@.contains(it),
{
    let mut i: usize = 0;
    while i < a.len()
        invariant
            0 <= i <= a@.len(),
            forall|j: int| 0 <= j < i ==> b@.contains(#[trigger] a@[j]),
        decreases a@.len() - i,
    {
        if !contains_item(b, &a[i]) {
            assert(a@.contains(a@[i as int]));
            return false;
        }
        i += 1;
    }
    true
}

/// `a` and `b` hold the same items, in whatever order.
pub fn same_kernel(a: &Vec<Lr0Item>, b: &Vec<Lr0Item>) -> (r: bool)
    ensures
        r == same_items(a@, b@),
{
    let r = items_within(a, b) && items_within(b, a);
    proof {
        if r {
            assert(a@.to_set() =~= b@.to_set());
        } else if same_items(a@, b@) {
            assert forall|it: Lr0Item| a@.contains(it) implies b@.contains(it) by {
                assert(a@.to_set().contains(it));
            }
            assert forall|it: Lr0Item| b@.contains(it) implies a@.contains(it) by {
                assert(b@.to_set().contains(it));
            }
        }
    }
    r
}

} // verus!

verus! {

/// The items of production `prod`, whose body has `len` symbols: one per dot position.
pub open spec fn prod_items(prod: Option<usize>, len: nat) -> Seq<Lr0Item> {
    Seq::new(len + 1, |d: int| Lr0Item { production: prod, dot_position: d as usize })
}

impl Grammar {
    pub open spec fn items_from(self, p: int) -> Seq<Lr0Item>
        decreases self.prod_count() - p,
    {
        if p < 0 || p >= self.prod_count() {
            Seq::empty()
        } else {
            prod_items(Some(p as usize), self.body(p).len()) + self.items_from(p + 1)
        }
    }

    /// Every valid item of the grammar.
    pub open spec fn all_items(self) -> Set<Lr0Item> {
        (prod_items(None, 1) + self.items_from(0)).to_set()
    }
}

proof fn lemma_items_from(g: Grammar, q: int, it: Lr0Item)
    requires
        0 <= q,
        it.production.is_some(),
        q <= it.production.unwrap() < g.prod_count(),
        it.dot_position <= g.body(it.production.unwrap() as int).len(),
    ensures
        g.items_from(q).contains(it),
    decreases g.prod_count() - q,
{
    let head = prod_items(Some(q as usize), g.body(q).len());
    if q == it.production.unwrap() {
        assert(head[it.dot_position as int] == it);
        assert((head + g.items_from(q + 1))[it.dot_position as int] == it);
    } else {
        lemma_items_from(g, q + 1, it);
        let rest = g.items_from(q + 1);
        let j = choose|j: int| 0 <= j < rest.len() && rest[j] == it;
        assert((head + g.items_from(q + 1))[head.len() + j] == it);
    }
}

proof fn lemma_valid_in_all(g: Grammar, it: Lr0Item)
    requires
        g.valid_item(it),
    ensures
        g.all_items().contains(it),
{
    let head = prod_items(None, 1);
    let all = head + g.items_from(0);
    match it.production {
        None => {
            assert(head[it.dot_position as int] == it);
            assert(all[it.dot_position as int] == it);
        },
        Some(p) => {
            lemma_items_from(g, 0, it);
            let rest = g.items_from(0);
            let j = choose|j: int| 0 <= j < rest.len() && rest[j] == it;
            assert(all[head.len() + j] == it);
        },
    }
    assert(all.contains(it));
}

/// The number of states with distinct kernels of valid items is bounded.
proof fn lemma_state_bound(g: Grammar, nodes: Seq<Lr0AutomatonNode>)
    requires
        forall|s: int| 0 <= s < nodes.len() ==> g.valid_items(#[trigger] nodes[s].kernel@),
        forall|s: int, t: int|
            0 <= s < t < nodes.len() ==> !same_items((#[trigger] nodes[s]).kernel@, (#[trigger] nodes[t]).kernel@),
    ensures
        nodes.len() <= two_pow(g.all_items().len()),
{
    broadcast use vstd::seq_lib::seq_to_set_is_finite;

    let ks = nodes.map_values(|n: Lr0AutomatonNode| n.kernel@.to_set());
    assert forall|a: int, b: int| 0 <= a < ks.len() && 0 <= b < ks.len() && a != b implies ks[a] != ks[b] by {
        if a < b {
            assert(!same_items(nodes[a].kernel@, nodes[b].kernel@));
        } else {
            assert(!same_items(nodes[b].kernel@, nodes[a].kernel@));
        }
    }
    ks.unique_seq_to_set();
    let f = ks.to_set();
    assert forall|s: Set<Lr0Item>| #[trigger] f.contains(s) implies s.subset_of(g.all_items()) by {
        let a = choose|a: int| 0 <= a < ks.len() && ks[a] == s;
        assert forall|it: Lr0Item| s.contains(it) implies g.all_items().contains(it) by {
            let kk = nodes[a].kernel@;
            let j = choose|j: int| 0 <= j < kk.len() && kk[j] == it;
            assert(g.valid_item(nodes[a].kernel@[j]));
            lemma_valid_in_all(g, it);
        }
    }
    lemma_subset_family_bound(g.all_items(), f);
}

pub fn copy_items(v: &Vec<Lr0Item>) -> (r: Vec<Lr0Item>)
    ensures
        r@ == v@,
{
    let mut r: Vec<Lr0Item> = Vec::new();
    let mut i: usize = 0;
    while i < v.len()
        invariant
            0 <= i <= v@.len(),
            r@ == v@.subrange(0, i as int),
        decreases v@.len() - i,
    {
        r.push(v[i]);
        i += 1;
        assert(r@ =~= v@.subrange(0, i as int));
    }
    assert(r@ =~= v@);
    r
}

fn find_edge(edges: &Vec<(usize, usize, char)>, from: usize, x: char) -> (r: Option<usize>)
    ensures
        match r {
            Some(e) => e < edges@.len() && edges@[e as int].0 == from && edges@[e as int].2 == x,
            None => forall|e: int| 0 <= e < edges@.len() ==> !((#[trigger] edges@[e]).0 == from && edges@[e].2 == x),
        },
{
    let mut e: usize = 0;
    while e < edges.len()
        invariant
            0 <= e <= edges@.len(),
            forall|e2: int| 0 <= e2 < e ==> !((#[trigger] edges@[e2]).0 == from && edges@[e2].2 == x),
        decreases edges@.len() - e,
    {
        if edges[e].0 == from && edges[e].2 == x {
            return Some(e);
        }
        e += 1;
    }
    None
}

fn find_state(nodes: &Vec<Lr0AutomatonNode>, kernel: &Vec<Lr0Item>) -> (r: Option<usize>)
    ensures
        match r {
            Some(t) => t < nodes@.len() && same_items(nodes@[t as int].kernel@, kernel@),
            None => forall|t: int| 0 <= t < nodes@.len() ==> !same_items((#[trigger] nodes@[t]).kernel@, kernel@),
        },
{
    let mut t: usize = 0;
    while t < nodes.len()
        invariant
            0 <= t <= nodes@.len(),
            forall|t2: int| 0 <= t2 < t ==> !same_items((#[trigger] nodes@[t2]).kernel@, kernel@),
        decreases nodes@.len() - t,
    {
        if same_kernel(&nodes[t].kernel, kernel) {
            return Some(t);
        }
        t += 1;
    }
    None
}

/// The invariant of the breadth-first construction: states before `cur` have
/// all their edges.
#[verifier::opaque]
pub open spec fn bfs_ok(g: Grammar, nodes: Seq<Lr0AutomatonNode>, edges: Seq<(usize, usize, char)>, cur: int) -> bool {
    &&& nodes.len() >= 1
    &&& nodes[0].kernel@ == seq![start_item()]
    &&& forall|s: int| 0 <= s < nodes.len() ==> g.node_ok(#[trigger] nodes[s])
    &&& forall|s: int, t: int|
        0 <= s < t < nodes.len() ==> !same_items((#[trigger] nodes[s]).kernel@, (#[trigger] nodes[t]).kernel@)
    &&& forall|e: int|
        0 <= e < edges.len() ==> (#[trigger] edges[e]).0 <= cur && edges[e].0 < nodes.len() && edges[e].1 < nodes.len()
            && g.has_next(nodes[edges[e].0 as int].items(), edges[e].2) && same_items(
            nodes[edges[e].1 as int].kernel@,
            g.goto_items(nodes[edges[e].0 as int].items(), edges[e].2),
        )
    &&& forall|s: int, x: char|
        0 <= s < cur && s < nodes.len() && #[trigger] g.has_next(nodes[s].items(), x) ==> exists|e: int|
            0 <= e < edges.len() && (#[trigger] edges[e]).0 == s && edges[e].2 == x
    &&& forall|e1: int, e2: int|
        0 <= e1 < e2 < edges.len() ==> (#[trigger] edges[e1]).0 != (#[trigger] edges[e2]).0 || edges[e1].2 != edges[e2].2
    &&& forall|t: int| 0 < t < nodes.len() ==> #[trigger] found_earlier(edges, t)
}


/// Pushing the edge `(cur, t, x)`, where `x` first follows a dot at item `i`
/// of state `cur`, after the edges of the states before `cur` and those of
/// `cur` for earlier items, keeps the numbering of the search.
#[verifier::rlimit(100)]
proof fn lemma_numbering_push(
    g: Grammar,
    nodes0: Seq<Lr0AutomatonNode>,
    edges0: Seq<(usize, usize, char)>,
    nodes: Seq<Lr0AutomatonNode>,
    edges: Seq<(usize, usize, char)>,
    cur: usize,
    t: usize,
    x: char,
    items: Seq<Lr0Item>,
    i: int,
)
    requires
        inner_ok(g, nodes0, edges0, cur, items, i),
        first_with_next(g, nodes0[cur as int].items(), i, x),
        edges == edges0.push((cur, t, x)),
        (nodes == nodes0 && t < nodes0.len()) || (nodes.len() == nodes0.len() + 1 && nodes.subrange(0, nodes0.len() as int) == nodes0
            && t == nodes0.len() && nodes[t as int].kernel@ == g.goto_items(nodes0[cur as int].items(), x)),
    ensures
        numbering_ok(g, nodes, edges),
        max_target(edges) + 1 == nodes.len(),
{
    reveal(numbering_ok);
    reveal(inner_ok);
    let ne = edges0.len() as int;
    assert(edges.drop_last() =~= edges0);
    assert forall|sx: int| 0 <= sx < nodes0.len() implies nodes[sx] == nodes0[sx] by {
        if nodes != nodes0 {
            assert(nodes.subrange(0, nodes0.len() as int)[sx] == nodes[sx]);
        }
    }
    assert forall|e: int| 0 <= e < ne implies edges[e] == edges0[e] by {}
    assert forall|e: int| 0 <= e <= ne implies edges.subrange(0, e) == edges0.subrange(0, e) by {
        assert(edges.subrange(0, e) =~= edges0.subrange(0, e));
    }
    assert(edges0.subrange(0, ne) =~= edges0);
    // sources in order
    assert forall|e1: int, e2: int| 0 <= e1 < e2 < edges.len() implies (#[trigger] edges[e1]).0 <= (#[trigger] edges[e2]).0 by {
        if e2 < ne {
            assert(edges0[e1].0 <= edges0[e2].0);
        }
    }
    // symbols in order of first occurrence
    assert forall|e1: int, e2: int|
        0 <= e1 < e2 < edges.len() && (#[trigger] edges[e1]).0 == (#[trigger] edges[e2]).0 implies symbol_before(
            g,
            nodes[edges[e1].0 as int].items(),
            edges[e1].2,
            edges[e2].2,
        ) by {
        assert(edges[e1] == edges0[e1]);
        assert(nodes[edges0[e1].0 as int] == nodes0[edges0[e1].0 as int]);
        if e2 < ne {
            assert(edges[e2] == edges0[e2]);
            assert(symbol_before(g, nodes0[edges0[e1].0 as int].items(), edges0[e1].2, edges0[e2].2));
        } else {
            assert(edges0[e1].0 == cur);
            let iy = choose|iy: int| iy < i && #[trigger] first_with_next(g, nodes0[cur as int].items(), iy, edges0[e1].2);
            assert(first_with_next(g, nodes0[cur as int].items(), i, x));
        }
    }
    // new states numbered next
    assert forall|e: int| 0 <= e < edges.len() implies (#[trigger] edges[e]).1 <= max_target(edges.subrange(0, e)) + 1 by {
        if e < ne {
            assert(edges0[e].1 <= max_target(edges0.subrange(0, e)) + 1);
        }
    }
    // every state but the first found by an edge
    assert forall|t2: int| 0 < t2 < nodes.len() implies #[trigger] discovered(g, nodes, edges, t2) by {
        if t2 < nodes0.len() {
            assert(discovered(g, nodes0, edges0, t2));
            let e = choose|e: int|
                0 <= e < edges0.len() && (#[trigger] edges0[e]).1 == t2 && edges0[e].0 < t2 && nodes0[t2].kernel@ == g.goto_items(
                    nodes0[edges0[e].0 as int].items(),
                    edges0[e].2,
                );
            assert(edges[e] == edges0[e]);
        } else {
            assert(edges[ne] == (cur, t, x));
        }
    }
}

/// The state of the search while it walks the items of state `cur`: the
/// items before `i` have their edges.
#[verifier::opaque]
pub open spec fn inner_ok(
    g: Grammar,
    nodes: Seq<Lr0AutomatonNode>,
    edges: Seq<(usize, usize, char)>,
    cur: usize,
    items: Seq<Lr0Item>,
    i: int,
) -> bool {
    &&& cur < nodes.len()
    &&& items == nodes[cur as int].items()
    &&& bfs_ok(g, nodes, edges, cur as int)
    &&& numbering_ok(g, nodes, edges)
    &&& max_target(edges) + 1 == nodes.len()
    &&& forall|e: int| 0 <= e < edges.len() ==> (#[trigger] edges[e]).0 <= cur
    &&& forall|e: int|
        0 <= e < edges.len() && (#[trigger] edges[e]).0 == cur ==> exists|iy: int|
            iy < i && #[trigger] first_with_next(g, nodes[cur as int].items(), iy, edges[e].2)
    &&& forall|i2: int|
        0 <= i2 < i && g.next_sym(#[trigger] items[i2]).is_some() ==> exists|e: int|
            0 <= e < edges.len() && (#[trigger] edges[e]).0 == cur && edges[e].2 == g.next_sym(items[i2]).unwrap()
}

/// The state that the edge of state `cur` on `x` leads to: the state whose
/// kernel holds the GOTO items, added where there is none.
fn edge_target(
    g: &Grammar,
    nodes: &mut Vec<Lr0AutomatonNode>,
    cur: usize,
    x: char,
    Ghost(edges0): Ghost<Seq<(usize, usize, char)>>,
) -> (t: usize)
    requires
        g.wf(),
        g.prod_count() > 0,
        bfs_ok(*g, old(nodes)@, edges0, cur as int),
        cur < old(nodes)@.len(),
        g.has_next(old(nodes)@[cur as int].items(), x),
    ensures
        (final(nodes)@ == old(nodes)@ && t < old(nodes)@.len() && same_items(
            old(nodes)@[t as int].kernel@,
            g.goto_items(old(nodes)@[cur as int].items(), x),
        )) || (final(nodes)@.len() == old(nodes)@.len() + 1 && final(nodes)@.subrange(0, old(nodes)@.len() as int) == old(nodes)@
            && t == old(nodes)@.len() && final(nodes)@[t as int].kernel@ == g.goto_items(old(nodes)@[cur as int].items(), x)
            && g.node_ok(final(nodes)@[t as int]) && forall|sx: int|
            0 <= sx < old(nodes)@.len() ==> !same_items((#[trigger] old(nodes)@[sx]).kernel@, final(nodes)@[t as int].kernel@)),
{
    proof {
        lemma_bfs_states(*g, nodes@, edges0, cur as int);
        assert(g.node_ok(nodes@[cur as int]));
        let n = nodes@[cur as int];
        assert forall|i: int| 0 <= i < n.items().len() implies g.valid_item(#[trigger] n.items()[i]) by {
            if i < n.kernel@.len() {
                assert(n.items()[i] == n.kernel@[i]);
            } else {
                assert(n.items()[i] == n.closure@[i - n.kernel@.len()]);
            }
        }
        lemma_goto_valid(*g, n.items(), x);
    }
    let k = nodes[cur].get_generated_kernel(x, g);
    match find_state(nodes, &k) {
        Some(t) => t,
        None => {
            let cl = g.lr0_closure(copy_items(&k));
            let t = nodes.len();
            let ghost n0 = nodes@;
            nodes.push(Lr0AutomatonNode { kernel: k, closure: cl });
            proof {
                assert(nodes@.subrange(0, n0.len() as int) =~= n0);
            }
            t
        },
    }
}

/// Gives state `cur` its edge on the symbol after the dot of item `i`,
/// adding the state that the edge leads to where it is new.
#[verifier::rlimit(100)]
fn add_edge_for_item(
    g: &Grammar,
    nodes: &mut Vec<Lr0AutomatonNode>,
    edges: &mut Vec<(usize, usize, char)>,
    cur: usize,
    items: &Vec<Lr0Item>,
    i: usize,
)
    requires
        g.wf(),
        g.prod_count() > 0,
        g.valid_items(items@),
        i < items@.len(),
        inner_ok(*g, old(nodes)@, old(edges)@, cur, items@, i as int),
    ensures
        cur < final(nodes)@.len(),
        final(nodes)@[cur as int] == old(nodes)@[cur as int],
        inner_ok(*g, final(nodes)@, final(edges)@, cur, items@, i + 1),
{
    let ghost nodes0 = nodes@;
    let ghost edges0 = edges@;
    proof {
        lemma_inner_parts(*g, nodes0, edges0, cur, items@, i as int);
    }
    if let Some(x) = items[i].next_symbol(g) {
        match find_edge(edges, cur, x) {
            Some(_) => {
                proof {
                    lemma_item_step(*g, nodes0, edges0, nodes@, edges@, cur, items@, i as int);
                }
            },
            None => {
                proof {
                    lemma_first_occurrence(*g, nodes0, edges0, cur, items@, i as int, x);
                    assert(g.has_next(nodes0[cur as int].items(), x)) by {
                        assert(g.next_sym(nodes0[cur as int].items()[i as int]) == Some(x));
                    }
                }
                let t = edge_target(g, nodes, cur, x, Ghost(edges0));
                edges.push((cur, t, x));
                proof {
                    if nodes@ != nodes0 {
                        assert(nodes@.subrange(0, nodes0.len() as int)[cur as int] == nodes@[cur as int]);
                    }
                    lemma_bfs_push(*g, nodes0, edges0, nodes@, edges@, cur, t, x);
                    lemma_numbering_push(*g, nodes0, edges0, nodes@, edges@, cur, t, x, items@, i as int);
                    assert(edges@.drop_last() =~= edges0);
                    assert(edges@[edges0.len() as int] == (cur, t, x));
                    lemma_item_step(*g, nodes0, edges0, nodes@, edges@, cur, items@, i as int);
                }
            },
        }
    } else {
        proof {
            lemma_item_step(*g, nodes0, edges0, nodes@, edges@, cur, items@, i as int);
        }
    }
}

/// What the state of the walk over the items of `cur` gives.
proof fn lemma_inner_parts(
    g: Grammar,
    nodes: Seq<Lr0AutomatonNode>,
    edges: Seq<(usize, usize, char)>,
    cur: usize,
    items: Seq<Lr0Item>,
    i: int,
)
    requires
        inner_ok(g, nodes, edges, cur, items, i),
    ensures
        cur < nodes.len(),
        items == nodes[cur as int].items(),
        bfs_ok(g, nodes, edges, cur as int),
        numbering_ok(g, nodes, edges),
        max_target(edges) + 1 == nodes.len(),
        forall|e: int| 0 <= e < edges.len() ==> (#[trigger] edges[e]).0 <= cur,
{
    reveal(inner_ok);
}

/// The symbol after the dot of item `i` first follows a dot there, where
/// state `cur` has no edge on it yet.
proof fn lemma_first_occurrence(
    g: Grammar,
    nodes: Seq<Lr0AutomatonNode>,
    edges: Seq<(usize, usize, char)>,
    cur: usize,
    items: Seq<Lr0Item>,
    i: int,
    x: char,
)
    requires
        inner_ok(g, nodes, edges, cur, items, i),
        0 <= i < items.len(),
        g.next_sym(items[i]) == Some(x),
        forall|e: int| 0 <= e < edges.len() ==> !((#[trigger] edges[e]).0 == cur && edges[e].2 == x),
    ensures
        first_with_next(g, nodes[cur as int].items(), i, x),
{
    reveal(inner_ok);
    assert forall|j: int| 0 <= j < i implies g.next_sym(#[trigger] items[j]) != Some(x) by {
        if g.next_sym(items[j]) == Some(x) {
            let e = choose|e: int| 0 <= e < edges.len() && (#[trigger] edges[e]).0 == cur && edges[e].2 == g.next_sym(items[j]).unwrap();
        }
    }
}

/// After item `i` is handled, the walk goes on to the next item.
proof fn lemma_item_step(
    g: Grammar,
    nodes0: Seq<Lr0AutomatonNode>,
    edges0: Seq<(usize, usize, char)>,
    nodes: Seq<Lr0AutomatonNode>,
    edges: Seq<(usize, usize, char)>,
    cur: usize,
    items: Seq<Lr0Item>,
    i: int,
)
    requires
        inner_ok(g, nodes0, edges0, cur, items, i),
        0 <= i < items.len(),
        cur < nodes.len(),
        nodes[cur as int] == nodes0[cur as int],
        bfs_ok(g, nodes, edges, cur as int),
        numbering_ok(g, nodes, edges),
        max_target(edges) + 1 == nodes.len(),
        forall|e: int| 0 <= e < edges.len() ==> (#[trigger] edges[e]).0 <= cur,
        edges == edges0 || (edges.len() == edges0.len() + 1 && edges.drop_last() == edges0 && edges.last().0 == cur
            && first_with_next(g, nodes0[cur as int].items(), i, edges.last().2)),
        g.next_sym(items[i]).is_some() ==> exists|e: int|
            0 <= e < edges.len() && (#[trigger] edges[e]).0 == cur && edges[e].2 == g.next_sym(items[i]).unwrap(),
    ensures
        inner_ok(g, nodes, edges, cur, items, i + 1),
{
    reveal(inner_ok);
    let ne = edges0.len() as int;
    assert forall|e: int| 0 <= e < ne implies edges[e] == edges0[e] by {
        if edges != edges0 {
            assert(edges.drop_last()[e] == edges[e]);
        }
    }
    assert forall|i2: int|
        0 <= i2 < i + 1 && g.next_sym(#[trigger] items[i2]).is_some() implies exists|e: int|
            0 <= e < edges.len() && (#[trigger] edges[e]).0 == cur && edges[e].2 == g.next_sym(items[i2]).unwrap() by {
        if i2 < i {
            let y = g.next_sym(items[i2]).unwrap();
            let e = choose|e: int| 0 <= e < edges0.len() && (#[trigger] edges0[e]).0 == cur && edges0[e].2 == y;
            assert(edges[e] == edges0[e]);
        }
    }
    assert forall|e: int|
        0 <= e < edges.len() && (#[trigger] edges[e]).0 == cur implies exists|iy: int|
            iy < i + 1 && #[trigger] first_with_next(g, nodes[cur as int].items(), iy, edges[e].2) by {
        if e < ne {
            assert(edges[e] == edges0[e]);
            let iy = choose|iy: int| iy < i && #[trigger] first_with_next(g, nodes0[cur as int].items(), iy, edges0[e].2);
            assert(first_with_next(g, nodes[cur as int].items(), iy, edges[e].2));
        } else {
            assert(first_with_next(g, nodes[cur as int].items(), i, edges[e].2));
        }
    }
}

/// Pushing the edge `(cur, t, x)` of a symbol that state `cur` has no edge
/// for, to a state whose kernel is the GOTO (a new state where no state has
/// that kernel), keeps the invariant of the search.
proof fn lemma_bfs_push(
    g: Grammar,
    nodes0: Seq<Lr0AutomatonNode>,
    edges0: Seq<(usize, usize, char)>,
    nodes: Seq<Lr0AutomatonNode>,
    edges: Seq<(usize, usize, char)>,
    cur: usize,
    t: usize,
    x: char,
)
    requires
        bfs_ok(g, nodes0, edges0, cur as int),
        cur < nodes0.len(),
        edges == edges0.push((cur, t, x)),
        g.has_next(nodes0[cur as int].items(), x),
        forall|e: int| 0 <= e < edges0.len() ==> !((#[trigger] edges0[e]).0 == cur && edges0[e].2 == x),
        (nodes == nodes0 && t < nodes0.len() && same_items(nodes0[t as int].kernel@, g.goto_items(nodes0[cur as int].items(), x)))
            || (nodes.len() == nodes0.len() + 1 && nodes.subrange(0, nodes0.len() as int) == nodes0 && t == nodes0.len()
            && nodes[t as int].kernel@ == g.goto_items(nodes0[cur as int].items(), x) && g.node_ok(nodes[t as int]) && forall|sx: int|
            0 <= sx < nodes0.len() ==> !same_items((#[trigger] nodes0[sx]).kernel@, nodes[t as int].kernel@)),
    ensures
        bfs_ok(g, nodes, edges, cur as int),
        forall|e: int| 0 <= e < edges.len() ==> (#[trigger] edges[e]).0 <= cur,
        forall|sx: int| 0 <= sx < nodes0.len() ==> nodes[sx] == nodes0[sx],
{
    reveal(bfs_ok);
    let ne = edges0.len() as int;
    assert(edges[ne] == (cur, t, x));
    assert forall|e: int| 0 <= e < ne implies edges[e] == edges0[e] by {}
    assert forall|sx: int| 0 <= sx < nodes0.len() implies nodes[sx] == nodes0[sx] by {
        if nodes != nodes0 {
            assert(nodes.subrange(0, nodes0.len() as int)[sx] == nodes[sx]);
        }
    }
    assert forall|sx: int| 0 <= sx < nodes.len() implies g.node_ok(#[trigger] nodes[sx]) by {
        if sx < nodes0.len() {
            assert(nodes[sx] == nodes0[sx]);
        }
    }
    assert forall|sx: int, tx: int|
        0 <= sx < tx < nodes.len() implies !same_items((#[trigger] nodes[sx]).kernel@, (#[trigger] nodes[tx]).kernel@) by {
        assert(nodes[sx] == nodes0[sx]);
        if tx < nodes0.len() {
            assert(nodes[tx] == nodes0[tx]);
        }
    }
    if nodes != nodes0 {
        assert(nodes[t as int].kernel@.to_set() == g.goto_items(nodes0[cur as int].items(), x).to_set());
    }
    assert forall|t2: int| 0 < t2 < nodes.len() implies #[trigger] found_earlier(edges, t2) by {
        if t2 < nodes0.len() {
            assert(found_earlier(edges0, t2));
            let e = choose|e: int| 0 <= e < edges0.len() && (#[trigger] edges0[e]).1 == t2 && edges0[e].0 < t2;
            assert(edges[e] == edges0[e]);
        } else {
            assert(edges[ne].1 == t2);
        }
    }
    assert forall|sx: int, y: char|
        0 <= sx < cur && sx < nodes.len() && #[trigger] g.has_next(nodes[sx].items(), y) implies exists|e: int|
            0 <= e < edges.len() && (#[trigger] edges[e]).0 == sx && edges[e].2 == y by {
        assert(nodes[sx] == nodes0[sx]);
        let e = choose|e: int| 0 <= e < edges0.len() && (#[trigger] edges0[e]).0 == sx && edges0[e].2 == y;
        assert(edges[e] == edges0[e]);
    }
    assert forall|e1: int, e2: int|
        0 <= e1 < e2 < edges.len() implies (#[trigger] edges[e1]).0 != (#[trigger] edges[e2]).0 || edges[e1].2 != edges[e2].2 by {
        if e2 == ne {
            assert(edges[e1] == edges0[e1]);
        } else {
            assert(edges[e1] == edges0[e1] && edges[e2] == edges0[e2]);
        }
    }
    assert forall|e: int| 0 <= e < edges.len() implies (#[trigger] edges[e]).0 <= cur && edges[e].0 < nodes.len() && edges[e].1 < nodes.len()
        && g.has_next(nodes[edges[e].0 as int].items(), edges[e].2) && same_items(
        nodes[edges[e].1 as int].kernel@,
        g.goto_items(nodes[edges[e].0 as int].items(), edges[e].2),
    ) by {
        if e < ne {
            assert(edges[e] == edges0[e]);
            assert(nodes[edges[e].0 as int] == nodes0[edges0[e].0 as int]);
            assert(nodes[edges[e].1 as int] == nodes0[edges0[e].1 as int]);
        } else {
            assert(nodes[cur as int] == nodes0[cur as int]);
        }
    }
}

/// The walk over the items of state `cur` starts with the edges of the
/// states before it.
proof fn lemma_inner_start(g: Grammar, nodes: Seq<Lr0AutomatonNode>, edges: Seq<(usize, usize, char)>, cur: usize, items: Seq<Lr0Item>)
    requires
        cur < nodes.len(),
        items == nodes[cur as int].items(),
        bfs_ok(g, nodes, edges, cur as int),
        numbering_ok(g, nodes, edges),
        max_target(edges) + 1 == nodes.len(),
        forall|e: int| 0 <= e < edges.len() ==> (#[trigger] edges[e]).0 < cur,
    ensures
        inner_ok(g, nodes, edges, cur, items, 0),
{
    reveal(inner_ok);
}

/// Once every item of state `cur` has its edge, the search moves on.
proof fn lemma_state_done(g: Grammar, nodes: Seq<Lr0AutomatonNode>, edges: Seq<(usize, usize, char)>, cur: usize, items: Seq<Lr0Item>)
    requires
        inner_ok(g, nodes, edges, cur, items, items.len() as int),
    ensures
        bfs_ok(g, nodes, edges, cur + 1),
        numbering_ok(g, nodes, edges),
        max_target(edges) + 1 == nodes.len(),
        forall|e: int| 0 <= e < edges.len() ==> (#[trigger] edges[e]).0 < cur + 1,
{
    reveal(bfs_ok);
    reveal(inner_ok);
    assert forall|sx: int, y: char|
        0 <= sx < cur + 1 && sx < nodes.len() && #[trigger] g.has_next(nodes[sx].items(), y) implies exists|e: int|
            0 <= e < edges.len() && (#[trigger] edges[e]).0 == sx && edges[e].2 == y by {
        if sx == cur {
            let i2 = choose|i2: int| 0 <= i2 < items.len() && g.next_sym(#[trigger] items[i2]) == Some(y);
        }
    }
}

/// What the invariant of the search says of its states.
proof fn lemma_bfs_states(g: Grammar, nodes: Seq<Lr0AutomatonNode>, edges: Seq<(usize, usize, char)>, cur: int)
    requires
        bfs_ok(g, nodes, edges, cur),
    ensures
        nodes.len() >= 1,
        forall|s: int| 0 <= s < nodes.len() ==> g.node_ok(#[trigger] nodes[s]),
        forall|s: int| 0 <= s < nodes.len() ==> g.valid_items(#[trigger] nodes[s].kernel@),
        forall|s: int, t: int|
            0 <= s < t < nodes.len() ==> !same_items((#[trigger] nodes[s]).kernel@, (#[trigger] nodes[t]).kernel@),
{
    reveal(bfs_ok);
    assert forall|s: int| 0 <= s < nodes.len() implies g.valid_items(#[trigger] nodes[s].kernel@) by {
        assert(g.node_ok(nodes[s]));
    }
}

/// When the search has walked every state, the automaton is the canonical one.
proof fn lemma_bfs_final(g: Grammar, a: Lr0Automaton)
    requires
        bfs_ok(g, a.nodes@, a.edges@, a.nodes@.len() as int),
        numbering_ok(g, a.nodes@, a.edges@),
    ensures
        g.automaton_ok(a),
{
    reveal(bfs_ok);
}

/// Builds the canonical LR(0) automaton of the grammar.
#[verifier::rlimit(80)]
pub fn get_parsing_automaton(grammar: &Grammar) -> (r: Lr0Automaton)
    requires
        grammar.wf(),
        grammar.prod_count() > 0,
    ensures
        grammar.automaton_ok(r),
{
    let g = grammar;
    let start = Lr0Item { production: None, dot_position: 0 };
    let mut kernel0: Vec<Lr0Item> = Vec::new();
    kernel0.push(start);
    assert(g.valid_items(kernel0@));
    let closure0 = g.lr0_closure(copy_items(&kernel0));
    let mut nodes: Vec<Lr0AutomatonNode> = Vec::new();
    nodes.push(Lr0AutomatonNode { kernel: kernel0, closure: closure0 });
    let mut edges: Vec<(usize, usize, char)> = Vec::new();
    let mut cur: usize = 0;
    assert(nodes@[0].kernel@ =~= seq![start_item()]);
    proof {
        reveal(bfs_ok);
        reveal(numbering_ok);
    }
    while cur < nodes.len()
        invariant
            g.wf(),
            g.prod_count() > 0,
            0 <= cur <= nodes@.len(),
            bfs_ok(*g, nodes@, edges@, cur as int),
            numbering_ok(*g, nodes@, edges@),
            max_target(edges@) + 1 == nodes@.len(),
            forall|e: int| 0 <= e < edges@.len() ==> (#[trigger] edges@[e]).0 < cur,
        decreases two_pow(g.all_items().len()) - cur,
    {
        proof {
            lemma_bfs_states(*g, nodes@, edges@, cur as int);
            lemma_state_bound(*g, nodes@);
        }
        let items = {
            let mut all = copy_items(&nodes[cur].kernel);
            let mut j: usize = 0;
            while j < nodes[cur].closure.len()
                invariant
                    cur < nodes@.len(),
                    0 <= j <= nodes@[cur as int].closure@.len(),
                    all@ == nodes@[cur as int].kernel@ + nodes@[cur as int].closure@.subrange(0, j as int),
                decreases nodes@[cur as int].closure@.len() - j,
            {
                all.push(nodes[cur].closure[j]);
                j += 1;
                assert(all@ =~= nodes@[cur as int].kernel@ + nodes@[cur as int].closure@.subrange(0, j as int));
            }
            assert(all@ =~= nodes@[cur as int].items());
            all
        };
        let ghost node_cur = nodes@[cur as int];
        assert(g.valid_items(node_cur.items())) by {
            assert forall|i: int| 0 <= i < node_cur.items().len() implies g.valid_item(#[trigger] node_cur.items()[i]) by {
                if i < node_cur.kernel@.len() {
                    assert(node_cur.items()[i] == node_cur.kernel@[i]);
                } else {
                    assert(node_cur.items()[i] == node_cur.closure@[i - node_cur.kernel@.len()]);
                }
            }
        }
        let mut i: usize = 0;
        proof {
            lemma_inner_start(*g, nodes@, edges@, cur, items@);
        }
        while i < items.len()
            invariant
                g.wf(),
                g.prod_count() > 0,
                cur < nodes@.len(),
                nodes@[cur as int] == node_cur,
                items@ == node_cur.items(),
                g.valid_items(items@),
                0 <= i <= items@.len(),
                inner_ok(*g, nodes@, edges@, cur, items@, i as int),
            decreases items@.len() - i,
        {
            add_edge_for_item(g, &mut nodes, &mut edges, cur, &items, i);
            i += 1;
        }
        proof {
            lemma_state_done(*g, nodes@, edges@, cur, items@);
        }
        cur += 1;
    }
    let r = Lr0Automaton { nodes, edges };
    proof {
        lemma_bfs_final(*g, r);
    }
    r
}

} // verus!
