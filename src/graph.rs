use vstd::prelude::*;
use crate::grammar::contains_char;

verus! {

/// `p` is a path of `rel`: each node is related to the next.
pub open spec fn is_path(rel: spec_fn(int, int) -> bool, p: Seq<int>) -> bool {
    p.len() >= 1 && forall|i: int| 0 <= i < p.len() - 1 ==> #[trigger] rel(p[i], p[i + 1])
}

/// `v` is reachable from `u` (in zero or more steps) of `rel`.
pub open spec fn reaches(rel: spec_fn(int, int) -> bool, u: int, v: int) -> bool {
    exists|p: Seq<int>| #[trigger] is_path(rel, p) && p[0] == u && p.last() == v
}

/// The relation that an edge list draws.
pub open spec fn edge_rel(edges: Seq<(usize, usize)>) -> spec_fn(int, int) -> bool {
    |u: int, v: int| has_edge(edges, u, v)
}

/// Some edge of the list goes from `u` to `v`.
pub open spec fn has_edge(edges: Seq<(usize, usize)>, u: int, v: int) -> bool {
    exists|e: int| 0 <= e < edges.len() && (#[trigger] edges[e]).0 == u && edges[e].1 == v
}

/// `c` lies in the seed of some node that `i` reaches.
pub open spec fn gathered(rel: spec_fn(int, int) -> bool, seeds: Seq<Seq<char>>, i: int, c: char) -> bool {
    exists|j: int| 0 <= j < seeds.len() && #[trigger] reaches(rel, i, j) && seeds[j].contains(c)
}

pub proof fn lemma_reach_refl(rel: spec_fn(int, int) -> bool, u: int)
    ensures
        reaches(rel, u, u),
{
    let p = seq![u];
    assert(is_path(rel, p));
}

pub proof fn lemma_reach_trans(rel: spec_fn(int, int) -> bool, u: int, w: int, v: int)
    requires
        reaches(rel, u, w),
        reaches(rel, w, v),
    ensures
        reaches(rel, u, v),
{
    let p1 = choose|p: Seq<int>| #[trigger] is_path(rel, p) && p[0] == u && p.last() == w;
    let p2 = choose|p: Seq<int>| #[trigger] is_path(rel, p) && p[0] == w && p.last() == v;
    let p = p1 + p2.drop_first();
    assert forall|i: int| 0 <= i < p.len() - 1 implies #[trigger] rel(p[i], p[i + 1]) by {
        if i < p1.len() - 1 {
            assert(p[i] == p1[i] && p[i + 1] == p1[i + 1]);
        } else if i == p1.len() - 1 {
            assert(p[i] == p2[0] && p[i + 1] == p2[1]);
        } else {
            let j = i - p1.len() + 1;
            assert(p[i] == p2[j] && p[i + 1] == p2[j + 1]);
        }
    }
    assert(is_path(rel, p));
    if p2.len() == 1 {
        assert(p =~= p1);
    } else {
        assert(p.last() == p2.last());
    }
}

pub proof fn lemma_reach_edge(rel: spec_fn(int, int) -> bool, u: int, v: int)
    requires
        rel(u, v),
    ensures
        reaches(rel, u, v),
{
    let p = seq![u, v];
    assert(is_path(rel, p));
}

pub proof fn lemma_reach_step(rel: spec_fn(int, int) -> bool, u: int, w: int, v: int)
    requires
        reaches(rel, u, w),
        rel(w, v),
    ensures
        reaches(rel, u, v),
{
    lemma_reach_edge(rel, w, v);
    lemma_reach_trans(rel, u, w, v);
}

/// A path that leaves `u` starts with an edge out of `u`.
pub proof fn lemma_reach_front(rel: spec_fn(int, int) -> bool, u: int, v: int)
    requires
        reaches(rel, u, v),
        u != v,
    ensures
        exists|w: int| rel(u, w) && #[trigger] reaches(rel, w, v),
{
    let p = choose|p: Seq<int>| #[trigger] is_path(rel, p) && p[0] == u && p.last() == v;
    let q = p.drop_first();
    if p.len() == 1 {
        assert(p.last() == p[0]);
    }
    let z: int = 0;
    assert(rel(p[z], p[z + 1]));
    assert forall|i: int| 0 <= i < q.len() - 1 implies #[trigger] rel(q[i], q[i + 1]) by {
        assert(q[i] == p[i + 1] && q[i + 1] == p[i + 2]);
    }
    assert(is_path(rel, q));
    assert(reaches(rel, p[1], v));
}

/// Adds to `dst` the symbols of `src` that it lacks.
pub fn union_into(dst: &mut Vec<char>, src: &Vec<char>)
    requires
        old(dst)@.no_duplicates(),
    ensures
        final(dst)@.no_duplicates(),
        forall|c: char| #[trigger] final(dst)@.contains(c) <==> (old(dst)@.contains(c) || src@.contains(c)),
{
    let mut i: usize = 0;
    while i < src.len()
        invariant
            0 <= i <= src@.len(),
            dst@.no_duplicates(),
            forall|c: char| #[trigger] dst@.contains(c) <==> (old(dst)@.contains(c) || exists|j: int| 0 <= j < i && src@[j] == c),
        decreases src@.len() - i,
    {
        let c = src[i];
        let ghost d0 = dst@;
        if !contains_char(dst, c) {
            dst.push(c);
            assert forall|x: char| #[trigger] dst@.contains(x) <==> (d0.contains(x) || x == c) by {
                if d0.contains(x) {
                    let j = choose|j: int| 0 <= j < d0.len() && d0[j] == x;
                    assert(dst@[j] == x);
                }
                if x == c {
                    assert(dst@[d0.len() as int] == x);
                }
            }
        }
        assert forall|x: char| #[trigger] dst@.contains(x) <==> (old(dst)@.contains(x) || exists|j: int| 0 <= j < i + 1 && src@[j] == x) by {
            if x == c {
                assert(src@[i as int] == x);
            }
        }
        i += 1;
    }
    assert forall|x: char| #[trigger] src@.contains(x) <==> exists|j: int| 0 <= j < i && src@[j] == x by {
        if src@.contains(x) {
            let j = choose|j: int| 0 <= j < src@.len() && src@[j] == x;
            assert(0 <= j < i && src@[j] == x);
        }
    }
}

} // verus!

verus! {

/// `i` is a member of component `c`.
pub open spec fn member(comps: Seq<Vec<usize>>, c: int, i: int) -> bool {
    0 <= c < comps.len() && exists|m: int| 0 <= m < comps[c]@.len() && comps[c]@[m] == i
}

/// Some component has `i` as a member.
pub open spec fn covered(comps: Seq<Vec<usize>>, i: int) -> bool {
    exists|c: int| #[trigger] member(comps, c, i)
}

/// `comps` are the strongly connected components of the graph on nodes
/// `0..n` with `edges`, and `cedges` the edges between distinct components.
pub open spec fn condensation_of(
    n: nat,
    edges: Seq<(usize, usize)>,
    comps: Seq<Vec<usize>>,
    cedges: Seq<(usize, usize)>,
) -> bool {
    let rel = edge_rel(edges);
    &&& forall|c: int, i: int| #[trigger] member(comps, c, i) ==> 0 <= i < n
    &&& forall|i: int| 0 <= i < n ==> #[trigger] covered(comps, i)
    &&& forall|c1: int, c2: int, i: int| #[trigger] member(comps, c1, i) && #[trigger] member(comps, c2, i) ==> c1 == c2
    &&& forall|c: int, i: int, j: int|
        #[trigger] member(comps, c, i) && #[trigger] member(comps, c, j) ==> reaches(rel, i, j)
    &&& forall|c1: int, c2: int, i: int, j: int|
        #[trigger] member(comps, c1, i) && #[trigger] member(comps, c2, j) && reaches(rel, i, j) && reaches(rel, j, i)
            ==> c1 == c2
    &&& forall|e: int, c1: int, c2: int|
        0 <= e < edges.len() && #[trigger] member(comps, c1, edges[e].0 as int) && #[trigger] member(
            comps,
            c2,
            edges[e].1 as int,
        ) && c1 != c2 ==> edge_rel(cedges)(c1, c2)
    &&& forall|ce: int|
        0 <= ce < cedges.len() ==> (#[trigger] cedges[ce]).0 != cedges[ce].1 && cedges[ce].0 < comps.len()
            && cedges[ce].1 < comps.len() && exists|e: int|
            0 <= e < edges.len() && #[trigger] member(comps, cedges[ce].0 as int, edges[e].0 as int) && member(
                comps,
                cedges[ce].1 as int,
                edges[e].1 as int,
            )
}

/// Relies on petgraph::algo::condensation with `make_acyclic`: it contracts
/// each strongly connected component to one node, whose weight lists the
/// component's nodes, and keeps one edge between distinct components that an
/// edge joins.
#[verifier::external_body]
fn condense(n: usize, edges: &Vec<(usize, usize)>) -> (r: (Vec<Vec<usize>>, Vec<(usize, usize)>))
    requires
        forall|e: int| 0 <= e < edges@.len() ==> (#[trigger] edges@[e]).0 < n && edges@[e].1 < n,
    ensures
        condensation_of(n as nat, edges@, r.0@, r.1@),
{
    let mut g = petgraph::Graph::<usize, (), petgraph::Directed, usize>::with_capacity(n, edges.len());
    for i in 0..n {
        g.add_node(i);
    }
    for &(u, v) in edges.iter() {
        g.add_edge(petgraph::graph::NodeIndex::new(u), petgraph::graph::NodeIndex::new(v), ());
    }
    let c = petgraph::algo::condensation(g, true);
    let comps = c.node_weights().cloned().collect();
    let cedges = c.raw_edges().iter().map(|e| (e.source().index(), e.target().index())).collect();
    (comps, cedges)
}

/// Relies on petgraph::algo::toposort: every node once, each before its
/// successors; a `Cycle` error when some edge closes a cycle.
#[verifier::external_body]
fn topo_sort(k: usize, edges: &Vec<(usize, usize)>) -> (r: Option<Vec<usize>>)
    requires
        forall|e: int| 0 <= e < edges@.len() ==> (#[trigger] edges@[e]).0 < k && edges@[e].1 < k,
    ensures
        r.is_none() ==> exists|e: int|
            0 <= e < edges@.len() && reaches(edge_rel(edges@), (#[trigger] edges@[e]).1 as int, edges@[e].0 as int),
        r.is_some() ==> r.unwrap()@.len() == k && r.unwrap()@.no_duplicates(),
        r.is_some() ==> forall|p: int| 0 <= p < k ==> #[trigger] r.unwrap()@[p] < k,
        r.is_some() ==> forall|d: usize| d < k ==> #[trigger] r.unwrap()@.contains(d),
        r.is_some() ==> forall|e: int, p1: int, p2: int|
            0 <= e < edges@.len() && 0 <= p1 < k && 0 <= p2 < k && #[trigger] r.unwrap()@[p1] == (#[trigger] edges@[e]).0
                && #[trigger] r.unwrap()@[p2] == edges@[e].1 ==> p1 < p2,
{
    let mut g = petgraph::Graph::<(), (), petgraph::Directed, usize>::with_capacity(k, edges.len());
    for _ in 0..k {
        g.add_node(());
    }
    for &(u, v) in edges.iter() {
        g.add_edge(petgraph::graph::NodeIndex::new(u), petgraph::graph::NodeIndex::new(v), ());
    }
    petgraph::algo::toposort(&g, None).ok().map(|o| o.iter().map(|i| i.index()).collect())
}

/// A path of the graph projects onto a path between components.
proof fn lemma_project_path(
    n: nat,
    edges: Seq<(usize, usize)>,
    comps: Seq<Vec<usize>>,
    cedges: Seq<(usize, usize)>,
    cid: Seq<usize>,
    p: Seq<int>,
)
    requires
        condensation_of(n, edges, comps, cedges),
        cid.len() == n,
        forall|i: int| 0 <= i < n ==> #[trigger] member(comps, cid[i] as int, i),
        is_path(edge_rel(edges), p),
        0 <= p[0] < n,
        forall|e: int| 0 <= e < edges.len() ==> (#[trigger] edges[e]).0 < n && edges[e].1 < n,
    ensures
        0 <= p.last() < n,
        reaches(edge_rel(cedges), cid[p[0]] as int, cid[p.last()] as int),
    decreases p.len(),
{
    let rel = edge_rel(edges);
    if p.len() == 1 {
        lemma_reach_refl(edge_rel(cedges), cid[p[0]] as int);
    } else {
        let q = p.drop_last();
        assert forall|i: int| 0 <= i < q.len() - 1 implies #[trigger] rel(q[i], q[i + 1]) by {
            assert(rel(p[i], p[i + 1]));
        }
        lemma_project_path(n, edges, comps, cedges, cid, q);
        let a = p[p.len() - 2];
        let b = p.last();
        assert(rel(p[p.len() - 2], p[p.len() - 2 + 1]));
        let e = choose|e: int| 0 <= e < edges.len() && (#[trigger] edges[e]).0 == a && edges[e].1 == b;
        assert(member(comps, cid[a] as int, a));
        assert(member(comps, cid[b] as int, b));
        if cid[a] != cid[b] {
            assert(edge_rel(cedges)(cid[a] as int, cid[b] as int));
            lemma_reach_step(edge_rel(cedges), cid[p[0]] as int, cid[a] as int, cid[b] as int);
        }
    }
}

/// A path between components lifts to paths between all their members.
proof fn lemma_lift_path(
    n: nat,
    edges: Seq<(usize, usize)>,
    comps: Seq<Vec<usize>>,
    cedges: Seq<(usize, usize)>,
    p: Seq<int>,
    i: int,
    j: int,
)
    requires
        condensation_of(n, edges, comps, cedges),
        is_path(edge_rel(cedges), p),
        member(comps, p[0], i),
        member(comps, p.last(), j),
    ensures
        reaches(edge_rel(edges), i, j),
    decreases p.len(),
{
    let rel = edge_rel(edges);
    let crel = edge_rel(cedges);
    if p.len() == 1 {
        assert(member(comps, p[0], j));
    } else {
        let q = p.drop_last();
        assert forall|x: int| 0 <= x < q.len() - 1 implies #[trigger] crel(q[x], q[x + 1]) by {
            assert(crel(p[x], p[x + 1]));
        }
        let x = p[p.len() - 2];
        let d = p.last();
        assert(crel(p[p.len() - 2], p[p.len() - 2 + 1]));
        let ce = choose|ce: int| 0 <= ce < cedges.len() && (#[trigger] cedges[ce]).0 == x && cedges[ce].1 == d;
        let e = choose|e: int|
            0 <= e < edges.len() && #[trigger] member(comps, cedges[ce].0 as int, edges[e].0 as int) && member(
                comps,
                cedges[ce].1 as int,
                edges[e].1 as int,
            );
        let a = edges[e].0 as int;
        let b = edges[e].1 as int;
        lemma_lift_path(n, edges, comps, cedges, q, i, a);
        assert(rel(a, b));
        lemma_reach_step(rel, i, a, b);
        assert(member(comps, d, b));
        assert(reaches(rel, b, j));
        lemma_reach_trans(rel, i, b, j);
    }
}

proof fn lemma_lift(
    n: nat,
    edges: Seq<(usize, usize)>,
    comps: Seq<Vec<usize>>,
    cedges: Seq<(usize, usize)>,
    c: int,
    d: int,
    i: int,
    j: int,
)
    requires
        condensation_of(n, edges, comps, cedges),
        reaches(edge_rel(cedges), c, d),
        member(comps, c, i),
        member(comps, d, j),
    ensures
        reaches(edge_rel(edges), i, j),
{
    let p = choose|p: Seq<int>| #[trigger] is_path(edge_rel(cedges), p) && p[0] == c && p.last() == d;
    lemma_lift_path(n, edges, comps, cedges, p, i, j);
}

/// The condensation has no cycle.
proof fn lemma_condensation_acyclic(
    n: nat,
    edges: Seq<(usize, usize)>,
    comps: Seq<Vec<usize>>,
    cedges: Seq<(usize, usize)>,
    ce: int,
)
    requires
        condensation_of(n, edges, comps, cedges),
        0 <= ce < cedges.len(),
    ensures
        !reaches(edge_rel(cedges), cedges[ce].1 as int, cedges[ce].0 as int),
{
    if reaches(edge_rel(cedges), cedges[ce].1 as int, cedges[ce].0 as int) {
        let c1 = cedges[ce].0 as int;
        let c2 = cedges[ce].1 as int;
        let e = choose|e: int|
            0 <= e < edges.len() && #[trigger] member(comps, c1, edges[e].0 as int) && member(comps, c2, edges[e].1 as int);
        let a = edges[e].0 as int;
        let b = edges[e].1 as int;
        assert(edge_rel(edges)(a, b));
        lemma_reach_edge(edge_rel(edges), a, b);
        lemma_lift(n, edges, comps, cedges, c2, c1, b, a);
        assert(member(comps, c1, a) && member(comps, c2, b));
    }
}

} // verus!

verus! {

pub open spec fn char_sets(v: Seq<Vec<char>>) -> Seq<Seq<char>> {
    v.map_values(|x: Vec<char>| x@)
}

pub fn copy_chars(v: &Vec<char>) -> (r: Vec<char>)
    ensures
        r@ == v@,
{
    let mut r: Vec<char> = Vec::new();
    let mut i: usize = 0;
    while i < v.len()
        invariant
            0 <= i <= v@.len(),
            r@ == v@.subrange(0, i as int),
        decreases v@.len() - i,
    {
        r.push(v[i]);
        i += 1;
        assert(r@ =~= v@.subrange(0, i as int));
    }
    assert(r@ =~= v@);
    r
}

/// Gives each node of the graph the union of the seeds of all the nodes that
/// it reaches, itself included. The strongly connected components are
/// contracted, then the sets are pushed in reverse topological order.
pub fn propagate_reference_graph(n: usize, edges: &Vec<(usize, usize)>, seeds: &Vec<Vec<char>>) -> (r: Vec<Vec<char>>)
    requires
        seeds@.len() == n,
        forall|e: int| 0 <= e < edges@.len() ==> (#[trigger] edges@[e]).0 < n && edges@[e].1 < n,
    ensures
        r@.len() == n,
        forall|i: int| 0 <= i < n ==> (#[trigger] r@[i])@.no_duplicates(),
        forall|i: int, c: char|
            0 <= i < n ==> (#[trigger] r@[i]@.contains(c) <==> gathered(edge_rel(edges@), char_sets(seeds@), i, c)),
{
    let ghost rel = edge_rel(edges@);
    let (comps, cedges) = condense(n, edges);
    let ghost crel = edge_rel(cedges@);
    let k = comps.len();
    // component of each node
    let mut cid: Vec<usize> = Vec::new();
    let mut i: usize = 0;
    while i < n
        invariant
            0 <= i <= n,
            cid@.len() == i,
        decreases n - i,
    {
        cid.push(0);
        i += 1;
    }
    let mut c: usize = 0;
    while c < k
        invariant
            k == comps@.len(),
            condensation_of(n as nat, edges@, comps@, cedges@),
            cid@.len() == n,
            0 <= c <= k,
            forall|c2: int, x: int| 0 <= c2 < c && #[trigger] member(comps@, c2, x) ==> cid@[x] == c2,
        decreases k - c,
    {
        let mut m: usize = 0;
        while m < comps[c].len()
            invariant
                k == comps@.len(),
                c < k,
                condensation_of(n as nat, edges@, comps@, cedges@),
                cid@.len() == n,
                0 <= m <= comps@[c as int]@.len(),
                forall|c2: int, x: int| 0 <= c2 < c && #[trigger] member(comps@, c2, x) ==> cid@[x] == c2,
                forall|m2: int| 0 <= m2 < m ==> cid@[#[trigger] comps@[c as int]@[m2] as int] == c,
            decreases comps@[c as int]@.len() - m,
        {
            let x = comps[c][m];
            assert(member(comps@, c as int, x as int));
            let ghost cid0 = cid@;
            cid.set(x, c);
            assert forall|c2: int, y: int| 0 <= c2 < c && #[trigger] member(comps@, c2, y) implies cid@[y] == c2 by {
                if y == x {
                    assert(member(comps@, c as int, x as int));
                }
            }
            assert forall|m2: int| 0 <= m2 < m + 1 implies cid@[#[trigger] comps@[c as int]@[m2] as int] == c by {
                assert(member(comps@, c as int, comps@[c as int]@[m2] as int));
                if comps@[c as int]@[m2] != x {
                    assert(cid0[comps@[c as int]@[m2] as int] == c);
                } else {
                    assert(cid@[x as int] == c);
                }
            }
            m += 1;
        }
        assert forall|c2: int, x: int| 0 <= c2 < c + 1 && #[trigger] member(comps@, c2, x) implies cid@[x] == c2 by {
            if c2 == c {
                let m2 = choose|m2: int| 0 <= m2 < comps@[c2]@.len() && comps@[c2]@[m2] == x;
                assert(cid@[comps@[c as int]@[m2] as int] == c);
            }
        }
        c += 1;
    }
    assert forall|x: int| 0 <= x < n implies #[trigger] member(comps@, cid@[x] as int, x) by {
        assert(covered(comps@, x));
        let c2 = choose|c2: int| #[trigger] member(comps@, c2, x);
    }
    // seed of each component
    let mut sc: Vec<Vec<char>> = Vec::new();
    let mut c: usize = 0;
    while c < k
        invariant
            k == comps@.len(),
            condensation_of(n as nat, edges@, comps@, cedges@),
            seeds@.len() == n,
            0 <= c <= k,
            sc@.len() == c,
            forall|c2: int| 0 <= c2 < c ==> (#[trigger] sc@[c2])@.no_duplicates(),
            forall|c2: int, y: char|
                0 <= c2 < c ==> (#[trigger] sc@[c2]@.contains(y) <==> exists|j: int|
                    #[trigger] member(comps@, c2, j) && seeds@[j]@.contains(y)),
        decreases k - c,
    {
        let mut acc: Vec<char> = Vec::new();
        let mut m: usize = 0;
        while m < comps[c].len()
            invariant
                k == comps@.len(),
                c < k,
                condensation_of(n as nat, edges@, comps@, cedges@),
                seeds@.len() == n,
                0 <= m <= comps@[c as int]@.len(),
                acc@.no_duplicates(),
                forall|y: char|
                    #[trigger] acc@.contains(y) <==> exists|m2: int|
                        0 <= m2 < m && seeds@[comps@[c as int]@[m2] as int]@.contains(y),
            decreases comps@[c as int]@.len() - m,
        {
            let x = comps[c][m];
            assert(member(comps@, c as int, x as int));
            union_into(&mut acc, &seeds[x]);
            assert forall|y: char|
                #[trigger] acc@.contains(y) <==> exists|m2: int| 0 <= m2 < m + 1 && seeds@[comps@[c as int]@[m2] as int]@.contains(y) by {
                if exists|m2: int| 0 <= m2 < m + 1 && seeds@[comps@[c as int]@[m2] as int]@.contains(y) {
                    let m2 = choose|m2: int| 0 <= m2 < m + 1 && seeds@[comps@[c as int]@[m2] as int]@.contains(y);
                    if m2 == m {
                        assert(seeds@[x as int]@.contains(y));
                    }
                }
            }
            m += 1;
        }
        assert forall|y: char|
            #[trigger] acc@.contains(y) <==> exists|j: int| #[trigger] member(comps@, c as int, j) && seeds@[j]@.contains(y) by {
            if acc@.contains(y) {
                let m2 = choose|m2: int| 0 <= m2 < m && seeds@[comps@[c as int]@[m2] as int]@.contains(y);
                assert(member(comps@, c as int, comps@[c as int]@[m2] as int));
            }
            if exists|j: int| #[trigger] member(comps@, c as int, j) && seeds@[j]@.contains(y) {
                let j = choose|j: int| #[trigger] member(comps@, c as int, j) && seeds@[j]@.contains(y);
                let m2 = choose|m2: int| 0 <= m2 < comps@[c as int]@.len() && comps@[c as int]@[m2] == j;
                assert(seeds@[comps@[c as int]@[m2] as int]@.contains(y));
            }
        }
        sc.push(acc);
        c += 1;
    }
    let ghost scs = char_sets(sc@);
    assert forall|ce: int| 0 <= ce < cedges@.len() implies (#[trigger] cedges@[ce]).0 < k && cedges@[ce].1 < k by {}
    let order = match topo_sort(k, &cedges) {
        Some(o) => o,
        None => {
            proof {
                let ce = choose|ce: int|
                    0 <= ce < cedges@.len() && reaches(crel, (#[trigger] cedges@[ce]).1 as int, cedges@[ce].0 as int);
                lemma_condensation_acyclic(n as nat, edges@, comps@, cedges@, ce);
            }
            Vec::new()
        },
    };
    // component sets, in reverse topological order
    let mut val: Vec<Vec<char>> = Vec::new();
    let mut c: usize = 0;
    while c < k
        invariant
            0 <= c <= k,
            val@.len() == c,
            forall|c2: int| 0 <= c2 < c ==> (#[trigger] val@[c2])@.no_duplicates(),
        decreases k - c,
    {
        val.push(Vec::new());
        c += 1;
    }
    let mut idx: usize = k;
    while idx > 0
        invariant
            k == comps@.len(),
            condensation_of(n as nat, edges@, comps@, cedges@),
            crel == edge_rel(cedges@),
            scs == char_sets(sc@),
            sc@.len() == k,
            forall|c2: int| 0 <= c2 < k ==> (#[trigger] sc@[c2])@.no_duplicates(),
            order@.len() == k,
            order@.no_duplicates(),
            forall|p: int| 0 <= p < k ==> #[trigger] order@[p] < k,
            forall|d: usize| d < k ==> #[trigger] order@.contains(d),
            forall|e: int, p1: int, p2: int|
                0 <= e < cedges@.len() && 0 <= p1 < k && 0 <= p2 < k && #[trigger] order@[p1] == (#[trigger] cedges@[e]).0
                    && #[trigger] order@[p2] == cedges@[e].1 ==> p1 < p2,
            val@.len() == k,
            0 <= idx <= k,
            forall|c2: int| 0 <= c2 < k ==> (#[trigger] val@[c2])@.no_duplicates(),
            forall|p: int, y: char|
                idx <= p < k ==> (#[trigger] val@[order@[p] as int]@.contains(y) <==> gathered(crel, scs, order@[p] as int, y)),
        decreases idx,
    {
        let cc = order[idx - 1];
        let mut acc = copy_chars(&sc[cc]);
        proof {
            assert(scs[cc as int] == sc@[cc as int]@);
        }
        let mut e: usize = 0;
        while e < cedges.len()
            invariant
                k == comps@.len(),
                condensation_of(n as nat, edges@, comps@, cedges@),
                crel == edge_rel(cedges@),
                scs == char_sets(sc@),
                sc@.len() == k,
                order@.len() == k,
                forall|p: int| 0 <= p < k ==> #[trigger] order@[p] < k,
                forall|d: usize| d < k ==> #[trigger] order@.contains(d),
                forall|e2: int, p1: int, p2: int|
                    0 <= e2 < cedges@.len() && 0 <= p1 < k && 0 <= p2 < k && #[trigger] order@[p1] == (#[trigger] cedges@[e2]).0
                        && #[trigger] order@[p2] == cedges@[e2].1 ==> p1 < p2,
                val@.len() == k,
                1 <= idx <= k,
                cc == order@[idx - 1],
                forall|p: int, y: char|
                    idx <= p < k ==> (#[trigger] val@[order@[p] as int]@.contains(y) <==> gathered(crel, scs, order@[p] as int, y)),
                0 <= e <= cedges@.len(),
                acc@.no_duplicates(),
                forall|y: char|
                    #[trigger] acc@.contains(y) <==> (scs[cc as int].contains(y) || exists|e2: int|
                        0 <= e2 < e && cedges@[e2].0 == cc && val@[cedges@[e2].1 as int]@.contains(y)),
            decreases cedges@.len() - e,
        {
            if cedges[e].0 == cc {
                let d = cedges[e].1;
                let ghost a0 = acc@;
                union_into(&mut acc, &val[d]);
                assert forall|y: char|
                    #[trigger] acc@.contains(y) <==> (scs[cc as int].contains(y) || exists|e2: int|
                        0 <= e2 < e + 1 && cedges@[e2].0 == cc && val@[cedges@[e2].1 as int]@.contains(y)) by {
                    if exists|e2: int| 0 <= e2 < e + 1 && cedges@[e2].0 == cc && val@[cedges@[e2].1 as int]@.contains(y) {
                        let e2 = choose|e2: int| 0 <= e2 < e + 1 && cedges@[e2].0 == cc && val@[cedges@[e2].1 as int]@.contains(y);
                        if e2 < e {
                            assert(a0.contains(y));
                        }
                    }
                }
            }
            e += 1;
        }
        proof {
            let p0 = idx - 1;
            assert forall|y: char| #[trigger] acc@.contains(y) <==> gathered(crel, scs, cc as int, y) by {
                if acc@.contains(y) {
                    if scs[cc as int].contains(y) {
                        lemma_reach_refl(crel, cc as int);
                        assert(reaches(crel, cc as int, cc as int));
                    } else {
                        let e2 = choose|e2: int| 0 <= e2 < e && cedges@[e2].0 == cc && val@[cedges@[e2].1 as int]@.contains(y);
                        let d = cedges@[e2].1;
                        assert(order@.contains(d));
                        let p2 = choose|p2: int| 0 <= p2 < k && order@[p2] == d;
                        assert(order@[p0 as int] == cedges@[e2].0);
                        assert(p0 < p2);
                        assert(gathered(crel, scs, order@[p2] as int, y));
                        let j = choose|j: int| 0 <= j < scs.len() && #[trigger] reaches(crel, d as int, j) && scs[j].contains(y);
                        assert(crel(cc as int, d as int));
                        lemma_reach_edge(crel, cc as int, d as int);
                        lemma_reach_trans(crel, cc as int, d as int, j);
                    }
                }
                if gathered(crel, scs, cc as int, y) {
                    let j = choose|j: int| 0 <= j < scs.len() && #[trigger] reaches(crel, cc as int, j) && scs[j].contains(y);
                    if j != cc {
                        lemma_reach_front(crel, cc as int, j);
                        let w = choose|w: int| crel(cc as int, w) && #[trigger] reaches(crel, w, j);
                        let e2 = choose|e2: int| 0 <= e2 < cedges@.len() && (#[trigger] cedges@[e2]).0 == cc && cedges@[e2].1 == w;
                        assert(order@.contains(w as usize));
                        let p2 = choose|p2: int| 0 <= p2 < k && order@[p2] == w as usize;
                        assert(order@[p0 as int] == cedges@[e2].0);
                        assert(p0 < p2);
                        assert(gathered(crel, scs, w, y));
                        assert(val@[order@[p2] as int]@.contains(y));
                    }
                }
            }
        }
        let ghost v0 = val@;
        val.set(cc, acc);
        proof {
            assert forall|p: int, y: char|
                idx - 1 <= p < k implies (#[trigger] val@[order@[p] as int]@.contains(y) <==> gathered(crel, scs, order@[p] as int, y)) by {
                if p >= idx {
                    assert(order@[p] != cc);
                    assert(val@[order@[p] as int] == v0[order@[p] as int]);
                }
            }
        }
        idx -= 1;
    }
    // the set of each node is that of its component
    let mut r: Vec<Vec<char>> = Vec::new();
    let mut i: usize = 0;
    while i < n
        invariant
            k == comps@.len(),
            condensation_of(n as nat, edges@, comps@, cedges@),
            forall|e: int| 0 <= e < edges@.len() ==> (#[trigger] edges@[e]).0 < n && edges@[e].1 < n,
            rel == edge_rel(edges@),
            crel == edge_rel(cedges@),
            scs == char_sets(sc@),
            sc@.len() == k,
            seeds@.len() == n,
            forall|c2: int, y: char|
                0 <= c2 < k ==> (#[trigger] sc@[c2]@.contains(y) <==> exists|j: int|
                    #[trigger] member(comps@, c2, j) && seeds@[j]@.contains(y)),
            cid@.len() == n,
            forall|x: int| 0 <= x < n ==> #[trigger] member(comps@, cid@[x] as int, x),
            order@.len() == k,
            forall|d: usize| d < k ==> #[trigger] order@.contains(d),
            val@.len() == k,
            forall|c2: int| 0 <= c2 < k ==> (#[trigger] val@[c2])@.no_duplicates(),
            forall|p: int, y: char|
                0 <= p < k ==> (#[trigger] val@[order@[p] as int]@.contains(y) <==> gathered(crel, scs, order@[p] as int, y)),
            0 <= i <= n,
            r@.len() == i,
            forall|x: int| 0 <= x < i ==> (#[trigger] r@[x])@.no_duplicates(),
            forall|x: int, y: char|
                0 <= x < i ==> (#[trigger] r@[x]@.contains(y) <==> gathered(rel, char_sets(seeds@), x, y)),
        decreases n - i,
    {
        let ci = cid[i];
        proof {
            assert(member(comps@, ci as int, i as int));
            assert(order@.contains(ci));
        }
        let v = copy_chars(&val[ci]);
        proof {
            let p = choose|p: int| 0 <= p < k && order@[p] == ci;
            assert forall|y: char| #[trigger] v@.contains(y) <==> gathered(rel, char_sets(seeds@), i as int, y) by {
                assert(val@[order@[p] as int]@.contains(y) <==> gathered(crel, scs, ci as int, y));
                if gathered(crel, scs, ci as int, y) {
                    let d = choose|d: int| 0 <= d < scs.len() && #[trigger] reaches(crel, ci as int, d) && scs[d].contains(y);
                    assert(scs[d] == sc@[d]@);
                    assert(sc@[d]@.contains(y));
                    let j = choose|j: int| #[trigger] member(comps@, d, j) && seeds@[j]@.contains(y);
                    lemma_lift(n as nat, edges@, comps@, cedges@, ci as int, d, i as int, j);
                    assert(char_sets(seeds@)[j] == seeds@[j]@);
                    assert(char_sets(seeds@)[j].contains(y));
                }
                if gathered(rel, char_sets(seeds@), i as int, y) {
                    let j = choose|j: int| 0 <= j < n && #[trigger] reaches(rel, i as int, j) && char_sets(seeds@)[j].contains(y);
                    let path = choose|path: Seq<int>| #[trigger] is_path(rel, path) && path[0] == i && path.last() == j;
                    lemma_project_path(n as nat, edges@, comps@, cedges@, cid@, path);
                    let d = cid@[j] as int;
                    assert(member(comps@, d, j));
                    assert(char_sets(seeds@)[j] == seeds@[j]@);
                    assert(sc@[d]@.contains(y));
                    assert(scs[d] == sc@[d]@);
                    assert(scs[d].contains(y));
                    assert(reaches(crel, ci as int, d));
                }
            }
        }
        r.push(v);
        i += 1;
    }
    r
}

} // verus!
