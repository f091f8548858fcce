use vstd::prelude::*;
use crate::grammar::{contains_char, is_nonterminal, is_nonterminal_char, is_terminal, is_terminal_char, Grammar};

verus! {

/// One round of nullable marking: `s` and the drivers of every production
/// whose body lies in `s`.
pub open spec fn null_step(g: Grammar, s: Set<char>) -> Set<char> {
    s.union(
        Set::new(
            |c: char|
                exists|p: int|
                    0 <= p < g.prod_count() && #[trigger] g.driver(p) == c && forall|m: int|
                        0 <= m < g.body(p).len() ==> s.contains(#[trigger] g.body(p)[m]),
        ),
    )
}

/// The symbols that derive the empty string by a derivation of height at most `k`.
pub open spec fn null_n(g: Grammar, k: nat) -> Set<char>
    decreases k,
{
    if k == 0 {
        Set::empty()
    } else {
        null_step(g, null_n(g, (k - 1) as nat))
    }
}

/// `c` derives the empty string.
pub open spec fn is_nullable(g: Grammar, c: char) -> bool {
    exists|k: nat| #[trigger] null_n(g, k).contains(c)
}

pub proof fn lemma_null_mono(g: Grammar, k1: nat, k2: nat)
    requires
        k1 <= k2,
    ensures
        null_n(g, k1).subset_of(null_n(g, k2)),
    decreases k2,
{
    if k1 < k2 {
        lemma_null_mono(g, k1, (k2 - 1) as nat);
    }
}

/// A set that contains the driver of every production whose body it contains
/// holds every nullable symbol.
pub proof fn lemma_null_closed(g: Grammar, s: Set<char>, k: nat)
    requires
        forall|p: int|
            0 <= p < g.prod_count() && (forall|m: int| 0 <= m < g.body(p).len() ==> s.contains(#[trigger] g.body(p)[m]))
                ==> s.contains(#[trigger] g.driver(p)),
    ensures
        null_n(g, k).subset_of(s),
    decreases k,
{
    if k > 0 {
        lemma_null_closed(g, s, (k - 1) as nat);
        let prev = null_n(g, (k - 1) as nat);
        assert forall|c: char| null_n(g, k).contains(c) implies s.contains(c) by {
            if !prev.contains(c) {
                let p = choose|p: int|
                    0 <= p < g.prod_count() && #[trigger] g.driver(p) == c && forall|m: int|
                        0 <= m < g.body(p).len() ==> prev.contains(#[trigger] g.body(p)[m]);
                assert forall|m: int| 0 <= m < g.body(p).len() implies s.contains(#[trigger] g.body(p)[m]) by {
                    assert(prev.contains(g.body(p)[m]));
                }
            }
        }
    }
}

/// A duplicate-free sequence drawn from `t` is no longer than `t`.
pub proof fn lemma_distinct_within(s: Seq<char>, t: Seq<char>)
    requires
        s.no_duplicates(),
        forall|x: char| s.contains(x) ==> #[trigger] t.contains(x),
    ensures
        s.len() <= t.len(),
{
    broadcast use vstd::seq_lib::seq_to_set_is_finite;

    s.unique_seq_to_set();
    t.lemma_cardinality_of_set();
    assert(s.to_set().subset_of(t.to_set()));
    vstd::set_lib::lemma_len_subset(s.to_set(), t.to_set());
}

/// Every symbol of `body` is in `set`.
pub fn all_in(body: &Vec<char>, set: &Vec<char>) -> (r: bool)
    ensures
        r == forall|m: int| 0 <= m < body@.len() ==> set@.contains(#[trigger] body@[m]),
{
    let mut m: usize = 0;
    while m < body.len()
        invariant
            0 <= m <= body@.len(),
            forall|m2: int| 0 <= m2 < m ==> set@.contains(#[trigger] body@[m2]),
        decreases body@.len() - m,
    {
        if !contains_char(set, body[m]) {
            return false;
        }
        m += 1;
    }
    true
}

/// The nullable nonterminals, marked round by round until none is added.
pub fn compute_nullables(g: &Grammar) -> (r: Vec<char>)
    requires
        g.wf(),
    ensures
        r@.no_duplicates(),
        forall|c: char| #[trigger] r@.contains(c) <==> is_nullable(*g, c),
{
    let n = g.productions.len();
    let mut nul: Vec<char> = Vec::new();
    let ghost mut level: nat = 0;
    let mut done = false;
    while !done
        invariant
            g.wf(),
            n == g.prod_count(),
            nul@.no_duplicates(),
            forall|c: char| #[trigger] nul@.contains(c) ==> null_n(*g, level).contains(c) && g.non_terms@.contains(c),
            done ==> forall|p: int|
                0 <= p < n && (forall|m: int| 0 <= m < g.body(p).len() ==> nul@.contains(#[trigger] g.body(p)[m]))
                    ==> nul@.contains(#[trigger] g.driver(p)),
        decreases (g.non_terms@.len() - nul@.len()) * 2 + if done { 0int } else { 1int },
    {
        proof {
            lemma_distinct_within(nul@, g.non_terms@);
        }
        let ghost len0 = nul@.len();
        let mut changed = false;
        let mut p: usize = 0;
        while p < n
            invariant
                g.wf(),
                n == g.prod_count(),
                0 <= p <= n,
                nul@.no_duplicates(),
                forall|c: char| #[trigger] nul@.contains(c) ==> null_n(*g, level).contains(c) && g.non_terms@.contains(c),
                changed ==> nul@.len() > len0,
                !changed ==> nul@.len() == len0,
                !changed ==> forall|p2: int|
                    0 <= p2 < p && (forall|m: int| 0 <= m < g.body(p2).len() ==> nul@.contains(#[trigger] g.body(p2)[m]))
                        ==> nul@.contains(#[trigger] g.driver(p2)),
            decreases n - p,
        {
            let d = g.productions[p].driver;
            if !contains_char(&nul, d) && all_in(&g.productions[p].body, &nul) {
                let ghost before = nul@;
                proof {
                    assert(g.driver(p as int) == d);
                    assert(null_step(*g, null_n(*g, level)).contains(d)) by {
                        assert forall|m: int| 0 <= m < g.body(p as int).len() implies null_n(*g, level).contains(#[trigger] g.body(p as int)[m]) by {
                            assert(before.contains(g.body(p as int)[m]));
                        }
                    }
                    assert(g.is_driver(d));
                    lemma_null_mono(*g, level, level + 1);
                    level = level + 1;
                }
                nul.push(d);
                changed = true;
                proof {
                    assert forall|c: char| #[trigger] nul@.contains(c) implies null_n(*g, level).contains(c) && g.non_terms@.contains(c) by {
                        if c != d {
                            let j = choose|j: int| 0 <= j < nul@.len() && nul@[j] == c;
                            assert(before.contains(c)) by {
                                assert(before[j] == c);
                            }
                        }
                    }
                }
            }
            p += 1;
        }
        if !changed {
            done = true;
        }
        proof {
            lemma_distinct_within(nul@, g.non_terms@);
        }
    }
    proof {
        assert forall|c: char| #[trigger] nul@.contains(c) <==> is_nullable(*g, c) by {
            if nul@.contains(c) {
                assert(null_n(*g, level).contains(c));
            }
            if is_nullable(*g, c) {
                let k = choose|k: nat| #[trigger] null_n(*g, k).contains(c);
                lemma_null_closed(*g, nul@.to_set(), k);
                assert(nul@.to_set().contains(c));
            }
        }
    }
    nul
}

} // verus!

verus! {

/// `c` is a terminal of `body` that only nullable nonterminals precede.
pub open spec fn first_term_of(g: Grammar, body: Seq<char>, c: char) -> bool {
    exists|i: int| 0 <= i < body.len() && body[i] == c && is_terminal(c) && #[trigger] nullable_prefix(g, body, i)
}

/// The FIRST seed of `x`: a terminal that starts a body of `x` but for a
/// nullable prefix.
pub open spec fn first_seed(g: Grammar, x: char, c: char) -> bool {
    exists|p: int| 0 <= p < g.prod_count() && g.driver(p) == x && #[trigger] first_term_of(g, g.body(p), c)
}

/// The symbols of `body` before position `i` are nullable nonterminals.
pub open spec fn nullable_prefix(g: Grammar, body: Seq<char>, i: int) -> bool {
    forall|j: int| 0 <= j < i ==> is_nonterminal(#[trigger] body[j]) && is_nullable(g, body[j])
}

/// Some nonterminal `y` follows a nullable prefix of `body`.
pub open spec fn leads_with(g: Grammar, body: Seq<char>, y: char) -> bool {
    exists|i: int| 0 <= i < body.len() && body[i] == y && is_nonterminal(y) && #[trigger] nullable_prefix(g, body, i)
}

/// FIRST of the nonterminal numbered `a` takes in FIRST of the one numbered `b`.
pub open spec fn first_rel(g: Grammar) -> spec_fn(int, int) -> bool {
    |a: int, b: int| first_dep(g, a, b)
}

/// Some production of nonterminal `a` leads with nonterminal `b` after a nullable prefix.
pub open spec fn first_dep(g: Grammar, a: int, b: int) -> bool {
    0 <= a < g.non_terms@.len() && 0 <= b < g.non_terms@.len() && exists|p: int|
        0 <= p < g.prod_count() && g.driver(p) == g.non_terms@[a] && #[trigger] leads_with(g, g.body(p), g.non_terms@[b])
}

/// `c` is in FIRST of the nonterminal numbered `a`: the seed of some
/// nonterminal that `a` reaches in the FIRST graph.
pub open spec fn in_first(g: Grammar, a: int, c: char) -> bool {
    exists|b: int|
        0 <= b < g.non_terms@.len() && #[trigger] crate::graph::reaches(first_rel(g), a, b) && first_seed(
            g,
            g.non_terms@[b],
            c,
        )
}

pub fn index_of(v: &Vec<char>, c: char) -> (r: Option<usize>)
    ensures
        match r {
            Some(i) => i < v@.len() && v@[i as int] == c,
            None => !v@.contains(c),
        },
{
    let mut i: usize = 0;
    while i < v.len()
        invariant
            0 <= i <= v@.len(),
            forall|j: int| 0 <= j < i ==> v@[j] != c,
        decreases v@.len() - i,
    {
        if v[i] == c {
            return Some(i);
        }
        i += 1;
    }
    None
}

/// The terminal that starts `body` but for a nullable prefix, if any.
pub fn first_terminal(g: &Grammar, body: &Vec<char>, nul: &Vec<char>) -> (r: Option<char>)
    requires
        forall|c: char| #[trigger] nul@.contains(c) <==> is_nullable(*g, c),
    ensures
        forall|c: char| r == Some(c) <==> first_term_of(*g, body@, c),
{
    let mut i: usize = 0;
    while i < body.len()
        invariant
            forall|c: char| #[trigger] nul@.contains(c) <==> is_nullable(*g, c),
            0 <= i <= body@.len(),
            nullable_prefix(*g, body@, i as int),
        decreases body@.len() - i,
    {
        let x = body[i];
        if is_terminal_char(x) {
            proof {
                assert forall|d: char| Some(x) == Some(d) <==> first_term_of(*g, body@, d) by {
                    if first_term_of(*g, body@, d) {
                        let k = choose|k: int| 0 <= k < body@.len() && body@[k] == d && is_terminal(d) && #[trigger] nullable_prefix(*g, body@, k);
                        if k > i {
                            assert(is_nonterminal(body@[i as int]));
                        } else if k < i {
                            assert(nullable_prefix(*g, body@, i as int));
                            assert(is_nonterminal(body@[k]));
                        }
                    }
                    if d == x {
                        assert(body@[i as int] == d);
                    }
                }
            }
            return Some(x);
        }
        if !(is_nonterminal_char(x) && contains_char(nul, x)) {
            proof {
                assert forall|d: char| !first_term_of(*g, body@, d) by {
                    if first_term_of(*g, body@, d) {
                        let k = choose|k: int| 0 <= k < body@.len() && body@[k] == d && is_terminal(d) && #[trigger] nullable_prefix(*g, body@, k);
                        if k > i {
                            assert(is_nonterminal(body@[i as int]) && is_nullable(*g, body@[i as int]));
                        } else if k < i {
                            assert(is_nonterminal(body@[k]));
                        }
                    }
                }
            }
            return None;
        }
        proof {
            assert forall|j: int| 0 <= j < i + 1 implies is_nonterminal(#[trigger] body@[j]) && is_nullable(*g, body@[j]) by {
                if j < i {
                    assert(nullable_prefix(*g, body@, i as int));
                }
            }
        }
        i += 1;
    }
    proof {
        assert forall|d: char| !first_term_of(*g, body@, d) by {
            if first_term_of(*g, body@, d) {
                let k = choose|k: int| 0 <= k < body@.len() && body@[k] == d && is_terminal(d) && #[trigger] nullable_prefix(*g, body@, k);
                assert(is_nonterminal(body@[k]));
            }
        }
    }
    None
}

/// The FIRST seeds, one set per nonterminal of `g.non_terms`.
fn first_seeds(g: &Grammar, nul: &Vec<char>) -> (r: Vec<Vec<char>>)
    requires
        g.wf(),
        forall|c: char| #[trigger] nul@.contains(c) <==> is_nullable(*g, c),
    ensures
        r@.len() == g.non_terms@.len(),
        forall|a: int| 0 <= a < r@.len() ==> (#[trigger] r@[a])@.no_duplicates(),
        forall|a: int, c: char| 0 <= a < r@.len() ==> (#[trigger] r@[a]@.contains(c) <==> first_seed(*g, g.non_terms@[a], c)),
{
    let k = g.non_terms.len();
    let mut seeds: Vec<Vec<char>> = Vec::new();
    let mut a: usize = 0;
    while a < k
        invariant
            0 <= a <= k,
            seeds@.len() == a,
            forall|a2: int| 0 <= a2 < a ==> (#[trigger] seeds@[a2])@.len() == 0,
        decreases k - a,
    {
        seeds.push(Vec::new());
        a += 1;
    }
    let n = g.productions.len();
    let mut p: usize = 0;
    while p < n
        invariant
            g.wf(),
            forall|c: char| #[trigger] nul@.contains(c) <==> is_nullable(*g, c),
            n == g.prod_count(),
            k == g.non_terms@.len(),
            0 <= p <= n,
            seeds@.len() == k,
            forall|a2: int| 0 <= a2 < k ==> (#[trigger] seeds@[a2])@.no_duplicates(),
            forall|a2: int, c: char|
                0 <= a2 < k ==> (#[trigger] seeds@[a2]@.contains(c) <==> exists|p2: int|
                    0 <= p2 < p && g.driver(p2) == g.non_terms@[a2] && #[trigger] first_term_of(*g, g.body(p2), c)),
        decreases n - p,
    {
        let d = g.productions[p].driver;
        proof {
            assert(g.is_driver(d)) by {
                assert(g.driver(p as int) == d);
            }
        }
        let a = index_of(&g.non_terms, d).unwrap();
        let ghost s0 = seeds@;
        match first_terminal(g, &g.productions[p].body, nul) {
            Some(c) => {
                let mut one: Vec<char> = Vec::new();
                one.push(c);
                let mut cur = crate::graph::copy_chars(&seeds[a]);
                crate::graph::union_into(&mut cur, &one);
                seeds.set(a, cur);
                proof {
                    assert forall|a2: int, x: char|
                        0 <= a2 < k implies (#[trigger] seeds@[a2]@.contains(x) <==> exists|p2: int|
                            0 <= p2 < p + 1 && g.driver(p2) == g.non_terms@[a2] && #[trigger] first_term_of(*g, g.body(p2), x)) by {
                        if a2 != a {
                            assert(seeds@[a2] == s0[a2]);
                            if exists|p2: int| 0 <= p2 < p + 1 && g.driver(p2) == g.non_terms@[a2] && #[trigger] first_term_of(*g, g.body(p2), x) {
                                let p2 = choose|p2: int| 0 <= p2 < p + 1 && g.driver(p2) == g.non_terms@[a2] && #[trigger] first_term_of(*g, g.body(p2), x);
                                if p2 == p {
                                    assert(g.non_terms@[a2] == g.non_terms@[a as int]);
                                }
                            }
                        } else {
                            assert(one@.contains(x) <==> x == c) by {
                                if x == c {
                                    assert(one@[0] == x);
                                }
                            }
                            if x == c {
                                assert(first_term_of(*g, g.body(p as int), x));
                                assert(g.driver(p as int) == g.non_terms@[a2]);
                            }
                            if exists|p2: int| 0 <= p2 < p + 1 && g.driver(p2) == g.non_terms@[a2] && #[trigger] first_term_of(*g, g.body(p2), x) {
                                let p2 = choose|p2: int| 0 <= p2 < p + 1 && g.driver(p2) == g.non_terms@[a2] && #[trigger] first_term_of(*g, g.body(p2), x);
                                if p2 == p {
                                    assert(Some(c) == Some(x));
                                }
                            }
                        }
                    }
                }
            },
            None => {
                proof {
                    assert forall|a2: int, x: char|
                        0 <= a2 < k implies (#[trigger] seeds@[a2]@.contains(x) <==> exists|p2: int|
                            0 <= p2 < p + 1 && g.driver(p2) == g.non_terms@[a2] && #[trigger] first_term_of(*g, g.body(p2), x)) by {
                        if exists|p2: int| 0 <= p2 < p + 1 && g.driver(p2) == g.non_terms@[a2] && #[trigger] first_term_of(*g, g.body(p2), x) {
                            let p2 = choose|p2: int| 0 <= p2 < p + 1 && g.driver(p2) == g.non_terms@[a2] && #[trigger] first_term_of(*g, g.body(p2), x);
                        }
                    }
                }
            },
        }
        p += 1;
    }
    seeds
}

} // verus!

verus! {

/// The edges of the FIRST graph over the numbering of `g.non_terms`.
fn first_edges(g: &Grammar, nul: &Vec<char>) -> (r: Vec<(usize, usize)>)
    requires
        g.wf(),
        forall|c: char| #[trigger] nul@.contains(c) <==> is_nullable(*g, c),
    ensures
        forall|e: int| 0 <= e < r@.len() ==> (#[trigger] r@[e]).0 < g.non_terms@.len() && r@[e].1 < g.non_terms@.len(),
        crate::graph::edge_rel(r@) == first_rel(*g),
{
    let k = g.non_terms.len();
    let n = g.productions.len();
    let mut edges: Vec<(usize, usize)> = Vec::new();
    let mut p: usize = 0;
    while p < n
        invariant
            g.wf(),
            forall|c: char| #[trigger] nul@.contains(c) <==> is_nullable(*g, c),
            n == g.prod_count(),
            k == g.non_terms@.len(),
            0 <= p <= n,
            forall|e: int| 0 <= e < edges@.len() ==> (#[trigger] edges@[e]).0 < k && edges@[e].1 < k,
            forall|a: int, b: int|
                #[trigger] crate::graph::has_edge(edges@, a, b) <==> (0 <= a < k && 0 <= b < k && exists|p2: int|
                    0 <= p2 < p && g.driver(p2) == g.non_terms@[a] && #[trigger] leads_with(*g, g.body(p2), g.non_terms@[b])),
        decreases n - p,
    {
        let d = g.productions[p].driver;
        proof {
            assert(g.is_driver(d)) by {
                assert(g.driver(p as int) == d);
            }
        }
        let a = index_of(&g.non_terms, d).unwrap();
        let ghost body = g.body(p as int);
        let ghost edges0 = edges@;
        let blen = g.productions[p].body.len();
        let mut i: usize = 0;
        let mut stop = false;
        while i < blen && !stop
            invariant
                g.wf(),
                forall|c: char| #[trigger] nul@.contains(c) <==> is_nullable(*g, c),
                n == g.prod_count(),
                k == g.non_terms@.len(),
                p < n,
                a < k,
                g.non_terms@[a as int] == g.driver(p as int),
                body == g.body(p as int),
                blen == body.len(),
                forall|a2: int, b2: int|
                    #[trigger] crate::graph::has_edge(edges0, a2, b2) <==> (0 <= a2 < k && 0 <= b2 < k && exists|p2: int|
                        0 <= p2 < p && g.driver(p2) == g.non_terms@[a2] && #[trigger] leads_with(*g, g.body(p2), g.non_terms@[b2])),
                0 <= i <= blen,
                !stop ==> nullable_prefix(*g, body, i as int),
                stop ==> i > 0 && !(is_nonterminal(body[i - 1]) && is_nullable(*g, body[i - 1])),
                forall|e: int| 0 <= e < edges@.len() ==> (#[trigger] edges@[e]).0 < k && edges@[e].1 < k,
                forall|a2: int, b: int|
                    #[trigger] crate::graph::has_edge(edges@, a2, b) <==> (crate::graph::has_edge(edges0, a2, b) || (a2 == a && 0 <= b < k
                        && exists|i2: int|
                        0 <= i2 < i && body[i2] == g.non_terms@[b] && is_nonterminal(g.non_terms@[b]) && #[trigger] nullable_prefix(
                            *g,
                            body,
                            i2,
                        ))),
            decreases blen - i,
        {
            let x = g.productions[p].body[i];
            let ghost eb = edges@;
            let ob = if is_nonterminal_char(x) {
                index_of(&g.non_terms, x)
            } else {
                None
            };
            if let Some(b) = ob {
                edges.push((a, b));
            }
            proof {
                assert forall|a2: int, b2: int|
                    crate::graph::has_edge(edges@, a2, b2) <==> (crate::graph::has_edge(eb, a2, b2) || (a2 == a && 0 <= b2 < k && ob == Some(b2 as usize))) by {
                    if crate::graph::has_edge(eb, a2, b2) {
                        let e = choose|e: int| 0 <= e < eb.len() && (#[trigger] eb[e]).0 == a2 && eb[e].1 == b2;
                        assert(edges@[e] == eb[e]);
                    }
                    if a2 == a && 0 <= b2 < k && ob == Some(b2 as usize) {
                        assert(edges@[eb.len() as int] == (a, b2 as usize));
                    }
                    if crate::graph::has_edge(edges@, a2, b2) {
                        let e = choose|e: int| 0 <= e < edges@.len() && (#[trigger] edges@[e]).0 == a2 && edges@[e].1 == b2;
                        if e < eb.len() {
                            assert(eb[e] == edges@[e]);
                        }
                    }
                }
                assert(nullable_prefix(*g, body, i as int));
                assert forall|a2: int, b2: int|
                    crate::graph::has_edge(edges@, a2, b2) <==> (crate::graph::has_edge(edges0, a2, b2) || (a2 == a && 0 <= b2 < k
                        && exists|i2: int|
                        0 <= i2 < i + 1 && body[i2] == g.non_terms@[b2] && is_nonterminal(g.non_terms@[b2]) && #[trigger] nullable_prefix(
                            *g,
                            body,
                            i2,
                        ))) by {
                    let newcase = a2 == a && 0 <= b2 < k && body[i as int] == g.non_terms@[b2] && is_nonterminal(g.non_terms@[b2]);
                    assert(body[i as int] == x);
                    let old_rhs = crate::graph::has_edge(edges0, a2, b2) || (a2 == a && 0 <= b2 < k && exists|i2: int|
                        0 <= i2 < i && body[i2] == g.non_terms@[b2] && is_nonterminal(g.non_terms@[b2]) && #[trigger] nullable_prefix(*g, body, i2));
                    assert(crate::graph::has_edge(eb, a2, b2) == old_rhs);
                    if newcase {
                        assert(g.non_terms@.contains(x)) by {
                            assert(g.non_terms@[b2] == x);
                        }
                        let bb = ob.unwrap();
                        assert(g.non_terms@[bb as int] == g.non_terms@[b2]);
                        assert(bb == b2);
                    }
                    if a2 == a && 0 <= b2 < k && ob == Some(b2 as usize) {
                        assert(newcase);
                    }
                    if a2 == a && 0 <= b2 < k && exists|i2: int|
                        0 <= i2 < i + 1 && body[i2] == g.non_terms@[b2] && is_nonterminal(g.non_terms@[b2]) && #[trigger] nullable_prefix(*g, body, i2) {
                        let i2 = choose|i2: int|
                            0 <= i2 < i + 1 && body[i2] == g.non_terms@[b2] && is_nonterminal(g.non_terms@[b2]) && #[trigger] nullable_prefix(*g, body, i2);
                        if i2 == i {
                            assert(newcase);
                        }
                    }
                }
            }
            if !(is_nonterminal_char(x) && contains_char(nul, x)) {
                stop = true;
            }
            proof {
                if !stop {
                    assert forall|j: int| 0 <= j < i + 1 implies is_nonterminal(#[trigger] body[j]) && is_nullable(*g, body[j]) by {
                        if j < i {
                            assert(nullable_prefix(*g, body, i as int));
                        }
                    }
                }
            }
            i += 1;
        }
        proof {
            assert forall|b2: int| 0 <= b2 < k implies (leads_with(*g, body, g.non_terms@[b2]) <==> exists|i2: int|
                0 <= i2 < i && body[i2] == g.non_terms@[b2] && is_nonterminal(g.non_terms@[b2]) && #[trigger] nullable_prefix(*g, body, i2)) by {
                if leads_with(*g, body, g.non_terms@[b2]) {
                    let i2 = choose|i2: int|
                        0 <= i2 < body.len() && body[i2] == g.non_terms@[b2] && is_nonterminal(g.non_terms@[b2]) && #[trigger] nullable_prefix(*g, body, i2);
                    if i2 >= i {
                        assert(stop);
                        assert(nullable_prefix(*g, body, i2));
                        assert(is_nonterminal(body[i - 1]) && is_nullable(*g, body[i - 1]));
                    }
                }
            }
            assert forall|a2: int, b2: int|
                crate::graph::has_edge(edges@, a2, b2) <==> (0 <= a2 < k && 0 <= b2 < k && exists|p2: int|
                    0 <= p2 < p + 1 && g.driver(p2) == g.non_terms@[a2] && #[trigger] leads_with(*g, g.body(p2), g.non_terms@[b2])) by {
                if 0 <= a2 < k && 0 <= b2 < k && exists|p2: int|
                    0 <= p2 < p + 1 && g.driver(p2) == g.non_terms@[a2] && #[trigger] leads_with(*g, g.body(p2), g.non_terms@[b2]) {
                    let p2 = choose|p2: int|
                        0 <= p2 < p + 1 && g.driver(p2) == g.non_terms@[a2] && #[trigger] leads_with(*g, g.body(p2), g.non_terms@[b2]);
                    if p2 == p {
                        assert(g.non_terms@[a2] == g.non_terms@[a as int]);
                        assert(a2 == a);
                        assert(leads_with(*g, body, g.non_terms@[b2]));
                    }
                }
                if crate::graph::has_edge(edges@, a2, b2) && !crate::graph::has_edge(edges0, a2, b2) {
                    assert(a2 == a);
                    assert(leads_with(*g, body, g.non_terms@[b2]));
                    assert(g.driver(p as int) == g.non_terms@[a2]);
                }
            }
        }
        p += 1;
    }
    proof {
        assert(crate::graph::edge_rel(edges@) =~= first_rel(*g));
    }
    edges
}

/// FIRST of every nonterminal of `g.non_terms`, in that order.
pub fn compute_first(g: &Grammar, nul: &Vec<char>) -> (r: Vec<Vec<char>>)
    requires
        g.wf(),
        forall|c: char| #[trigger] nul@.contains(c) <==> is_nullable(*g, c),
    ensures
        r@.len() == g.non_terms@.len(),
        forall|a: int| 0 <= a < r@.len() ==> (#[trigger] r@[a])@.no_duplicates(),
        forall|a: int, c: char| 0 <= a < r@.len() ==> (#[trigger] r@[a]@.contains(c) <==> in_first(*g, a, c)),
{
    let seeds = first_seeds(g, nul);
    let edges = first_edges(g, nul);
    let r = crate::graph::propagate_reference_graph(g.non_terms.len(), &edges, &seeds);
    proof {
        let rel = crate::graph::edge_rel(edges@);
        assert forall|a: int, c: char| 0 <= a < r@.len() implies (#[trigger] r@[a]@.contains(c) <==> in_first(*g, a, c)) by {
            if crate::graph::gathered(rel, crate::graph::char_sets(seeds@), a, c) {
                let b = choose|b: int|
                    0 <= b < seeds@.len() && #[trigger] crate::graph::reaches(rel, a, b) && crate::graph::char_sets(seeds@)[b].contains(c);
                assert(seeds@[b]@.contains(c));
            }
            if in_first(*g, a, c) {
                let b = choose|b: int|
                    0 <= b < g.non_terms@.len() && #[trigger] crate::graph::reaches(first_rel(*g), a, b) && first_seed(*g, g.non_terms@[b], c);
                assert(seeds@[b]@.contains(c));
                assert(crate::graph::char_sets(seeds@)[b] == seeds@[b]@);
            }
        }
    }
    r
}

} // verus!

verus! {

/// `c` is in FIRST of the declared nonterminal `x`.
pub open spec fn first_of(g: Grammar, x: char, c: char) -> bool {
    exists|a: int| 0 <= a < g.non_terms@.len() && g.non_terms@[a] == x && #[trigger] in_first(g, a, c)
}

/// What symbol `x` adds to the FOLLOW of a symbol before it: a terminal
/// itself, a nonterminal its FIRST.
pub open spec fn gain(g: Grammar, x: char, c: char) -> bool {
    (is_terminal(x) && c == x) || (is_nonterminal(x) && first_of(g, x, c))
}

/// The symbols of `body` strictly between positions `i` and `j` are nullable nonterminals.
pub open spec fn nullable_between(g: Grammar, body: Seq<char>, i: int, j: int) -> bool {
    forall|m: int| i < m < j ==> is_nonterminal(#[trigger] body[m]) && is_nullable(g, body[m])
}

/// `c` can follow the symbol at position `i` of `body` within that body.
pub open spec fn follows_at(g: Grammar, body: Seq<char>, i: int, c: char) -> bool {
    exists|j: int| i < j < body.len() && #[trigger] nullable_between(g, body, i, j) && gain(g, body[j], c)
}

/// Position `(p2, i2)` comes before position `(p, i)` in the walk over all bodies.
pub open spec fn walked(p2: int, i2: int, p: int, i: int) -> bool {
    p2 < p || (p2 == p && i2 < i)
}

/// The FOLLOW seed of `y`: what follows an occurrence of `y` within a body,
/// and `$` for the start symbol.
pub open spec fn follow_seed(g: Grammar, y: char, c: char) -> bool {
    (c == '$' && g.prod_count() > 0 && y == g.driver(0)) || follow_seed_upto(g, y, c, g.prod_count() as int, 0)
}

pub open spec fn follow_seed_upto(g: Grammar, y: char, c: char, p: int, i: int) -> bool {
    exists|p2: int, i2: int|
        0 <= p2 < g.prod_count() && 0 <= i2 < g.body(p2).len() && walked(p2, i2, p, i) && g.body(p2)[i2] == y
            && #[trigger] follows_at(g, g.body(p2), i2, c)
}

/// FOLLOW of nonterminal `b` takes in FOLLOW of nonterminal `a`: `b` ends a
/// body of `a` but for a nullable suffix.
pub open spec fn follow_dep(g: Grammar, b: int, a: int) -> bool {
    0 <= a < g.non_terms@.len() && 0 <= b < g.non_terms@.len() && follow_dep_upto(g, b, a, g.prod_count() as int, 0)
}

pub open spec fn follow_dep_upto(g: Grammar, b: int, a: int, p: int, i: int) -> bool {
    exists|p2: int, i2: int|
        0 <= p2 < g.prod_count() && 0 <= i2 < g.body(p2).len() && walked(p2, i2, p, i) && g.driver(p2) == g.non_terms@[a]
            && g.body(p2)[i2] == g.non_terms@[b] && #[trigger] nullable_between(g, g.body(p2), i2, g.body(p2).len() as int)
}

pub open spec fn follow_rel(g: Grammar) -> spec_fn(int, int) -> bool {
    |b: int, a: int| follow_dep(g, b, a)
}

/// `c` is in FOLLOW of the nonterminal numbered `b`.
pub open spec fn in_follow(g: Grammar, b: int, c: char) -> bool {
    exists|d: int|
        0 <= d < g.non_terms@.len() && #[trigger] crate::graph::reaches(follow_rel(g), b, d) && follow_seed(
            g,
            g.non_terms@[d],
            c,
        )
}

/// What follows position `i` of the body of production `p`, and whether
/// everything after it is nullable.
fn follow_after(g: &Grammar, p: usize, i: usize, nul: &Vec<char>, firsts: &Vec<Vec<char>>) -> (r: (Vec<char>, bool))
    requires
        g.wf(),
        p < g.prod_count(),
        i < g.body(p as int).len(),
        forall|c: char| #[trigger] nul@.contains(c) <==> is_nullable(*g, c),
        firsts@.len() == g.non_terms@.len(),
        forall|a: int, c: char| 0 <= a < firsts@.len() ==> (#[trigger] firsts@[a]@.contains(c) <==> in_first(*g, a, c)),
    ensures
        r.0@.no_duplicates(),
        forall|c: char| #[trigger] r.0@.contains(c) <==> follows_at(*g, g.body(p as int), i as int, c),
        r.1 == nullable_between(*g, g.body(p as int), i as int, g.body(p as int).len() as int),
{
    let ghost body = g.body(p as int);
    let blen = g.productions[p].body.len();
    let mut acc: Vec<char> = Vec::new();
    let mut j: usize = i + 1;
    let mut stop = false;
    while j < blen && !stop
        invariant
            g.wf(),
            p < g.prod_count(),
            body == g.body(p as int),
            blen == body.len(),
            i < j <= blen,
            forall|c: char| #[trigger] nul@.contains(c) <==> is_nullable(*g, c),
            firsts@.len() == g.non_terms@.len(),
            forall|a: int, c: char| 0 <= a < firsts@.len() ==> (#[trigger] firsts@[a]@.contains(c) <==> in_first(*g, a, c)),
            !stop ==> nullable_between(*g, body, i as int, j as int),
            stop ==> j > i + 1 && !(is_nonterminal(body[j - 1]) && is_nullable(*g, body[j - 1])),
            acc@.no_duplicates(),
            forall|c: char|
                #[trigger] acc@.contains(c) <==> exists|j2: int|
                    i < j2 < j && #[trigger] nullable_between(*g, body, i as int, j2) && gain(*g, body[j2], c),
        decreases blen - j,
    {
        let y = g.productions[p].body[j];
        let ghost a0 = acc@;
        let mut add: Vec<char> = Vec::new();
        if is_terminal_char(y) {
            add.push(y);
        } else if is_nonterminal_char(y) {
            if let Some(a) = index_of(&g.non_terms, y) {
                add = crate::graph::copy_chars(&firsts[a]);
            }
        }
        proof {
            assert forall|c: char| #[trigger] add@.contains(c) <==> gain(*g, y, c) by {
                if is_terminal(y) {
                    if c == y {
                        assert(add@[0] == c);
                    }
                } else if is_nonterminal(y) {
                    if first_of(*g, y, c) {
                        let a2 = choose|a2: int| 0 <= a2 < g.non_terms@.len() && g.non_terms@[a2] == y && #[trigger] in_first(*g, a2, c);
                        assert(g.non_terms@.contains(y));
                    }
                }
            }
        }
        crate::graph::union_into(&mut acc, &add);
        proof {
            assert(body[j as int] == y);
            assert forall|c: char|
                #[trigger] acc@.contains(c) <==> exists|j2: int|
                    i < j2 < j + 1 && #[trigger] nullable_between(*g, body, i as int, j2) && gain(*g, body[j2], c) by {
                if exists|j2: int| i < j2 < j + 1 && #[trigger] nullable_between(*g, body, i as int, j2) && gain(*g, body[j2], c) {
                    let j2 = choose|j2: int| i < j2 < j + 1 && #[trigger] nullable_between(*g, body, i as int, j2) && gain(*g, body[j2], c);
                    if j2 < j {
                        assert(a0.contains(c));
                    }
                }
                if add@.contains(c) {
                    assert(nullable_between(*g, body, i as int, j as int));
                }
            }
        }
        if !(is_nonterminal_char(y) && contains_char(nul, y)) {
            stop = true;
        }
        proof {
            if !stop {
                assert forall|m: int| i < m < j + 1 implies is_nonterminal(#[trigger] body[m]) && is_nullable(*g, body[m]) by {
                    if m < j {
                        assert(nullable_between(*g, body, i as int, j as int));
                    }
                }
            }
        }
        j += 1;
    }
    proof {
        assert forall|c: char| #[trigger] acc@.contains(c) <==> follows_at(*g, body, i as int, c) by {
            if follows_at(*g, body, i as int, c) {
                let j2 = choose|j2: int| i < j2 < body.len() && #[trigger] nullable_between(*g, body, i as int, j2) && gain(*g, body[j2], c);
                if j2 >= j {
                    assert(nullable_between(*g, body, i as int, j2));
                    assert(is_nonterminal(body[j - 1]) && is_nullable(*g, body[j - 1]));
                }
            }
        }
        if stop {
            assert(!nullable_between(*g, body, i as int, blen as int)) by {
                assert(is_nonterminal(body[j - 1]) ==> !is_nullable(*g, body[j - 1]));
            }
        }
    }
    (acc, !stop)
}

} // verus!

verus! {

/// The FOLLOW seeds (without `$`) and the edges of the FOLLOW graph.
fn follow_graph(g: &Grammar, nul: &Vec<char>, firsts: &Vec<Vec<char>>) -> (r: (Vec<Vec<char>>, Vec<(usize, usize)>))
    requires
        g.wf(),
        forall|c: char| #[trigger] nul@.contains(c) <==> is_nullable(*g, c),
        firsts@.len() == g.non_terms@.len(),
        forall|a: int, c: char| 0 <= a < firsts@.len() ==> (#[trigger] firsts@[a]@.contains(c) <==> in_first(*g, a, c)),
    ensures
        r.0@.len() == g.non_terms@.len(),
        forall|b: int| 0 <= b < r.0@.len() ==> (#[trigger] r.0@[b])@.no_duplicates(),
        forall|b: int, c: char|
            0 <= b < r.0@.len() ==> (#[trigger] r.0@[b]@.contains(c) <==> follow_seed_upto(*g, g.non_terms@[b], c, g.prod_count() as int, 0)),
        forall|e: int| 0 <= e < r.1@.len() ==> (#[trigger] r.1@[e]).0 < g.non_terms@.len() && r.1@[e].1 < g.non_terms@.len(),
        crate::graph::edge_rel(r.1@) == follow_rel(*g),
{
    let k = g.non_terms.len();
    let n = g.productions.len();
    let mut seeds: Vec<Vec<char>> = Vec::new();
    let mut a: usize = 0;
    while a < k
        invariant
            0 <= a <= k,
            seeds@.len() == a,
            forall|a2: int| 0 <= a2 < a ==> (#[trigger] seeds@[a2])@.len() == 0,
        decreases k - a,
    {
        seeds.push(Vec::new());
        a += 1;
    }
    let mut edges: Vec<(usize, usize)> = Vec::new();
    let mut p: usize = 0;
    while p < n
        invariant
            g.wf(),
            forall|c: char| #[trigger] nul@.contains(c) <==> is_nullable(*g, c),
            firsts@.len() == g.non_terms@.len(),
            forall|a2: int, c: char| 0 <= a2 < firsts@.len() ==> (#[trigger] firsts@[a2]@.contains(c) <==> in_first(*g, a2, c)),
            n == g.prod_count(),
            k == g.non_terms@.len(),
            0 <= p <= n,
            seeds@.len() == k,
            forall|b: int| 0 <= b < k ==> (#[trigger] seeds@[b])@.no_duplicates(),
            forall|b: int, c: char|
                0 <= b < k ==> (#[trigger] seeds@[b]@.contains(c) <==> follow_seed_upto(*g, g.non_terms@[b], c, p as int, 0)),
            forall|e: int| 0 <= e < edges@.len() ==> (#[trigger] edges@[e]).0 < k && edges@[e].1 < k,
            forall|b: int, a2: int|
                #[trigger] crate::graph::has_edge(edges@, b, a2) <==> (0 <= a2 < k && 0 <= b < k && follow_dep_upto(*g, b, a2, p as int, 0)),
        decreases n - p,
    {
        let d = g.productions[p].driver;
        proof {
            assert(g.is_driver(d)) by {
                assert(g.driver(p as int) == d);
            }
        }
        let ad = index_of(&g.non_terms, d).unwrap();
        let blen = g.productions[p].body.len();
        let mut i: usize = 0;
        proof {
            assert forall|y: char, c: char| follow_seed_upto(*g, y, c, p as int, 0) == follow_seed_upto(*g, y, c, p as int, i as int) by {}
            assert forall|b: int, a2: int| follow_dep_upto(*g, b, a2, p as int, 0) == follow_dep_upto(*g, b, a2, p as int, i as int) by {}
        }
        while i < blen
            invariant
                g.wf(),
                forall|c: char| #[trigger] nul@.contains(c) <==> is_nullable(*g, c),
                firsts@.len() == g.non_terms@.len(),
                forall|a2: int, c: char| 0 <= a2 < firsts@.len() ==> (#[trigger] firsts@[a2]@.contains(c) <==> in_first(*g, a2, c)),
                n == g.prod_count(),
                k == g.non_terms@.len(),
                p < n,
                ad < k,
                g.non_terms@[ad as int] == g.driver(p as int),
                blen == g.body(p as int).len(),
                0 <= i <= blen,
                seeds@.len() == k,
                forall|b: int| 0 <= b < k ==> (#[trigger] seeds@[b])@.no_duplicates(),
                forall|b: int, c: char|
                    0 <= b < k ==> (#[trigger] seeds@[b]@.contains(c) <==> follow_seed_upto(*g, g.non_terms@[b], c, p as int, i as int)),
                forall|e: int| 0 <= e < edges@.len() ==> (#[trigger] edges@[e]).0 < k && edges@[e].1 < k,
                forall|b: int, a2: int|
                    #[trigger] crate::graph::has_edge(edges@, b, a2) <==> (0 <= a2 < k && 0 <= b < k && follow_dep_upto(*g, b, a2, p as int, i as int)),
            decreases blen - i,
        {
            let x = g.productions[p].body[i];
            let ghost body = g.body(p as int);
            let ghost s0 = seeds@;
            let ghost e0 = edges@;
            let ob = if is_nonterminal_char(x) {
                index_of(&g.non_terms, x)
            } else {
                None
            };
            proof {
                assert(body[i as int] == x);
            }
            match ob {
                Some(b) => {
                    let (acc, rest) = follow_after(g, p, i, nul, firsts);
                    let mut cur = crate::graph::copy_chars(&seeds[b]);
                    crate::graph::union_into(&mut cur, &acc);
                    seeds.set(b, cur);
                    if rest {
                        edges.push((b, ad));
                    }
                    proof {
                        assert forall|b2: int, c: char|
                            0 <= b2 < k implies (#[trigger] seeds@[b2]@.contains(c) <==> follow_seed_upto(*g, g.non_terms@[b2], c, p as int, i + 1)) by {
                            if follow_seed_upto(*g, g.non_terms@[b2], c, p as int, i + 1) {
                                let (p2, i2) = choose|p2: int, i2: int|
                                    0 <= p2 < g.prod_count() && 0 <= i2 < g.body(p2).len() && walked(p2, i2, p as int, i + 1) && g.body(p2)[i2] == g.non_terms@[b2]
                                        && #[trigger] follows_at(*g, g.body(p2), i2, c);
                                if p2 == p && i2 == i {
                                    assert(g.non_terms@[b2] == g.non_terms@[b as int]);
                                    assert(b2 == b);
                                } else {
                                    assert(follow_seed_upto(*g, g.non_terms@[b2], c, p as int, i as int));
                                }
                            }
                            if b2 == b && acc@.contains(c) {
                                assert(walked(p as int, i as int, p as int, i + 1));
                            }
                        }
                        assert forall|b2: int, a2: int|
                            #[trigger] crate::graph::has_edge(edges@, b2, a2) <==> (0 <= a2 < k && 0 <= b2 < k && follow_dep_upto(*g, b2, a2, p as int, i + 1)) by {
                            if rest {
                                assert(edges@[e0.len() as int] == (b, ad));
                            }
                            if crate::graph::has_edge(edges@, b2, a2) {
                                let e = choose|e: int| 0 <= e < edges@.len() && (#[trigger] edges@[e]).0 == b2 && edges@[e].1 == a2;
                                if e < e0.len() {
                                    assert(e0[e] == edges@[e]);
                                } else {
                                    assert(walked(p as int, i as int, p as int, i + 1));
                                }
                            }
                            if crate::graph::has_edge(e0, b2, a2) {
                                let e = choose|e: int| 0 <= e < e0.len() && (#[trigger] e0[e]).0 == b2 && e0[e].1 == a2;
                                assert(edges@[e] == e0[e]);
                            }
                            if 0 <= a2 < k && 0 <= b2 < k && follow_dep_upto(*g, b2, a2, p as int, i + 1) {
                                let (p2, i2) = choose|p2: int, i2: int|
                                    0 <= p2 < g.prod_count() && 0 <= i2 < g.body(p2).len() && walked(p2, i2, p as int, i + 1) && g.driver(p2)
                                        == g.non_terms@[a2] && g.body(p2)[i2] == g.non_terms@[b2] && #[trigger] nullable_between(
                                        *g,
                                        g.body(p2),
                                        i2,
                                        g.body(p2).len() as int,
                                    );
                                if p2 == p && i2 == i {
                                    assert(g.non_terms@[b2] == g.non_terms@[b as int]);
                                    assert(b2 == b);
                                    assert(g.non_terms@[a2] == g.non_terms@[ad as int]);
                                    assert(a2 == ad);
                                    assert(edges@[e0.len() as int] == (b, ad));
                                } else {
                                    assert(follow_dep_upto(*g, b2, a2, p as int, i as int));
                                }
                            }
                        }
                    }
                },
                None => {
                    proof {
                        assert(!(is_nonterminal(x) && g.non_terms@.contains(x)));
                        assert forall|b2: int, c: char|
                            0 <= b2 < k implies (#[trigger] seeds@[b2]@.contains(c) <==> follow_seed_upto(*g, g.non_terms@[b2], c, p as int, i + 1)) by {
                            if follow_seed_upto(*g, g.non_terms@[b2], c, p as int, i + 1) {
                                let (p2, i2) = choose|p2: int, i2: int|
                                    0 <= p2 < g.prod_count() && 0 <= i2 < g.body(p2).len() && walked(p2, i2, p as int, i + 1) && g.body(p2)[i2] == g.non_terms@[b2]
                                        && #[trigger] follows_at(*g, g.body(p2), i2, c);
                                if p2 == p && i2 == i {
                                    assert(g.non_terms@.contains(g.non_terms@[b2]));
                                } else {
                                    assert(follow_seed_upto(*g, g.non_terms@[b2], c, p as int, i as int));
                                }
                            }
                        }
                        assert forall|b2: int, a2: int|
                            #[trigger] crate::graph::has_edge(edges@, b2, a2) <==> (0 <= a2 < k && 0 <= b2 < k && follow_dep_upto(*g, b2, a2, p as int, i + 1)) by {
                            if 0 <= a2 < k && 0 <= b2 < k && follow_dep_upto(*g, b2, a2, p as int, i + 1) {
                                let (p2, i2) = choose|p2: int, i2: int|
                                    0 <= p2 < g.prod_count() && 0 <= i2 < g.body(p2).len() && walked(p2, i2, p as int, i + 1) && g.driver(p2)
                                        == g.non_terms@[a2] && g.body(p2)[i2] == g.non_terms@[b2] && #[trigger] nullable_between(
                                        *g,
                                        g.body(p2),
                                        i2,
                                        g.body(p2).len() as int,
                                    );
                                if p2 == p && i2 == i {
                                    assert(g.non_terms@.contains(g.non_terms@[b2]));
                                } else {
                                    assert(follow_dep_upto(*g, b2, a2, p as int, i as int));
                                }
                            }
                        }
                    }
                },
            }
            i += 1;
        }
        proof {
            assert forall|y: char, c: char| follow_seed_upto(*g, y, c, p as int, i as int) == follow_seed_upto(*g, y, c, p + 1, 0) by {
                if follow_seed_upto(*g, y, c, p + 1, 0) {
                    let (p2, i2) = choose|p2: int, i2: int|
                        0 <= p2 < g.prod_count() && 0 <= i2 < g.body(p2).len() && walked(p2, i2, p + 1, 0) && g.body(p2)[i2] == y
                            && #[trigger] follows_at(*g, g.body(p2), i2, c);
                    assert(walked(p2, i2, p as int, i as int));
                }
            }
            assert forall|b: int, a2: int| follow_dep_upto(*g, b, a2, p as int, i as int) == follow_dep_upto(*g, b, a2, p + 1, 0) by {
                if follow_dep_upto(*g, b, a2, p + 1, 0) {
                    let (p2, i2) = choose|p2: int, i2: int|
                        0 <= p2 < g.prod_count() && 0 <= i2 < g.body(p2).len() && walked(p2, i2, p + 1, 0) && g.driver(p2) == g.non_terms@[a2]
                            && g.body(p2)[i2] == g.non_terms@[b] && #[trigger] nullable_between(*g, g.body(p2), i2, g.body(p2).len() as int);
                    assert(walked(p2, i2, p as int, i as int));
                }
            }
        }
        p += 1;
    }
    proof {
        assert(crate::graph::edge_rel(edges@) =~= follow_rel(*g));
    }
    (seeds, edges)
}

} // verus!

verus! {

/// FIRST, FOLLOW and nullability of one nonterminal.
#[derive(Debug, Clone)]
pub struct FirstFollowSet {
    pub first: Vec<char>,
    pub follow: Vec<char>,
    pub nullable: bool,
}

impl FirstFollowSet {
    pub fn new() -> (r: FirstFollowSet)
        ensures
            r.first@.len() == 0,
            r.follow@.len() == 0,
            !r.nullable,
    {
        FirstFollowSet { first: Vec::new(), follow: Vec::new(), nullable: false }
    }
}

/// The table of FIRST / FOLLOW / nullable that `r` is for `g`: one row per
/// nonterminal of `g.non_terms`, in that order.
pub open spec fn first_follow_ok(g: Grammar, r: Seq<(char, FirstFollowSet)>) -> bool {
    &&& r.len() == g.non_terms@.len()
    &&& forall|a: int| 0 <= a < r.len() ==> (#[trigger] r[a]).0 == g.non_terms@[a]
    &&& forall|a: int| 0 <= a < r.len() ==> (#[trigger] r[a]).1.nullable == is_nullable(g, g.non_terms@[a])
    &&& forall|a: int| 0 <= a < r.len() ==> (#[trigger] r[a]).1.first@.no_duplicates() && r[a].1.follow@.no_duplicates()
    &&& forall|a: int, c: char| 0 <= a < r.len() ==> (#[trigger] r[a].1.first@.contains(c) <==> in_first(g, a, c))
    &&& forall|a: int, c: char| 0 <= a < r.len() ==> (#[trigger] r[a].1.follow@.contains(c) <==> in_follow(g, a, c))
}

impl Grammar {
    /// For each nonterminal: its FIRST set, its FOLLOW set, and whether it is nullable.
    pub fn get_first_follow_table(&self) -> (r: Vec<(char, FirstFollowSet)>)
        requires
            self.wf(),
        ensures
            first_follow_ok(*self, r@),
    {
        let g = self;
        let k = g.non_terms.len();
        let nul = compute_nullables(g);
        let firsts = compute_first(g, &nul);
        let (mut seeds, edges) = follow_graph(g, &nul, &firsts);
        let ghost seeds0 = seeds@;
        let mut start: Option<usize> = None;
        if g.productions.len() > 0 {
            let s = g.productions[0].driver;
            proof {
                assert(g.is_driver(s)) by {
                    assert(g.driver(0) == s);
                }
            }
            let b = index_of(&g.non_terms, s).unwrap();
            let mut dollar: Vec<char> = Vec::new();
            dollar.push('$');
            let mut cur = crate::graph::copy_chars(&seeds[b]);
            crate::graph::union_into(&mut cur, &dollar);
            seeds.set(b, cur);
            start = Some(b);
            proof {
                assert forall|c: char| dollar@.contains(c) <==> c == '$' by {
                    if c == '$' {
                        assert(dollar@[0] == c);
                    }
                }
            }
        }
        proof {
            assert forall|b: int, c: char| 0 <= b < k implies (#[trigger] seeds@[b]@.contains(c) <==> follow_seed(*g, g.non_terms@[b], c)) by {
                if c == '$' && g.prod_count() > 0 && g.non_terms@[b] == g.driver(0) {
                    assert(g.non_terms@[b] == g.non_terms@[start.unwrap() as int]);
                }
                if start.is_some() && b == start.unwrap() {
                } else {
                    assert(seeds@[b] == seeds0[b]);
                }
            }
        }
        let follows = crate::graph::propagate_reference_graph(k, &edges, &seeds);
        let mut r: Vec<(char, FirstFollowSet)> = Vec::new();
        let mut a: usize = 0;
        while a < k
            invariant
                g.wf(),
                k == g.non_terms@.len(),
                forall|c: char| #[trigger] nul@.contains(c) <==> is_nullable(*g, c),
                firsts@.len() == k,
                forall|a2: int| 0 <= a2 < k ==> (#[trigger] firsts@[a2])@.no_duplicates(),
                forall|a2: int, c: char| 0 <= a2 < k ==> (#[trigger] firsts@[a2]@.contains(c) <==> in_first(*g, a2, c)),
                follows@.len() == k,
                forall|a2: int| 0 <= a2 < k ==> (#[trigger] follows@[a2])@.no_duplicates(),
                forall|a2: int, c: char|
                    0 <= a2 < k ==> (#[trigger] follows@[a2]@.contains(c) <==> crate::graph::gathered(
                        crate::graph::edge_rel(edges@),
                        crate::graph::char_sets(seeds@),
                        a2,
                        c,
                    )),
                crate::graph::edge_rel(edges@) == follow_rel(*g),
                seeds@.len() == k,
                forall|b: int, c: char| 0 <= b < k ==> (#[trigger] seeds@[b]@.contains(c) <==> follow_seed(*g, g.non_terms@[b], c)),
                0 <= a <= k,
                r@.len() == a,
                first_follow_ok_upto(*g, r@),
            decreases k - a,
        {
            let sym = g.non_terms[a];
            let row = FirstFollowSet {
                first: crate::graph::copy_chars(&firsts[a]),
                follow: crate::graph::copy_chars(&follows[a]),
                nullable: contains_char(&nul, sym),
            };
            let ghost r0 = r@;
            r.push((sym, row));
            proof {
                assert forall|c: char| #[trigger] follows@[a as int]@.contains(c) <==> in_follow(*g, a as int, c) by {
                    let rel = crate::graph::edge_rel(edges@);
                    if crate::graph::gathered(rel, crate::graph::char_sets(seeds@), a as int, c) {
                        let d = choose|d: int|
                            0 <= d < seeds@.len() && #[trigger] crate::graph::reaches(rel, a as int, d) && crate::graph::char_sets(seeds@)[d].contains(c);
                        assert(seeds@[d]@.contains(c));
                    }
                    if in_follow(*g, a as int, c) {
                        let d = choose|d: int|
                            0 <= d < k && #[trigger] crate::graph::reaches(follow_rel(*g), a as int, d) && follow_seed(*g, g.non_terms@[d], c);
                        assert(seeds@[d]@.contains(c));
                        assert(crate::graph::char_sets(seeds@)[d] == seeds@[d]@);
                    }
                }
                assert forall|a2: int| 0 <= a2 < r@.len() implies #[trigger] row_ok(*g, r@[a2], a2) by {
                    if a2 < a {
                        assert(r@[a2] == r0[a2]);
                    }
                }
            }
            a += 1;
        }
        proof {
            assert forall|a2: int| 0 <= a2 < r@.len() implies (#[trigger] r@[a2]).0 == g.non_terms@[a2] by {
                assert(row_ok(*g, r@[a2], a2));
            }
            assert forall|a2: int| 0 <= a2 < r@.len() implies (#[trigger] r@[a2]).1.nullable == is_nullable(*g, g.non_terms@[a2]) by {
                assert(row_ok(*g, r@[a2], a2));
            }
            assert forall|a2: int| 0 <= a2 < r@.len() implies (#[trigger] r@[a2]).1.first@.no_duplicates() && r@[a2].1.follow@.no_duplicates() by {
                assert(row_ok(*g, r@[a2], a2));
            }
            assert forall|a2: int, c: char| 0 <= a2 < r@.len() implies (#[trigger] r@[a2].1.first@.contains(c) <==> in_first(*g, a2, c)) by {
                assert(row_ok(*g, r@[a2], a2));
            }
            assert forall|a2: int, c: char| 0 <= a2 < r@.len() implies (#[trigger] r@[a2].1.follow@.contains(c) <==> in_follow(*g, a2, c)) by {
                assert(row_ok(*g, r@[a2], a2));
            }
        }
        r
    }
}

/// Row `a` of a FIRST / FOLLOW table is right.
pub open spec fn row_ok(g: Grammar, row: (char, FirstFollowSet), a: int) -> bool {
    &&& row.0 == g.non_terms@[a]
    &&& row.1.nullable == is_nullable(g, g.non_terms@[a])
    &&& row.1.first@.no_duplicates() && row.1.follow@.no_duplicates()
    &&& forall|c: char| #[trigger] row.1.first@.contains(c) <==> in_first(g, a, c)
    &&& forall|c: char| #[trigger] row.1.follow@.contains(c) <==> in_follow(g, a, c)
}

pub open spec fn first_follow_ok_upto(g: Grammar, r: Seq<(char, FirstFollowSet)>) -> bool {
    forall|a: int| 0 <= a < r.len() ==> #[trigger] row_ok(g, r[a], a)
}

} // verus!
