use vstd::prelude::*;
use crate::automaton::{advanced, same_items, Lr0Automaton};
use crate::first_follow::{first_rel, first_seed, first_term_of, in_first, is_nullable, leads_with, null_n, null_step, lemma_null_mono, nullable_prefix};
use crate::grammar::{is_nonterminal, is_reserved, is_terminal, Grammar};
use crate::graph::{is_path, reaches};
use crate::lr0::Lr0Item;

verus! {

/// Production indices equal positions; terminals and nonterminals are told
/// apart by case, share no symbol, and hold neither `@` nor `$`; the
/// augmented production `@ -> S` stands exactly when a production does, and
/// `S` drives the first production.
pub proof fn lemma_grammar_invariants(g: Grammar)
    requires
        g.wf(),
    ensures
        forall|p: int| 0 <= p < g.prod_count() ==> #[trigger] g.productions@[p].index == Some(p as usize),
        forall|c: char| #[trigger] g.terms@.contains(c) ==> is_terminal(c) && !is_nonterminal(c) && !g.non_terms@.contains(c),
        forall|c: char| #[trigger] g.non_terms@.contains(c) ==> is_nonterminal(c) && !g.terms@.contains(c),
        !g.terms@.contains('@') && !g.terms@.contains('$') && !g.non_terms@.contains('@') && !g.non_terms@.contains('$'),
        g.starting_prod.is_some() == (g.prod_count() > 0),
        g.prod_count() > 0 ==> g.starting_prod.unwrap().body@ == seq![g.driver(0)],
{
}

/// The symbols that closing `seed` followed by its closure reaches are those
/// that closing `seed` reaches.
proof fn lemma_reach_of_closed(g: Grammar, seed: Seq<Lr0Item>, c: Seq<Lr0Item>, k: nat, x: char)
    requires
        g.wf(),
        g.is_closure_of(seed, c),
        g.reach_n(seed + c, k).contains(x),
    ensures
        g.reachable(seed, x),
    decreases k,
{
    let all = seed + c;
    if k == 0 {
        assert(g.seed_next(all, x));
        let i = choose|i: int| 0 <= i < all.len() && g.next_sym(#[trigger] all[i]) == Some(x);
        if i < seed.len() {
            assert(all[i] == seed[i]);
            assert(g.seed_next(seed, x));
            assert(g.reach_n(seed, 0).contains(x));
        } else {
            let it = c[i - seed.len()];
            assert(all[i] == it);
            let q = it.production.unwrap() as int;
            assert(g.reachable(seed, g.driver(q)));
            let m = choose|m: nat| #[trigger] g.reach_n(seed, m).contains(g.driver(q));
            let r = g.reach_n(seed, m);
            assert(g.leads_to(r, x));
            assert(g.reach_n(seed, m + 1).contains(x));
        }
    } else {
        let prev = g.reach_n(all, (k - 1) as nat);
        if prev.contains(x) {
            lemma_reach_of_closed(g, seed, c, (k - 1) as nat, x);
        } else {
            assert(g.leads_to(prev, x));
            let p = choose|p: int|
                0 <= p < g.prod_count() && prev.contains(#[trigger] g.driver(p)) && g.body(p).len() > 0 && g.body(p)[0] == x;
            lemma_reach_of_closed(g, seed, c, (k - 1) as nat, g.driver(p));
            let m = choose|m: nat| #[trigger] g.reach_n(seed, m).contains(g.driver(p));
            let r = g.reach_n(seed, m);
            assert(g.leads_to(r, x));
            assert(g.reach_n(seed, m + 1).contains(x));
        }
    }
}

/// Closure is idempotent: closing a kernel together with its closure adds nothing.
pub proof fn lemma_closure_idempotent(g: Grammar, kernel: Seq<Lr0Item>, c: Seq<Lr0Item>, again: Seq<Lr0Item>)
    requires
        g.wf(),
        g.is_closure_of(kernel, c),
        g.is_closure_of(kernel + c, again),
    ensures
        again.len() == 0,
{
    if again.len() > 0 {
        let it = again[0];
        let q = it.production.unwrap() as int;
        let k = choose|k: nat| #[trigger] g.reach_n(kernel + c, k).contains(g.driver(q));
        lemma_reach_of_closed(g, kernel, c, k, g.driver(q));
        assert(it == Lr0Item { production: Some(q as usize), dot_position: 0 });
        if !kernel.contains(it) {
            assert(c.contains(it));
            let j = choose|j: int| 0 <= j < c.len() && c[j] == it;
            assert((kernel + c)[kernel.len() + j] == it);
        } else {
            let j = choose|j: int| 0 <= j < kernel.len() && kernel[j] == it;
            assert((kernel + c)[j] == it);
        }
    }
}

/// GOTO holds exactly the advanced items of `s` whose next symbol is `x`.
pub proof fn lemma_goto_members(g: Grammar, s: Seq<Lr0Item>, x: char)
    ensures
        forall|it: Lr0Item| #[trigger] g.goto_items(s, x).contains(it) <==> exists|j: int|
            0 <= j < s.len() && g.next_sym(#[trigger] s[j]) == Some(x) && it == advanced(s[j]),
    decreases s.len(),
{
    if s.len() > 0 {
        lemma_goto_members(g, s.drop_last(), x);
        let r = g.goto_items(s.drop_last(), x);
        assert forall|it: Lr0Item| #[trigger] g.goto_items(s, x).contains(it) <==> exists|j: int|
            0 <= j < s.len() && g.next_sym(#[trigger] s[j]) == Some(x) && it == advanced(s[j]) by {
            if g.goto_items(s, x).contains(it) {
                let m = choose|m: int| 0 <= m < g.goto_items(s, x).len() && g.goto_items(s, x)[m] == it;
                if m < r.len() {
                    assert(r[m] == it);
                    let j = choose|j: int| 0 <= j < s.drop_last().len() && g.next_sym(#[trigger] s.drop_last()[j]) == Some(x) && it == advanced(s.drop_last()[j]);
                    assert(s[j] == s.drop_last()[j]);
                } else {
                    assert(g.next_sym(s[s.len() - 1]) == Some(x));
                }
            }
            if exists|j: int| 0 <= j < s.len() && g.next_sym(#[trigger] s[j]) == Some(x) && it == advanced(s[j]) {
                let j = choose|j: int| 0 <= j < s.len() && g.next_sym(#[trigger] s[j]) == Some(x) && it == advanced(s[j]);
                if j < s.len() - 1 {
                    assert(s.drop_last()[j] == s[j]);
                    assert(r.contains(it));
                    let m = choose|m: int| 0 <= m < r.len() && r[m] == it;
                    assert(g.goto_items(s, x)[m] == it);
                } else {
                    assert(g.goto_items(s, x) == r.push(advanced(s.last())));
                    assert(g.goto_items(s, x)[r.len() as int] == it);
                }
            }
        }
    }
}

/// GOTO is a function of the state's items as a set: two states that hold
/// the same items give the same kernel on every symbol.
pub proof fn lemma_goto_deterministic(g: Grammar, s1: Seq<Lr0Item>, s2: Seq<Lr0Item>, x: char)
    requires
        same_items(s1, s2),
    ensures
        same_items(g.goto_items(s1, x), g.goto_items(s2, x)),
{
    lemma_goto_members(g, s1, x);
    lemma_goto_members(g, s2, x);
    assert forall|it: Lr0Item| g.goto_items(s1, x).to_set().contains(it) <==> g.goto_items(s2, x).to_set().contains(it) by {
        if g.goto_items(s1, x).contains(it) {
            let j = choose|j: int| 0 <= j < s1.len() && g.next_sym(#[trigger] s1[j]) == Some(x) && it == advanced(s1[j]);
            assert(s1.to_set().contains(s1[j]));
            assert(s2.contains(s1[j]));
            let j2 = choose|j2: int| 0 <= j2 < s2.len() && s2[j2] == s1[j];
            assert(g.goto_items(s2, x).contains(it));
        }
        if g.goto_items(s2, x).contains(it) {
            let j = choose|j: int| 0 <= j < s2.len() && g.next_sym(#[trigger] s2[j]) == Some(x) && it == advanced(s2[j]);
            assert(s2.to_set().contains(s2[j]));
            assert(s1.contains(s2[j]));
            let j2 = choose|j2: int| 0 <= j2 < s1.len() && s1[j2] == s2[j];
            assert(g.goto_items(s1, x).contains(it));
        }
    }
    assert(g.goto_items(s1, x).to_set() =~= g.goto_items(s2, x).to_set());
}

/// States are identified by their kernels: two states of the automaton with
/// the same kernel items are one state.
pub proof fn lemma_state_identity(g: Grammar, a: Lr0Automaton, s: int, t: int)
    requires
        g.automaton_ok(a),
        0 <= s < a.nodes@.len(),
        0 <= t < a.nodes@.len(),
        same_items(a.nodes@[s].kernel@, a.nodes@[t].kernel@),
    ensures
        s == t,
{
    if s < t {
        assert(!same_items(a.nodes@[s].kernel@, a.nodes@[t].kernel@));
    } else if t < s {
        assert(!same_items(a.nodes@[t].kernel@, a.nodes@[s].kernel@));
        assert(a.nodes@[t].kernel@.to_set() == a.nodes@[s].kernel@.to_set());
    }
}

} // verus!

verus! {

/// Some `k` makes every symbol of `body` before `n` nullable within `k` steps.
proof fn lemma_common_level(g: Grammar, body: Seq<char>, n: int)
    requires
        0 <= n <= body.len(),
        forall|m: int| 0 <= m < n ==> is_nullable(g, #[trigger] body[m]),
    ensures
        exists|k: nat| #[trigger] all_null_at(g, body, n, k),
    decreases n,
{
    if n == 0 {
        assert(all_null_at(g, body, n, 0));
    } else {
        lemma_common_level(g, body, n - 1);
        let k1 = choose|k: nat| #[trigger] all_null_at(g, body, n - 1, k);
        assert(is_nullable(g, body[n - 1]));
        let k2 = choose|k: nat| #[trigger] null_n(g, k).contains(body[n - 1]);
        let k = if k1 > k2 { k1 } else { k2 };
        lemma_null_mono(g, k1, k);
        lemma_null_mono(g, k2, k);
        assert forall|m: int| 0 <= m < n implies #[trigger] null_n(g, k).contains(body[m]) by {
            if m < n - 1 {
                assert(null_n(g, k1).contains(body[m]));
            }
        }
        assert(all_null_at(g, body, n, k));
    }
}

/// Every symbol of `body` before `n` is nullable within `k` steps.
pub open spec fn all_null_at(g: Grammar, body: Seq<char>, n: int, k: nat) -> bool {
    forall|m: int| 0 <= m < n ==> #[trigger] null_n(g, k).contains(body[m])
}

proof fn lemma_nullable_level(g: Grammar, c: char, k: nat)
    requires
        null_n(g, k).contains(c),
    ensures
        exists|p: int|
            0 <= p < g.prod_count() && #[trigger] g.driver(p) == c && forall|m: int|
                0 <= m < g.body(p).len() ==> is_nullable(g, #[trigger] g.body(p)[m]),
    decreases k,
{
    let prev = null_n(g, (k - 1) as nat);
    if prev.contains(c) {
        lemma_nullable_level(g, c, (k - 1) as nat);
    } else {
        let p = choose|p: int|
            0 <= p < g.prod_count() && #[trigger] g.driver(p) == c && forall|m: int|
                0 <= m < g.body(p).len() ==> prev.contains(#[trigger] g.body(p)[m]);
        assert forall|m: int| 0 <= m < g.body(p).len() implies is_nullable(g, #[trigger] g.body(p)[m]) by {
            assert(prev.contains(g.body(p)[m]));
        }
    }
}

/// A symbol derives the empty string exactly when one of its productions has
/// a body of symbols that all do.
pub proof fn lemma_nullable_fixpoint(g: Grammar, c: char)
    ensures
        is_nullable(g, c) <==> exists|p: int|
            0 <= p < g.prod_count() && #[trigger] g.driver(p) == c && forall|m: int|
                0 <= m < g.body(p).len() ==> is_nullable(g, #[trigger] g.body(p)[m]),
{
    if is_nullable(g, c) {
        let k = choose|k: nat| #[trigger] null_n(g, k).contains(c);
        lemma_nullable_level(g, c, k);
    }
    if exists|p: int|
        0 <= p < g.prod_count() && #[trigger] g.driver(p) == c && forall|m: int|
            0 <= m < g.body(p).len() ==> is_nullable(g, #[trigger] g.body(p)[m]) {
        let p = choose|p: int|
            0 <= p < g.prod_count() && #[trigger] g.driver(p) == c && forall|m: int|
                0 <= m < g.body(p).len() ==> is_nullable(g, #[trigger] g.body(p)[m]);
        lemma_common_level(g, g.body(p), g.body(p).len() as int);
        let k = choose|k: nat| #[trigger] all_null_at(g, g.body(p), g.body(p).len() as int, k);
        assert(null_step(g, null_n(g, k)).contains(c));
        assert(null_n(g, k + 1).contains(c));
    }
}

/// The pairs `(x, c)` such that `x` derives, in at most `k` expansions, a
/// string that starts with the terminal `c`.
pub open spec fn starts_n(g: Grammar, k: nat) -> Set<(char, char)>
    decreases k,
{
    if k == 0 {
        Set::new(|xc: (char, char)| is_terminal(xc.0) && xc.0 == xc.1)
    } else {
        let r = starts_n(g, (k - 1) as nat);
        r.union(
            Set::new(
                |xc: (char, char)|
                    exists|p: int, i: int|
                        0 <= p < g.prod_count() && g.driver(p) == xc.0 && 0 <= i < g.body(p).len() && #[trigger] nullable_prefix(
                            g,
                            g.body(p),
                            i,
                        ) && r.contains((g.body(p)[i], xc.1)),
            ),
        )
    }
}

/// `x` derives a string that starts with the terminal `c`.
pub open spec fn derives_start(g: Grammar, x: char, c: char) -> bool {
    exists|k: nat| #[trigger] starts_n(g, k).contains((x, c))
}

proof fn lemma_first_path(g: Grammar, q: Seq<int>, c: char)
    requires
        is_path(first_rel(g), q),
        0 <= q.last() < g.non_terms@.len(),
        first_seed(g, g.non_terms@[q.last()], c),
    ensures
        derives_start(g, g.non_terms@[q[0]], c),
    decreases q.len(),
{
    if q.len() == 1 {
        let b = q[0];
        let p = choose|p: int| 0 <= p < g.prod_count() && g.driver(p) == g.non_terms@[b] && #[trigger] first_term_of(g, g.body(p), c);
        let i = choose|i: int| 0 <= i < g.body(p).len() && g.body(p)[i] == c && is_terminal(c) && #[trigger] nullable_prefix(g, g.body(p), i);
        assert(starts_n(g, 0).contains((c, c)));
        assert(starts_n(g, 1).contains((g.non_terms@[b], c)));
    } else {
        let rest = q.drop_first();
        assert forall|j: int| 0 <= j < rest.len() - 1 implies #[trigger] first_rel(g)(rest[j], rest[j + 1]) by {
            let i = j + 1;
            assert(first_rel(g)(q[i], q[i + 1]));
            assert(rest[j] == q[i] && rest[j + 1] == q[i + 1]);
        }
        lemma_first_path(g, rest, c);
        let z: int = 0;
        assert(first_rel(g)(q[z], q[z + 1]));
        let a = q[0];
        let b = q[1];
        let p = choose|p: int|
            0 <= p < g.prod_count() && g.driver(p) == g.non_terms@[a] && #[trigger] leads_with(g, g.body(p), g.non_terms@[b]);
        let i = choose|i: int|
            0 <= i < g.body(p).len() && g.body(p)[i] == g.non_terms@[b] && is_nonterminal(g.non_terms@[b]) && #[trigger] nullable_prefix(g, g.body(p), i);
        let k = choose|k: nat| #[trigger] starts_n(g, k).contains((g.non_terms@[b], c));
        assert(starts_n(g, k + 1).contains((g.non_terms@[a], c)));
    }
}

/// FIRST is sound: every terminal in FIRST of a nonterminal starts some
/// string that the nonterminal derives.
pub proof fn lemma_first_sound(g: Grammar, a: int, c: char)
    requires
        0 <= a < g.non_terms@.len(),
        in_first(g, a, c),
    ensures
        derives_start(g, g.non_terms@[a], c),
{
    let b = choose|b: int| 0 <= b < g.non_terms@.len() && #[trigger] reaches(first_rel(g), a, b) && first_seed(g, g.non_terms@[b], c);
    let q = choose|q: Seq<int>| #[trigger] is_path(first_rel(g), q) && q[0] == a && q.last() == b;
    lemma_first_path(g, q, c);
}

} // verus!

verus! {

use crate::first_follow::{first_of, follow_dep, follow_rel, follow_seed, follows_at, gain, in_follow, nullable_between};

/// The symbols that appear in a sentential form of the start symbol reached
/// in at most `k` expansions.
pub open spec fn appears_n(g: Grammar, k: nat) -> Set<char>
    decreases k,
{
    if k == 0 {
        Set::new(|x: char| g.prod_count() > 0 && x == g.driver(0))
    } else {
        let r = appears_n(g, (k - 1) as nat);
        r.union(
            Set::new(
                |x: char|
                    exists|p: int, i: int|
                        0 <= p < g.prod_count() && r.contains(g.driver(p)) && 0 <= i < g.body(p).len() && #[trigger] g.body(p)[i] == x,
            ),
        )
    }
}

/// `x` appears in some sentential form of the start symbol.
pub open spec fn appears(g: Grammar, x: char) -> bool {
    exists|k: nat| #[trigger] appears_n(g, k).contains(x)
}

/// The symbols of `body` from position `i` on derive a string that starts with `c`.
pub open spec fn rest_starts(g: Grammar, body: Seq<char>, i: int, c: char) -> bool {
    exists|j: int| i <= j < body.len() && #[trigger] nullable_between(g, body, i - 1, j) && derives_start(g, body[j], c)
}

/// The pairs `(a, c)` such that some sentential form of the start symbol has
/// `a` followed by a string that starts with `c`, with `c = $` where `a`
/// ends the form; found in at most `k` rounds.
pub open spec fn follow_n(g: Grammar, k: nat) -> Set<(char, char)>
    decreases k,
{
    if k == 0 {
        Set::new(|ac: (char, char)| follow_base(g, ac.0, ac.1))
    } else {
        let r = follow_n(g, (k - 1) as nat);
        r.union(Set::new(|ac: (char, char)| follow_step(g, r, ac.0, ac.1)))
    }
}

/// `a` is the start symbol and `c` is `$`, or `a` stands in a body of an
/// appearing symbol before symbols that derive a string starting with `c`.
pub open spec fn follow_base(g: Grammar, a: char, c: char) -> bool {
    (g.prod_count() > 0 && a == g.driver(0) && c == '$') || exists|p: int, i: int|
        0 <= p < g.prod_count() && appears(g, g.driver(p)) && 0 <= i < g.body(p).len() && g.body(p)[i] == a && is_nonterminal(a)
            && #[trigger] rest_starts(g, g.body(p), i + 1, c)
}

/// `a` ends a body, but for a nullable suffix, of a symbol that `c` follows.
pub open spec fn follow_step(g: Grammar, r: Set<(char, char)>, a: char, c: char) -> bool {
    exists|p: int, i: int|
        0 <= p < g.prod_count() && 0 <= i < g.body(p).len() && g.body(p)[i] == a && is_nonterminal(a) && #[trigger] nullable_between(
            g,
            g.body(p),
            i,
            g.body(p).len() as int,
        ) && r.contains((g.driver(p), c))
}

/// Some sentential form of the start symbol has `a` followed by a string
/// that starts with `c` (`c = $`: `a` can end the form).
pub open spec fn can_follow(g: Grammar, a: char, c: char) -> bool {
    exists|k: nat| #[trigger] follow_n(g, k).contains((a, c))
}

proof fn lemma_follow_seed_sound(g: Grammar, d: int, c: char)
    requires
        g.wf(),
        forall|p: int| 0 <= p < g.prod_count() ==> appears(g, #[trigger] g.driver(p)),
        0 <= d < g.non_terms@.len(),
        follow_seed(g, g.non_terms@[d], c),
    ensures
        follow_n(g, 0).contains((g.non_terms@[d], c)),
{
    let x = g.non_terms@[d];
    assert(g.non_terms@.contains(x));
    assert(is_nonterminal(x));
    if !(c == '$' && g.prod_count() > 0 && x == g.driver(0)) {
        let (p, i) = choose|p: int, i: int|
            0 <= p < g.prod_count() && 0 <= i < g.body(p).len() && crate::first_follow::walked(p, i, g.prod_count() as int, 0)
                && g.body(p)[i] == x && #[trigger] follows_at(g, g.body(p), i, c);
        let body = g.body(p);
        let j = choose|j: int| i < j < body.len() && #[trigger] nullable_between(g, body, i, j) && gain(g, body[j], c);
        if is_terminal(body[j]) && c == body[j] {
            assert(starts_n(g, 0).contains((body[j], c)));
        } else {
            assert(first_of(g, body[j], c));
            let a = choose|a: int| 0 <= a < g.non_terms@.len() && g.non_terms@[a] == body[j] && #[trigger] in_first(g, a, c);
            lemma_first_sound(g, a, c);
        }
        assert(derives_start(g, body[j], c));
        assert(nullable_between(g, body, (i + 1) - 1, j));
        assert(rest_starts(g, body, i + 1, c));
        assert(appears(g, g.driver(p)));
        assert(follow_base(g, x, c));
    } else {
        assert(follow_base(g, x, c));
    }
    assert(follow_n(g, 0).contains((x, c)));
}

proof fn lemma_follow_path(g: Grammar, q: Seq<int>, c: char)
    requires
        g.wf(),
        forall|p: int| 0 <= p < g.prod_count() ==> appears(g, #[trigger] g.driver(p)),
        is_path(follow_rel(g), q),
        0 <= q.last() < g.non_terms@.len(),
        follow_seed(g, g.non_terms@[q.last()], c),
    ensures
        can_follow(g, g.non_terms@[q[0]], c),
    decreases q.len(),
{
    if q.len() == 1 {
        lemma_follow_seed_sound(g, q[0], c);
    } else {
        let rest = q.drop_first();
        assert forall|j: int| 0 <= j < rest.len() - 1 implies #[trigger] follow_rel(g)(rest[j], rest[j + 1]) by {
            let i = j + 1;
            assert(follow_rel(g)(q[i], q[i + 1]));
            assert(rest[j] == q[i] && rest[j + 1] == q[i + 1]);
        }
        lemma_follow_path(g, rest, c);
        let z: int = 0;
        assert(follow_rel(g)(q[z], q[z + 1]));
        let b = q[0];
        let a = q[1];
        assert(follow_dep(g, b, a));
        let (p, i) = choose|p: int, i: int|
            0 <= p < g.prod_count() && 0 <= i < g.body(p).len() && crate::first_follow::walked(p, i, g.prod_count() as int, 0)
                && g.driver(p) == g.non_terms@[a] && g.body(p)[i] == g.non_terms@[b] && #[trigger] nullable_between(
                g,
                g.body(p),
                i,
                g.body(p).len() as int,
            );
        let k = choose|k: nat| #[trigger] follow_n(g, k).contains((g.non_terms@[a], c));
        assert(g.non_terms@.contains(g.non_terms@[b]));
        assert(is_nonterminal(g.non_terms@[b]));
        assert(follow_step(g, follow_n(g, k), g.non_terms@[b], c));
        assert(follow_n(g, k + 1).contains((g.non_terms@[b], c)));
    }
}

/// FOLLOW is sound: where every production's driver appears in a sentential
/// form of the start symbol, each symbol in FOLLOW of a nonterminal follows
/// it in such a form, `$` where it can end one.
pub proof fn lemma_follow_sound(g: Grammar, b: int, c: char)
    requires
        g.wf(),
        forall|p: int| 0 <= p < g.prod_count() ==> appears(g, #[trigger] g.driver(p)),
        0 <= b < g.non_terms@.len(),
        in_follow(g, b, c),
    ensures
        can_follow(g, g.non_terms@[b], c),
{
    let d = choose|d: int| 0 <= d < g.non_terms@.len() && #[trigger] reaches(follow_rel(g), b, d) && follow_seed(g, g.non_terms@[d], c);
    let q = choose|q: Seq<int>| #[trigger] is_path(follow_rel(g), q) && q[0] == b && q.last() == d;
    lemma_follow_path(g, q, c);
}

} // verus!
