use vstd::prelude::*;
use crate::automaton::{get_parsing_automaton, Lr0Automaton};
use crate::first_follow::{first_follow_ok, in_follow, index_of, FirstFollowSet};
use crate::grammar::{is_nonterminal, is_nonterminal_char, is_terminal, is_terminal_char, Grammar};
use crate::lr0::Lr0Item;

verus! {

/// An entry of a parsing table.
#[derive(Debug, Clone, Copy, PartialEq, Eq, Structural)]
pub enum Action {
    Shift(usize),
    Reduce(usize),
    Acc,
    Goto(usize),
}

/// A row of a parsing table: each column symbol with its actions. More than
/// one action in a cell is a conflict.
pub type TableRow = Vec<(char, Vec<Action>)>;

/// The columns of a table: terminals, then `$`, then nonterminals.
pub open spec fn columns(g: Grammar) -> Seq<char> {
    g.terms@ + seq!['$'] + g.non_terms@
}

/// A column on which reductions stand: a terminal or `$`.
pub open spec fn reduce_column(x: char) -> bool {
    is_terminal(x) || x == '$'
}

/// The shifts and gotos of state `s` on `x`, from its edges in order.
pub open spec fn edge_actions(edges: Seq<(usize, usize, char)>, s: int, x: char) -> Seq<Action>
    decreases edges.len(),
{
    if edges.len() == 0 {
        Seq::empty()
    } else {
        let r = edge_actions(edges.drop_last(), s, x);
        let e = edges.last();
        if e.0 == s && e.2 == x {
            r.push(if is_nonterminal(x) { Action::Goto(e.1) } else { Action::Shift(e.1) })
        } else {
            r
        }
    }
}

/// The reductions and the accept that the complete items put on column `x`.
pub open spec fn item_actions(g: Grammar, items: Seq<Lr0Item>, x: char) -> Seq<Action>
    decreases items.len(),
{
    if items.len() == 0 {
        Seq::empty()
    } else {
        let r = item_actions(g, items.drop_last(), x);
        let it = items.last();
        if it.dot_position >= g.prod_body(it.production).len() {
            match it.production {
                Some(p) => if reduce_column(x) {
                    r.push(Action::Reduce(p))
                } else {
                    r
                },
                None => if x == '$' {
                    r.push(Action::Acc)
                } else {
                    r
                },
            }
        } else {
            r
        }
    }
}

/// The LR(0) cell of state `s` and column `x`.
pub open spec fn lr0_cell(g: Grammar, a: Lr0Automaton, s: int, x: char) -> Seq<Action> {
    edge_actions(a.edges@, s, x) + item_actions(g, a.nodes@[s].items(), x)
}

/// `t` is the LR(0) table of automaton `a`.
pub open spec fn table_of(g: Grammar, a: Lr0Automaton, t: Seq<TableRow>) -> bool {
    &&& t.len() == a.nodes@.len()
    &&& forall|s: int| 0 <= s < t.len() ==> (#[trigger] t[s])@.len() == columns(g).len()
    &&& forall|s: int, c: int|
        0 <= s < t.len() && 0 <= c < columns(g).len() ==> (#[trigger] t[s]@[c]).0 == columns(g)[c] && t[s]@[c].1@
            == lr0_cell(g, a, s, columns(g)[c])
}

/// `t` is the LR(0) table of the grammar.
pub open spec fn lr0_table_ok(g: Grammar, t: Seq<TableRow>) -> bool {
    exists|a: Lr0Automaton| g.automaton_ok(a) && #[trigger] table_of(g, a, t)
}

/// SLR(1) keeps a reduction by `p` only on the symbols that can follow its driver.
pub open spec fn slr_keeps(g: Grammar, act: Action, x: char) -> bool {
    match act {
        Action::Reduce(p) => p < g.prod_count() && exists|a: int|
            0 <= a < g.non_terms@.len() && g.non_terms@[a] == g.driver(p as int) && #[trigger] in_follow(g, a, x),
        _ => true,
    }
}

/// The actions of an LR(0) cell that SLR(1) keeps, in order.
pub open spec fn slr_filter(g: Grammar, acts: Seq<Action>, x: char) -> Seq<Action>
    decreases acts.len(),
{
    if acts.len() == 0 {
        Seq::empty()
    } else {
        let r = slr_filter(g, acts.drop_last(), x);
        if slr_keeps(g, acts.last(), x) {
            r.push(acts.last())
        } else {
            r
        }
    }
}

/// `t` is the SLR(1) table obtained from the LR(0) table `t0`.
pub open spec fn slr_table_of(g: Grammar, t0: Seq<TableRow>, t: Seq<TableRow>) -> bool {
    &&& t.len() == t0.len()
    &&& forall|s: int| 0 <= s < t.len() ==> (#[trigger] t[s])@.len() == t0[s]@.len()
    &&& forall|s: int, c: int|
        0 <= s < t.len() && 0 <= c < t[s]@.len() ==> (#[trigger] t[s]@[c]).0 == t0[s]@[c].0 && t[s]@[c].1@ == slr_filter(
            g,
            t0[s]@[c].1@,
            t0[s]@[c].0,
        )
}

fn column_symbols(g: &Grammar) -> (r: Vec<char>)
    ensures
        r@ == columns(*g),
{
    let mut r: Vec<char> = Vec::new();
    let mut i: usize = 0;
    while i < g.terms.len()
        invariant
            0 <= i <= g.terms@.len(),
            r@ == g.terms@.subrange(0, i as int),
        decreases g.terms@.len() - i,
    {
        r.push(g.terms[i]);
        i += 1;
        assert(r@ =~= g.terms@.subrange(0, i as int));
    }
    r.push('$');
    assert(r@ =~= g.terms@ + seq!['$']);
    let ghost pre = r@;
    let mut j: usize = 0;
    while j < g.non_terms.len()
        invariant
            0 <= j <= g.non_terms@.len(),
            pre == g.terms@ + seq!['$'],
            r@ == pre + g.non_terms@.subrange(0, j as int),
        decreases g.non_terms@.len() - j,
    {
        r.push(g.non_terms[j]);
        j += 1;
        assert(r@ =~= pre + g.non_terms@.subrange(0, j as int));
    }
    assert(r@ =~= columns(*g));
    r
}

proof fn lemma_item_actions_push(g: Grammar, items: Seq<Lr0Item>, it: Lr0Item, x: char)
    ensures
        item_actions(g, items.push(it), x) == ({
            let r = item_actions(g, items, x);
            if it.dot_position >= g.prod_body(it.production).len() {
                match it.production {
                    Some(p) => if reduce_column(x) {
                        r.push(Action::Reduce(p))
                    } else {
                        r
                    },
                    None => if x == '$' {
                        r.push(Action::Acc)
                    } else {
                        r
                    },
                }
            } else {
                r
            }
        }),
{
    assert(items.push(it).drop_last() =~= items);
}

/// Appends to `r` the actions that `it` puts on column `x`.
fn push_item_action(g: &Grammar, it: &Lr0Item, x: char, r: &mut Vec<Action>, Ghost(items): Ghost<Seq<Lr0Item>>, Ghost(base): Ghost<Seq<Action>>)
    requires
        g.wf(),
        g.valid_item(*it),
        old(r)@ == base + item_actions(*g, items, x),
    ensures
        final(r)@ == base + item_actions(*g, items.push(*it), x),
{
    proof {
        lemma_item_actions_push(*g, items, *it, x);
    }
    if it.is_complete(g) {
        match it.production {
            Some(p) => {
                if is_terminal_char(x) || x == '$' {
                    r.push(Action::Reduce(p));
                }
            },
            None => {
                if x == '$' {
                    r.push(Action::Acc);
                }
            },
        }
    }
    assert(r@ =~= base + item_actions(*g, items.push(*it), x));
}

/// The LR(0) cell of state `s` and column `x`.
fn lr0_cell_exec(g: &Grammar, a: &Lr0Automaton, s: usize, x: char) -> (r: Vec<Action>)
    requires
        g.wf(),
        g.prod_count() > 0,
        g.automaton_ok(*a),
        s < a.nodes@.len(),
    ensures
        r@ == lr0_cell(*g, *a, s as int, x),
{
    let mut r: Vec<Action> = Vec::new();
    let mut e: usize = 0;
    assert(a.edges@.subrange(0, 0) =~= Seq::<(usize, usize, char)>::empty());
    while e < a.edges.len()
        invariant
            0 <= e <= a.edges@.len(),
            r@ == edge_actions(a.edges@.subrange(0, e as int), s as int, x),
        decreases a.edges@.len() - e,
    {
        let (from, to, sym) = a.edges[e];
        assert(a.edges@.subrange(0, e + 1).drop_last() =~= a.edges@.subrange(0, e as int));
        if from == s && sym == x {
            if is_nonterminal_char(x) {
                r.push(Action::Goto(to));
            } else {
                r.push(Action::Shift(to));
            }
        }
        e += 1;
    }
    assert(a.edges@.subrange(0, e as int) =~= a.edges@);
    let ghost base = r@;
    let node = &a.nodes[s];
    assert(g.node_ok(a.nodes@[s as int]));
    let ghost k = node.kernel@;
    let ghost c = node.closure@;
    let mut i: usize = 0;
    assert(k.subrange(0, 0) =~= Seq::<Lr0Item>::empty());
    assert(r@ =~= base + item_actions(*g, k.subrange(0, 0), x));
    while i < node.kernel.len()
        invariant
            g.wf(),
            g.node_ok(*node),
            k == node.kernel@,
            0 <= i <= k.len(),
            r@ == base + item_actions(*g, k.subrange(0, i as int), x),
        decreases k.len() - i,
    {
        push_item_action(g, &node.kernel[i], x, &mut r, Ghost(k.subrange(0, i as int)), Ghost(base));
        assert(k.subrange(0, i as int).push(k[i as int]) =~= k.subrange(0, i + 1));
        i += 1;
    }
    assert(k.subrange(0, i as int) =~= k + c.subrange(0, 0));
    let mut j: usize = 0;
    while j < node.closure.len()
        invariant
            g.wf(),
            g.node_ok(*node),
            k == node.kernel@,
            c == node.closure@,
            0 <= j <= c.len(),
            r@ == base + item_actions(*g, k + c.subrange(0, j as int), x),
        decreases c.len() - j,
    {
        push_item_action(g, &node.closure[j], x, &mut r, Ghost(k + c.subrange(0, j as int)), Ghost(base));
        assert((k + c.subrange(0, j as int)).push(c[j as int]) =~= k + c.subrange(0, j + 1));
        j += 1;
    }
    assert(k + c.subrange(0, j as int) =~= a.nodes@[s as int].items());
    r
}

/// The LR(0) table of automaton `automaton`.
pub fn build_lr0_table(g: &Grammar, automaton: &Lr0Automaton) -> (r: Vec<TableRow>)
    requires
        g.wf(),
        g.prod_count() > 0,
        g.automaton_ok(*automaton),
    ensures
        table_of(*g, *automaton, r@),
{
    let cols = column_symbols(g);
    let mut t: Vec<TableRow> = Vec::new();
    let mut s: usize = 0;
    while s < automaton.nodes.len()
        invariant
            g.wf(),
            g.prod_count() > 0,
            g.automaton_ok(*automaton),
            cols@ == columns(*g),
            0 <= s <= automaton.nodes@.len(),
            t@.len() == s,
            forall|s2: int| 0 <= s2 < s ==> (#[trigger] t@[s2])@.len() == columns(*g).len(),
            forall|s2: int, c: int|
                0 <= s2 < s && 0 <= c < columns(*g).len() ==> (#[trigger] t@[s2]@[c]).0 == columns(*g)[c] && t@[s2]@[c].1@
                    == lr0_cell(*g, *automaton, s2, columns(*g)[c]),
        decreases automaton.nodes@.len() - s,
    {
        let mut row: TableRow = Vec::new();
        let mut c: usize = 0;
        while c < cols.len()
            invariant
                g.wf(),
                g.prod_count() > 0,
                g.automaton_ok(*automaton),
                s < automaton.nodes@.len(),
                cols@ == columns(*g),
                0 <= c <= cols@.len(),
                row@.len() == c,
                forall|c2: int| 0 <= c2 < c ==> (#[trigger] row@[c2]).0 == columns(*g)[c2] && row@[c2].1@ == lr0_cell(
                    *g,
                    *automaton,
                    s as int,
                    columns(*g)[c2],
                ),
            decreases cols@.len() - c,
        {
            let x = cols[c];
            let cell = lr0_cell_exec(g, automaton, s, x);
            row.push((x, cell));
            c += 1;
        }
        let ghost t0 = t@;
        t.push(row);
        proof {
            assert forall|s2: int, c2: int|
                0 <= s2 < s + 1 && 0 <= c2 < columns(*g).len() implies (#[trigger] t@[s2]@[c2]).0 == columns(*g)[c2] && t@[s2]@[c2].1@
                    == lr0_cell(*g, *automaton, s2, columns(*g)[c2]) by {
                if s2 < s {
                    assert(t@[s2] == t0[s2]);
                }
            }
        }
        s += 1;
    }
    t
}

impl Grammar {
    /// The LR(0) parsing table: one row per state of the LR(0) automaton.
    pub fn get_lr0_parsing_table(&self) -> (r: Vec<TableRow>)
        requires
            self.wf(),
            self.prod_count() > 0,
        ensures
            lr0_table_ok(*self, r@),
    {
        let automaton = get_parsing_automaton(self);
        build_lr0_table(self, &automaton)
    }
}

} // verus!

verus! {

/// The row of `ff` that belongs to nonterminal `d`.
fn ff_row_of(g: &Grammar, ff: &Vec<(char, FirstFollowSet)>, d: char) -> (r: Option<usize>)
    requires
        g.wf(),
        first_follow_ok(*g, ff@),
    ensures
        match r {
            Some(a) => a < ff@.len() && g.non_terms@[a as int] == d,
            None => !g.non_terms@.contains(d),
        },
{
    let mut a: usize = 0;
    while a < ff.len()
        invariant
            first_follow_ok(*g, ff@),
            0 <= a <= ff@.len(),
            forall|a2: int| 0 <= a2 < a ==> g.non_terms@[a2] != d,
        decreases ff@.len() - a,
    {
        if ff[a].0 == d {
            return Some(a);
        }
        a += 1;
    }
    None
}

/// Whether SLR(1) keeps `act` on column `x`.
fn slr_keeps_exec(g: &Grammar, ff: &Vec<(char, FirstFollowSet)>, act: Action, x: char) -> (r: bool)
    requires
        g.wf(),
        first_follow_ok(*g, ff@),
    ensures
        r == slr_keeps(*g, act, x),
{
    match act {
        Action::Reduce(p) => {
            if p >= g.productions.len() {
                return false;
            }
            let d = g.productions[p].driver;
            match ff_row_of(g, ff, d) {
                Some(a) => {
                    let r = crate::grammar::contains_char(&ff[a].1.follow, x);
                    proof {
                        if slr_keeps(*g, act, x) {
                            let a2 = choose|a2: int|
                                0 <= a2 < g.non_terms@.len() && g.non_terms@[a2] == g.driver(p as int) && #[trigger] in_follow(*g, a2, x);
                            assert(a2 == a);
                        }
                    }
                    r
                },
                None => {
                    proof {
                        if slr_keeps(*g, act, x) {
                            let a2 = choose|a2: int|
                                0 <= a2 < g.non_terms@.len() && g.non_terms@[a2] == g.driver(p as int) && #[trigger] in_follow(*g, a2, x);
                            assert(g.non_terms@.contains(d));
                        }
                    }
                    false
                },
            }
        },
        _ => true,
    }
}

fn slr_cell(g: &Grammar, ff: &Vec<(char, FirstFollowSet)>, acts: &Vec<Action>, x: char) -> (r: Vec<Action>)
    requires
        g.wf(),
        first_follow_ok(*g, ff@),
    ensures
        r@ == slr_filter(*g, acts@, x),
{
    let mut r: Vec<Action> = Vec::new();
    let mut i: usize = 0;
    assert(acts@.subrange(0, 0) =~= Seq::<Action>::empty());
    while i < acts.len()
        invariant
            g.wf(),
            first_follow_ok(*g, ff@),
            0 <= i <= acts@.len(),
            r@ == slr_filter(*g, acts@.subrange(0, i as int), x),
        decreases acts@.len() - i,
    {
        let act = acts[i];
        assert(acts@.subrange(0, i + 1).drop_last() =~= acts@.subrange(0, i as int));
        if slr_keeps_exec(g, ff, act, x) {
            r.push(act);
        }
        i += 1;
    }
    assert(acts@.subrange(0, i as int) =~= acts@);
    r
}

/// The SLR(1) table obtained from LR(0) table `t0` with FOLLOW sets `ff`.
pub fn build_slr1_table(g: &Grammar, t0: &Vec<TableRow>, ff: &Vec<(char, FirstFollowSet)>) -> (r: Vec<TableRow>)
    requires
        g.wf(),
        first_follow_ok(*g, ff@),
    ensures
        slr_table_of(*g, t0@, r@),
{
    let mut t: Vec<TableRow> = Vec::new();
    let mut s: usize = 0;
    while s < t0.len()
        invariant
            g.wf(),
            first_follow_ok(*g, ff@),
            0 <= s <= t0@.len(),
            t@.len() == s,
            forall|s2: int| 0 <= s2 < s ==> (#[trigger] t@[s2])@.len() == t0@[s2]@.len(),
            forall|s2: int, c: int|
                0 <= s2 < s && 0 <= c < t@[s2]@.len() ==> (#[trigger] t@[s2]@[c]).0 == t0@[s2]@[c].0 && t@[s2]@[c].1@
                    == slr_filter(*g, t0@[s2]@[c].1@, t0@[s2]@[c].0),
        decreases t0@.len() - s,
    {
        let mut row: TableRow = Vec::new();
        let mut c: usize = 0;
        while c < t0[s].len()
            invariant
                g.wf(),
                first_follow_ok(*g, ff@),
                s < t0@.len(),
                0 <= c <= t0@[s as int]@.len(),
                row@.len() == c,
                forall|c2: int| 0 <= c2 < c ==> (#[trigger] row@[c2]).0 == t0@[s as int]@[c2].0 && row@[c2].1@ == slr_filter(
                    *g,
                    t0@[s as int]@[c2].1@,
                    t0@[s as int]@[c2].0,
                ),
            decreases t0@[s as int]@.len() - c,
        {
            let x = t0[s][c].0;
            let cell = slr_cell(g, ff, &t0[s][c].1, x);
            row.push((x, cell));
            c += 1;
        }
        let ghost tt = t@;
        t.push(row);
        proof {
            assert forall|s2: int, c2: int|
                0 <= s2 < s + 1 && 0 <= c2 < t@[s2]@.len() implies (#[trigger] t@[s2]@[c2]).0 == t0@[s2]@[c2].0 && t@[s2]@[c2].1@
                    == slr_filter(*g, t0@[s2]@[c2].1@, t0@[s2]@[c2].0) by {
                if s2 < s {
                    assert(t@[s2] == tt[s2]);
                }
            }
        }
        s += 1;
    }
    t
}

impl Grammar {
    /// The SLR(1) parsing table: the LR(0) table with each reduction kept only
    /// on the symbols that can follow the driver of its production. Computes
    /// the LR(0) table and the FIRST / FOLLOW table where they are not given.
    pub fn get_slr1_parsing_table(
        &self,
        parsing_table: Option<&Vec<TableRow>>,
        first_follow_set: Option<&Vec<(char, FirstFollowSet)>>,
    ) -> (r: Vec<TableRow>)
        requires
            self.wf(),
            self.prod_count() > 0,
            parsing_table.is_some() ==> lr0_table_ok(*self, parsing_table.unwrap()@),
            first_follow_set.is_some() ==> first_follow_ok(*self, first_follow_set.unwrap()@),
        ensures
            exists|t0: Seq<TableRow>| lr0_table_ok(*self, t0) && #[trigger] slr_table_of(*self, t0, r@),
            parsing_table.is_some() ==> slr_table_of(*self, parsing_table.unwrap()@, r@),
    {
        let owned_ff;
        let ff = match first_follow_set {
            Some(f) => f,
            None => {
                owned_ff = self.get_first_follow_table();
                &owned_ff
            },
        };
        match parsing_table {
            Some(t0) => build_slr1_table(self, t0, ff),
            None => {
                let t0 = self.get_lr0_parsing_table();
                build_slr1_table(self, &t0, ff)
            },
        }
    }
}

/// Every action of an SLR(1) cell stands in the LR(0) cell it comes from.
pub proof fn lemma_slr_filter_within(g: Grammar, acts: Seq<Action>, x: char)
    ensures
        forall|i: int| 0 <= i < slr_filter(g, acts, x).len() ==> acts.contains(#[trigger] slr_filter(g, acts, x)[i]),
    decreases acts.len(),
{
    if acts.len() > 0 {
        lemma_slr_filter_within(g, acts.drop_last(), x);
        let r = slr_filter(g, acts.drop_last(), x);
        assert forall|i: int| 0 <= i < slr_filter(g, acts, x).len() implies acts.contains(#[trigger] slr_filter(g, acts, x)[i]) by {
            if i < r.len() {
                assert(slr_filter(g, acts, x)[i] == r[i]);
                let j = choose|j: int| 0 <= j < acts.drop_last().len() && acts.drop_last()[j] == r[i];
                assert(acts[j] == r[i]);
            } else {
                assert(acts[acts.len() - 1] == acts.last());
            }
        }
    }
}

/// SLR(1) refines LR(0): every action, a reduction in particular, of a cell
/// of the SLR(1) table stands in the same cell of the LR(0) table.
pub proof fn lemma_slr1_refines_lr0(g: Grammar, t0: Seq<TableRow>, t: Seq<TableRow>, s: int, c: int, i: int)
    requires
        slr_table_of(g, t0, t),
        0 <= s < t.len(),
        0 <= c < t[s]@.len(),
        0 <= i < t[s]@[c].1@.len(),
    ensures
        t[s]@[c].0 == t0[s]@[c].0,
        t0[s]@[c].1@.contains(t[s]@[c].1@[i]),
{
    lemma_slr_filter_within(g, t0[s]@[c].1@, t0[s]@[c].0);
}

} // verus!
