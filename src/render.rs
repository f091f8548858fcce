use vstd::prelude::*;

verus! {

/// Relies on `String::push`: appends one character.
#[verifier::external_body]
pub(crate) fn push_char(s: &mut String, c: char)
    ensures
        final(s)@ == old(s)@.push(c),
{
    s.push(c)
}

pub open spec fn digit_char(d: nat) -> char {
    if d == 0 {
        '0'
    } else if d == 1 {
        '1'
    } else if d == 2 {
        '2'
    } else if d == 3 {
        '3'
    } else if d == 4 {
        '4'
    } else if d == 5 {
        '5'
    } else if d == 6 {
        '6'
    } else if d == 7 {
        '7'
    } else if d == 8 {
        '8'
    } else {
        '9'
    }
}

/// The decimal digits of `n`.
pub open spec fn decimal(n: nat) -> Seq<char>
    decreases n,
{
    if n < 10 {
        seq![digit_char(n)]
    } else {
        decimal(n / 10).push(digit_char(n % 10))
    }
}

fn digit(d: u128) -> (c: char)
    requires
        d < 10,
    ensures
        c == digit_char(d as nat),
{
    if d == 0 {
        '0'
    } else if d == 1 {
        '1'
    } else if d == 2 {
        '2'
    } else if d == 3 {
        '3'
    } else if d == 4 {
        '4'
    } else if d == 5 {
        '5'
    } else if d == 6 {
        '6'
    } else if d == 7 {
        '7'
    } else if d == 8 {
        '8'
    } else {
        '9'
    }
}

/// Appends the decimal digits of `n`.
pub fn push_decimal(s: &mut String, n: u128)
    ensures
        final(s)@ == old(s)@ + decimal(n as nat),
    decreases n,
{
    if n >= 10 {
        push_decimal(s, n / 10);
    }
    push_char(s, digit(n % 10));
    assert(s@ =~= old(s)@ + decimal(n as nat));
}

/// The parts joined, with `sep` between each two.
pub open spec fn join(parts: Seq<Seq<char>>, sep: Seq<char>) -> Seq<char>
    decreases parts.len(),
{
    if parts.len() == 0 {
        Seq::empty()
    } else if parts.len() == 1 {
        parts[0]
    } else {
        join(parts.drop_last(), sep) + sep + parts.last()
    }
}

pub proof fn lemma_join_push(parts: Seq<Seq<char>>, sep: Seq<char>, p: Seq<char>)
    ensures
        join(parts.push(p), sep) == if parts.len() == 0 {
            p
        } else {
            join(parts, sep) + sep + p
        },
{
    assert(parts.push(p).drop_last() =~= parts);
    if parts.len() == 0 {
        assert(parts.push(p)[0] == p);
    }
}

/// A symbol as LaTeX shows it: `$` escaped.
pub open spec fn latex_sym(c: char) -> Seq<char> {
    if c == '$' {
        seq!['\\', '$']
    } else {
        seq![c]
    }
}

pub fn push_latex_sym(s: &mut String, c: char)
    ensures
        final(s)@ == old(s)@ + latex_sym(c),
{
    if c == '$' {
        push_char(s, '\\');
        push_char(s, '$');
    } else {
        push_char(s, c);
    }
    assert(s@ =~= old(s)@ + latex_sym(c));
}

/// Appends `chars`.
pub fn push_chars(s: &mut String, chars: &Vec<char>)
    ensures
        final(s)@ == old(s)@ + chars@,
{
    let mut i: usize = 0;
    while i < chars.len()
        invariant
            0 <= i <= chars@.len(),
            s@ == old(s)@ + chars@.subrange(0, i as int),
        decreases chars@.len() - i,
    {
        push_char(s, chars[i]);
        i += 1;
        assert(s@ =~= old(s)@ + chars@.subrange(0, i as int));
    }
    assert(chars@.subrange(0, i as int) =~= chars@);
}

} // verus!

verus! {

use crate::automaton::{Lr0Automaton, Lr0AutomatonNode};
use crate::grammar::Grammar;
use crate::lr0::Lr0Item;
use crate::table::Action;

/// How an action is written in a table cell; reductions count productions from 1.
pub open spec fn action_text(a: Action) -> Seq<char> {
    match a {
        Action::Shift(t) => seq!['s'] + decimal(t as nat),
        Action::Reduce(p) => seq!['r'] + decimal(p as nat + 1),
        Action::Goto(t) => decimal(t as nat),
        Action::Acc => seq!['a', 'c', 'c'],
    }
}

impl Action {
    /// The text of the action: `s3`, `r2`, `4` or `acc`.
    pub fn as_string(&self) -> (r: String)
        ensures
            r@ == action_text(*self),
    {
        let mut s = String::new();
        match *self {
            Action::Shift(t) => {
                push_char(&mut s, 's');
                push_decimal(&mut s, t as u128);
            },
            Action::Reduce(p) => {
                push_char(&mut s, 'r');
                push_decimal(&mut s, p as u128 + 1);
            },
            Action::Goto(t) => {
                push_decimal(&mut s, t as u128);
            },
            Action::Acc => {
                push_char(&mut s, 'a');
                push_char(&mut s, 'c');
                push_char(&mut s, 'c');
            },
        }
        assert(s@ =~= action_text(*self));
        s
    }
}

/// The driver of the production of an item; `@` for the augmented one.
pub open spec fn item_driver(g: Grammar, it: Lr0Item) -> char {
    match it.production {
        None => '@',
        Some(p) => g.driver(p as int),
    }
}

/// An item as the drawing shows it: `A → α•β`.
pub open spec fn item_text(g: Grammar, it: Lr0Item) -> Seq<char> {
    let body = g.prod_body(it.production);
    seq![item_driver(g, it)] + " → "@ + body.subrange(0, it.dot_position as int) + "•"@ + body.subrange(
        it.dot_position as int,
        body.len() as int,
    )
}

/// Items one per line, each ended by the escape `\n`.
pub open spec fn items_label(g: Grammar, items: Seq<Lr0Item>) -> Seq<char>
    decreases items.len(),
{
    if items.len() == 0 {
        Seq::empty()
    } else {
        items_label(g, items.drop_last()) + item_text(g, items.last()) + seq!['\\', 'n']
    }
}

/// The record node of state `i`: its number, its kernel and, if any, its closure.
pub open spec fn node_line(g: Grammar, i: nat, n: Lr0AutomatonNode) -> Seq<char> {
    decimal(i) + " [label=\"{ "@ + decimal(i) + " | "@ + items_label(g, n.kernel@) + (if n.closure@.len() == 0 {
        Seq::empty()
    } else {
        " | "@ + items_label(g, n.closure@)
    }) + " }\"]\n"@
}

pub open spec fn nodes_text(g: Grammar, nodes: Seq<Lr0AutomatonNode>) -> Seq<char>
    decreases nodes.len(),
{
    if nodes.len() == 0 {
        Seq::empty()
    } else {
        nodes_text(g, nodes.drop_last()) + node_line(g, (nodes.len() - 1) as nat, nodes.last())
    }
}

pub open spec fn edge_line(e: (usize, usize, char)) -> Seq<char> {
    decimal(e.0 as nat) + " -> "@ + decimal(e.1 as nat) + " [label=\""@ + seq![e.2] + "\"]\n"@
}

pub open spec fn edges_text(edges: Seq<(usize, usize, char)>) -> Seq<char>
    decreases edges.len(),
{
    if edges.len() == 0 {
        Seq::empty()
    } else {
        edges_text(edges.drop_last()) + edge_line(edges.last())
    }
}

/// The GraphViz drawing of an automaton: one record node per state, one
/// labelled arrow per edge.
pub open spec fn dot_text(g: Grammar, a: Lr0Automaton) -> Seq<char> {
    "digraph G {\nnode[shape=record]\n\n"@ + nodes_text(g, a.nodes@) + "\n\n//nodes\n"@ + edges_text(a.edges@) + "}\n"@
}

fn push_item(s: &mut String, g: &Grammar, it: &Lr0Item)
    requires
        g.wf(),
        g.valid_item(*it),
    ensures
        final(s)@ == old(s)@ + item_text(*g, *it),
{
    let d = match it.production {
        None => '@',
        Some(p) => g.productions[p].driver,
    };
    push_char(s, d);
    s.append(" → ");
    let body: Vec<char> = match it.production {
        None => {
            let mut b: Vec<char> = Vec::new();
            b.push(g.productions[0].driver);
            b
        },
        Some(p) => crate::graph::copy_chars(&g.productions[p].body),
    };
    assert(body@ =~= g.prod_body(it.production));
    let dot = it.dot_position;
    push_chars(s, &crate::text::copy_range(&body, 0, dot));
    s.append("•");
    push_chars(s, &crate::text::copy_range(&body, dot, body.len()));
    assert(s@ =~= old(s)@ + item_text(*g, *it));
}

fn push_items_label(s: &mut String, g: &Grammar, items: &Vec<Lr0Item>)
    requires
        g.wf(),
        g.valid_items(items@),
    ensures
        final(s)@ == old(s)@ + items_label(*g, items@),
{
    let mut i: usize = 0;
    assert(items@.subrange(0, 0) =~= Seq::<Lr0Item>::empty());
    assert(s@ =~= old(s)@ + items_label(*g, items@.subrange(0, 0)));
    while i < items.len()
        invariant
            g.wf(),
            g.valid_items(items@),
            0 <= i <= items@.len(),
            s@ == old(s)@ + items_label(*g, items@.subrange(0, i as int)),
        decreases items@.len() - i,
    {
        push_item(s, g, &items[i]);
        push_char(s, '\\');
        push_char(s, 'n');
        assert(items@.subrange(0, i + 1).drop_last() =~= items@.subrange(0, i as int));
        i += 1;
        assert(s@ =~= old(s)@ + items_label(*g, items@.subrange(0, i as int)));
    }
    assert(items@.subrange(0, i as int) =~= items@);
}

fn push_node_line(s: &mut String, g: &Grammar, i: usize, node: &Lr0AutomatonNode)
    requires
        g.wf(),
        g.node_ok(*node),
    ensures
        final(s)@ == old(s)@ + node_line(*g, i as nat, *node),
{
    push_decimal(s, i as u128);
    s.append(" [label=\"{ ");
    push_decimal(s, i as u128);
    s.append(" | ");
    push_items_label(s, g, &node.kernel);
    if node.closure.len() > 0 {
        s.append(" | ");
        push_items_label(s, g, &node.closure);
    }
    s.append(" }\"]\n");
    assert(s@ =~= old(s)@ + node_line(*g, i as nat, *node));
}

impl Lr0Automaton {
    /// The GraphViz drawing of the automaton.
    pub fn generate_dot_notation_string(&self, g: &Grammar) -> (r: String)
        requires
            g.wf(),
            g.automaton_ok(*self),
        ensures
            r@ == dot_text(*g, *self),
    {
        let mut s = String::new();
        assert(forall|s2: int| 0 <= s2 < self.nodes@.len() ==> g.node_ok(#[trigger] self.nodes@[s2]));
        s.append("digraph G {\nnode[shape=record]\n\n");
        let ghost head = s@;
        let mut i: usize = 0;
        assert(self.nodes@.subrange(0, 0) =~= Seq::<Lr0AutomatonNode>::empty());
        assert(s@ =~= head + nodes_text(*g, self.nodes@.subrange(0, 0)));
        while i < self.nodes.len()
            invariant
                g.wf(),
                forall|s2: int| 0 <= s2 < self.nodes@.len() ==> g.node_ok(#[trigger] self.nodes@[s2]),
                0 <= i <= self.nodes@.len(),
                head == "digraph G {\nnode[shape=record]\n\n"@,
                s@ == head + nodes_text(*g, self.nodes@.subrange(0, i as int)),
            decreases self.nodes@.len() - i,
        {
            let ghost s0 = s@;
            push_node_line(&mut s, g, i, &self.nodes[i]);
            assert(self.nodes@.subrange(0, i + 1).drop_last() =~= self.nodes@.subrange(0, i as int));
            i += 1;
            assert(s@ =~= head + nodes_text(*g, self.nodes@.subrange(0, i as int)));
        }
        assert(self.nodes@.subrange(0, i as int) =~= self.nodes@);
        s.append("\n\n//nodes\n");
        let ghost mid = s@;
        let mut e: usize = 0;
        assert(self.edges@.subrange(0, 0) =~= Seq::<(usize, usize, char)>::empty());
        assert(s@ =~= mid + edges_text(self.edges@.subrange(0, 0)));
        while e < self.edges.len()
            invariant
                0 <= e <= self.edges@.len(),
                s@ == mid + edges_text(self.edges@.subrange(0, e as int)),
            decreases self.edges@.len() - e,
        {
            let (from, to, sym) = self.edges[e];
            let ghost s0 = s@;
            push_decimal(&mut s, from as u128);
            s.append(" -> ");
            push_decimal(&mut s, to as u128);
            s.append(" [label=\"");
            push_char(&mut s, sym);
            s.append("\"]\n");
            assert(s@ =~= s0 + edge_line(self.edges@[e as int]));
            assert(self.edges@.subrange(0, e + 1).drop_last() =~= self.edges@.subrange(0, e as int));
            e += 1;
            assert(s@ =~= mid + edges_text(self.edges@.subrange(0, e as int)));
        }
        assert(self.edges@.subrange(0, e as int) =~= self.edges@);
        s.append("}\n");
        s
    }
}

} // verus!

verus! {

impl Lr0Item {
    /// The item as `A → α•β`.
    pub fn as_string(&self, g: &Grammar) -> (r: String)
        requires
            g.wf(),
            g.valid_item(*self),
        ensures
            r@ == item_text(*g, *self),
    {
        let mut s = String::new();
        push_item(&mut s, g, self);
        assert(s@ =~= item_text(*g, *self));
        s
    }
}

} // verus!

verus! {

/// Items one per line, each indented by four spaces.
pub open spec fn items_listing(g: Grammar, items: Seq<Lr0Item>) -> Seq<char>
    decreases items.len(),
{
    if items.len() == 0 {
        Seq::empty()
    } else {
        items_listing(g, items.drop_last()) + "    "@ + item_text(g, items.last()) + seq!['\n']
    }
}

pub open spec fn node_listing(g: Grammar, i: nat, n: Lr0AutomatonNode) -> Seq<char> {
    "Node "@ + decimal(i) + ":\n  Kernel:\n"@ + items_listing(g, n.kernel@) + "  Closure:\n"@ + items_listing(g, n.closure@)
}

pub open spec fn nodes_listing(g: Grammar, nodes: Seq<Lr0AutomatonNode>) -> Seq<char>
    decreases nodes.len(),
{
    if nodes.len() == 0 {
        Seq::empty()
    } else {
        nodes_listing(g, nodes.drop_last()) + node_listing(g, (nodes.len() - 1) as nat, nodes.last())
    }
}

pub open spec fn edges_listing(edges: Seq<(usize, usize, char)>) -> Seq<char>
    decreases edges.len(),
{
    if edges.len() == 0 {
        Seq::empty()
    } else {
        let e = edges.last();
        edges_listing(edges.drop_last()) + "  "@ + decimal(e.0 as nat) + " --"@ + seq![e.2] + "--> "@ + decimal(e.1 as nat)
            + seq!['\n']
    }
}

/// The automaton as plain text: each state with its kernel and closure, then the edges.
pub open spec fn automaton_listing(g: Grammar, a: Lr0Automaton) -> Seq<char> {
    nodes_listing(g, a.nodes@) + "Edges:\n"@ + edges_listing(a.edges@)
}

fn push_items_listing(s: &mut String, g: &Grammar, items: &Vec<Lr0Item>)
    requires
        g.wf(),
        g.valid_items(items@),
    ensures
        final(s)@ == old(s)@ + items_listing(*g, items@),
{
    let mut i: usize = 0;
    assert(items@.subrange(0, 0) =~= Seq::<Lr0Item>::empty());
    assert(s@ =~= old(s)@ + items_listing(*g, items@.subrange(0, 0)));
    while i < items.len()
        invariant
            g.wf(),
            g.valid_items(items@),
            0 <= i <= items@.len(),
            s@ == old(s)@ + items_listing(*g, items@.subrange(0, i as int)),
        decreases items@.len() - i,
    {
        s.append("    ");
        push_item(s, g, &items[i]);
        push_char(s, '\n');
        assert(items@.subrange(0, i + 1).drop_last() =~= items@.subrange(0, i as int));
        i += 1;
        assert(s@ =~= old(s)@ + items_listing(*g, items@.subrange(0, i as int)));
    }
    assert(items@.subrange(0, i as int) =~= items@);
}

fn push_node_listing(s: &mut String, g: &Grammar, i: usize, node: &Lr0AutomatonNode)
    requires
        g.wf(),
        g.node_ok(*node),
    ensures
        final(s)@ == old(s)@ + node_listing(*g, i as nat, *node),
{
    s.append("Node ");
    push_decimal(s, i as u128);
    s.append(":\n  Kernel:\n");
    push_items_listing(s, g, &node.kernel);
    s.append("  Closure:\n");
    push_items_listing(s, g, &node.closure);
    assert(s@ =~= old(s)@ + node_listing(*g, i as nat, *node));
}

impl Lr0Automaton {
    /// The automaton as plain text: each state with its kernel and closure,
    /// then the edges.
    pub fn as_string(&self, g: &Grammar) -> (r: String)
        requires
            g.wf(),
            g.automaton_ok(*self),
        ensures
            r@ == automaton_listing(*g, *self),
    {
        let mut s = String::new();
        assert(forall|s2: int| 0 <= s2 < self.nodes@.len() ==> g.node_ok(#[trigger] self.nodes@[s2]));
        let mut i: usize = 0;
        assert(self.nodes@.subrange(0, 0) =~= Seq::<Lr0AutomatonNode>::empty());
        while i < self.nodes.len()
            invariant
                g.wf(),
                forall|s2: int| 0 <= s2 < self.nodes@.len() ==> g.node_ok(#[trigger] self.nodes@[s2]),
                0 <= i <= self.nodes@.len(),
                s@ == nodes_listing(*g, self.nodes@.subrange(0, i as int)),
            decreases self.nodes@.len() - i,
        {
            push_node_listing(&mut s, g, i, &self.nodes[i]);
            assert(self.nodes@.subrange(0, i + 1).drop_last() =~= self.nodes@.subrange(0, i as int));
            i += 1;
        }
        assert(self.nodes@.subrange(0, i as int) =~= self.nodes@);
        s.append("Edges:\n");
        let ghost mid = s@;
        let mut e: usize = 0;
        assert(self.edges@.subrange(0, 0) =~= Seq::<(usize, usize, char)>::empty());
        assert(s@ =~= mid + edges_listing(self.edges@.subrange(0, 0)));
        while e < self.edges.len()
            invariant
                0 <= e <= self.edges@.len(),
                s@ == mid + edges_listing(self.edges@.subrange(0, e as int)),
            decreases self.edges@.len() - e,
        {
            let (from, to, sym) = self.edges[e];
            s.append("  ");
            push_decimal(&mut s, from as u128);
            s.append(" --");
            push_char(&mut s, sym);
            s.append("--> ");
            push_decimal(&mut s, to as u128);
            push_char(&mut s, '\n');
            assert(self.edges@.subrange(0, e + 1).drop_last() =~= self.edges@.subrange(0, e as int));
            e += 1;
            assert(s@ =~= mid + edges_listing(self.edges@.subrange(0, e as int)));
        }
        assert(self.edges@.subrange(0, e as int) =~= self.edges@);
        assert(s@ =~= automaton_listing(*g, *self));
        s
    }
}

} // verus!
