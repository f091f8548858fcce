use vstd::prelude::*;
use crate::first_follow::FirstFollowSet;
use crate::grammar::{contains_char, Grammar};
use crate::render::{action_text, decimal, join, latex_sym, lemma_join_push, push_char, push_decimal, push_latex_sym};
use crate::table::{Action, TableRow};

verus! {

/// Which fragments a LaTeX report holds.
#[derive(Clone, Copy, Debug)]
pub struct LatexFormatOutputFormatDescriptor {
    pub grammophone_link: bool,
    pub graphviz_link: bool,
    pub grammar_definition: bool,
    pub lr0_parsing_table: bool,
    pub slr1_parsing_table: bool,
    pub first_follow_set: bool,
}

impl LatexFormatOutputFormatDescriptor {
    pub open spec fn is_full(self) -> bool {
        self.grammophone_link && self.graphviz_link && self.grammar_definition && self.lr0_parsing_table
            && self.slr1_parsing_table && self.first_follow_set
    }

    pub open spec fn is_empty(self) -> bool {
        !self.grammophone_link && !self.graphviz_link && !self.grammar_definition && !self.lr0_parsing_table
            && !self.slr1_parsing_table && !self.first_follow_set
    }

    /// Every fragment.
    pub fn full() -> (r: Self)
        ensures
            r.is_full(),
    {
        LatexFormatOutputFormatDescriptor {
            grammophone_link: true,
            graphviz_link: true,
            grammar_definition: true,
            lr0_parsing_table: true,
            slr1_parsing_table: true,
            first_follow_set: true,
        }
    }

    /// Every fragment but the links.
    pub fn no_links() -> (r: Self)
        ensures
            !r.grammophone_link && !r.graphviz_link && r.grammar_definition && r.lr0_parsing_table
                && r.slr1_parsing_table && r.first_follow_set,
    {
        LatexFormatOutputFormatDescriptor {
            grammophone_link: false,
            graphviz_link: false,
            grammar_definition: true,
            lr0_parsing_table: true,
            slr1_parsing_table: true,
            first_follow_set: true,
        }
    }
}

impl Default for LatexFormatOutputFormatDescriptor {
    fn default() -> (r: Self)
        ensures
            r.is_full(),
    {
        Self::full()
    }
}

/// Names the base64 text (standard alphabet, padded) of the UTF-8 bytes of `s`.
pub uninterp spec fn base64_of(s: Seq<char>) -> Seq<char>;

/// Relies on base64's `STANDARD.encode`: the padded standard base64 text of
/// the string's bytes, which it computes from them alone. It panics only
/// where the encoded length overflows `usize`, which the bound rules out.
#[verifier::external_body]
fn encode_base64(s: &String) -> (r: String)
    requires
        s@.len() <= usize::MAX / 8,
    ensures
        r@ == base64_of(s@),
{
    base64::Engine::encode(&base64::engine::general_purpose::STANDARD, s.as_bytes())
}

/// The bodies of the productions of `d` among the first `p`, in order.
pub open spec fn bodies_upto(g: Grammar, d: char, p: int) -> Seq<Seq<char>>
    decreases p,
{
    if p <= 0 {
        Seq::empty()
    } else {
        let r = bodies_upto(g, d, p - 1);
        if g.driver(p - 1) == d {
            r.push(g.body(p - 1))
        } else {
            r
        }
    }
}

pub open spec fn bodies_of(g: Grammar, d: char) -> Seq<Seq<char>> {
    bodies_upto(g, d, g.prod_count() as int)
}

/// The symbols of a body separated by single spaces.
pub open spec fn spaced(body: Seq<char>) -> Seq<char> {
    join(body.map_values(|c: char| sym_text(c, false)), " "@)
}

/// The textual form of the grammar for Grammophone: one line per driver.
pub open spec fn grammophone_text(g: Grammar, nts: Seq<char>) -> Seq<char>
    decreases nts.len(),
{
    if nts.len() == 0 {
        Seq::empty()
    } else {
        let d = nts.last();
        grammophone_text(g, nts.drop_last()) + seq![d] + " -> "@ + join(bodies_of(g, d).map_values(|b: Seq<char>| spaced(b)), " | "@)
            + " .\n"@
    }
}

/// The Grammophone link fragment.
pub open spec fn grammophone_fragment(g: Grammar, nts: Seq<char>) -> Seq<char> {
    let text = grammophone_text(g, nts);
    "\\href{https://mdaines.github.io/grammophone/?s="@ + (if text.len() <= usize::MAX / 8 {
        base64_of(text)
    } else {
        Seq::empty()
    }) + "}{View on Grammophone}"@
}

/// A body in the grammar definition: its symbols, or `\epsilon`.
pub open spec fn definition_body(b: Seq<char>) -> Seq<char> {
    if b.len() == 0 {
        "\\epsilon"@
    } else {
        b
    }
}

pub open spec fn definition_lines(g: Grammar, nts: Seq<char>) -> Seq<char>
    decreases nts.len(),
{
    if nts.len() == 0 {
        Seq::empty()
    } else {
        let d = nts.last();
        definition_lines(g, nts.drop_last()) + seq![d] + " &\\rightarrow "@ + join(
            bodies_of(g, d).map_values(|b: Seq<char>| definition_body(b)),
            " \\mid "@,
        ) + " \\\\\n"@
    }
}

/// The grammar definition fragment, in an `align*` environment.
pub open spec fn definition_fragment(g: Grammar, nts: Seq<char>) -> Seq<char> {
    "\\begin{align*}\n"@ + definition_lines(g, nts) + "\\end{align*}\n"@
}

/// The actions of the first cell of `row` whose column is `x`.
pub open spec fn cell_lookup(row: Seq<(char, Vec<Action>)>, x: char) -> Option<Seq<Action>>
    decreases row.len(),
{
    if row.len() == 0 {
        None
    } else {
        match cell_lookup(row.drop_last(), x) {
            Some(a) => Some(a),
            None => if row.last().0 == x {
                Some(row.last().1@)
            } else {
                None
            },
        }
    }
}

/// A cell as the table shows it: its actions separated by `/`.
pub open spec fn cell_text(row: Seq<(char, Vec<Action>)>, x: char) -> Seq<char> {
    match cell_lookup(row, x) {
        Some(acts) => join(acts.map_values(|a: Action| action_text(a)), seq!['/']),
        None => seq![' '],
    }
}

pub open spec fn row_line(s: nat, row: Seq<(char, Vec<Action>)>, cols: Seq<char>) -> Seq<char> {
    seq!['s'] + decimal(s) + " & "@ + join(cols.map_values(|x: char| cell_text(row, x)), " & "@) + " \\\\ \n"@
}

pub open spec fn rows_text(t: Seq<TableRow>, cols: Seq<char>) -> Seq<char>
    decreases t.len(),
{
    if t.len() == 0 {
        Seq::empty()
    } else {
        rows_text(t.drop_last(), cols) + row_line((t.len() - 1) as nat, t.last()@, cols)
    }
}

pub open spec fn repeat_c(n: nat) -> Seq<char>
    decreases n,
{
    if n == 0 {
        Seq::empty()
    } else {
        repeat_c((n - 1) as nat).push('c')
    }
}

/// A parsing table in a `tabular`: a column per terminal (with `$`) and
/// nonterminal, a row per state.
pub open spec fn table_fragment(t: Seq<TableRow>, terms: Seq<char>, nts: Seq<char>, caption: Seq<char>) -> Seq<char> {
    "\\begin{table}[H]\\centering\\begin{tabular}{"@ + repeat_c(terms.len() + nts.len() + 1) + "}\n\\toprule\nStates & "@
        + join(terms.map_values(|c: char| sym_text(c, true)), " & "@) + " & "@ + join(nts.map_values(|c: char| sym_text(c, false)), " & "@)
        + "\\\\\n\\midrule\n"@ + rows_text(t, terms + nts) + "\\bottomrule\n\\end{tabular}\n\\caption{"@ + caption + "}\\end{table}"@
}

/// The members of `set` in the order of `order`.
pub open spec fn ordered_members(set: Seq<char>, order: Seq<char>) -> Seq<char>
    decreases order.len(),
{
    if order.len() == 0 {
        Seq::empty()
    } else {
        let r = ordered_members(set, order.drop_last());
        if set.contains(order.last()) {
            r.push(order.last())
        } else {
            r
        }
    }
}

pub open spec fn symbols_text(set: Seq<char>, order: Seq<char>) -> Seq<char> {
    join(ordered_members(set, order).map_values(|c: char| sym_text(c, true)), ","@)
}

/// The row of `ff` that belongs to `x`, if any.
pub open spec fn ff_lookup(ff: Seq<(char, FirstFollowSet)>, x: char) -> Option<FirstFollowSet>
    decreases ff.len(),
{
    if ff.len() == 0 {
        None
    } else {
        match ff_lookup(ff.drop_last(), x) {
            Some(r) => Some(r),
            None => if ff.last().0 == x {
                Some(ff.last().1)
            } else {
                None
            },
        }
    }
}

pub open spec fn ff_lines(ff: Seq<(char, FirstFollowSet)>, terms: Seq<char>, nts: Seq<char>) -> Seq<char>
    decreases nts.len(),
{
    if nts.len() == 0 {
        Seq::empty()
    } else {
        ff_lines(ff, terms, nts.drop_last()) + ff_line(ff, terms, nts.last())
    }
}

/// The FIRST / FOLLOW / nullable table fragment.
pub open spec fn first_follow_fragment(ff: Seq<(char, FirstFollowSet)>, terms: Seq<char>, nts: Seq<char>) -> Seq<char> {
    "\\begin{table}[H]\\centering\\begin{tabular}{cccc}\n\\toprule\nSymbol & First\\-set & Follow\\-set & Nullable\\\\\n\\midrule\n"@
        + ff_lines(ff, terms, nts) + "\\bottomrule\n\\end{tabular}\n\\end{table}"@
}

} // verus!

verus! {

/// The drivers of the first `p` productions, each once, in order of first declaration.
pub open spec fn drivers_upto(g: Grammar, p: int) -> Seq<char>
    decreases p,
{
    if p <= 0 {
        Seq::empty()
    } else {
        let r = drivers_upto(g, p - 1);
        if r.contains(g.driver(p - 1)) {
            r
        } else {
            r.push(g.driver(p - 1))
        }
    }
}

pub open spec fn sorted_strictly(s: Seq<char>) -> bool {
    forall|i: int, j: int| 0 <= i < j < s.len() ==> (#[trigger] s[i]) < (#[trigger] s[j])
}

impl Grammar {
    /// The terminals in increasing code point order, without `$`.
    pub fn get_sorted_terms(&self) -> (r: Vec<char>)
        requires
            self.terms@.no_duplicates(),
        ensures
            sorted_strictly(r@),
            forall|c: char| #[trigger] r@.contains(c) <==> self.terms@.contains(c),
    {
        let mut r: Vec<char> = Vec::new();
        let mut i: usize = 0;
        while i < self.terms.len()
            invariant
                self.terms@.no_duplicates(),
                0 <= i <= self.terms@.len(),
                sorted_strictly(r@),
                forall|c: char| #[trigger] r@.contains(c) <==> exists|j: int| 0 <= j < i && self.terms@[j] == c,
            decreases self.terms@.len() - i,
        {
            let c = self.terms[i];
            let ghost r0 = r@;
            proof {
                assert(!r0.contains(c)) by {
                    if r0.contains(c) {
                        let j = choose|j: int| 0 <= j < i && self.terms@[j] == c;
                    }
                }
            }
            // find the insertion point
            let mut k: usize = 0;
            while k < r.len() && r[k] < c
                invariant
                    r@ == r0,
                    0 <= k <= r0.len(),
                    forall|j: int| 0 <= j < k ==> r0[j] < c,
                decreases r0.len() - k,
            {
                k += 1;
            }
            r.insert(k, c);
            proof {
                assert(r@ == r0.insert(k as int, c));
                assert forall|a: int, b: int| 0 <= a < b < r@.len() implies (#[trigger] r@[a]) < (#[trigger] r@[b]) by {
                    if k < r0.len() {
                        assert(r0[k as int] != c);
                        assert(r0[k as int] >= c);
                    }
                    if a < k && b == k {
                    } else if a == k && b > k {
                        assert(r@[b] == r0[b - 1]);
                        assert(r0[k as int] > c);
                        if b - 1 > k {
                            assert(r0[k as int] < r0[b - 1]);
                        }
                    } else if a < k && b > k {
                        assert(r@[b] == r0[b - 1]);
                    } else if a > k {
                        assert(r@[a] == r0[a - 1] && r@[b] == r0[b - 1]);
                    }
                }
                assert forall|x: char| #[trigger] r@.contains(x) <==> exists|j: int| 0 <= j < i + 1 && self.terms@[j] == x by {
                    if r@.contains(x) {
                        let m = choose|m: int| 0 <= m < r@.len() && r@[m] == x;
                        if m < k {
                            assert(r0[m] == x);
                            assert(r0.contains(x));
                        } else if m > k {
                            assert(r0[m - 1] == x);
                            assert(r0.contains(x));
                        }
                    }
                    if exists|j: int| 0 <= j < i + 1 && self.terms@[j] == x {
                        let j = choose|j: int| 0 <= j < i + 1 && self.terms@[j] == x;
                        if j < i {
                            assert(r0.contains(x));
                            let m = choose|m: int| 0 <= m < r0.len() && r0[m] == x;
                            if m < k {
                                assert(r@[m] == x);
                            } else {
                                assert(r@[m + 1] == x);
                            }
                        } else {
                            assert(r@[k as int] == x);
                        }
                    }
                }
            }
            i += 1;
        }
        proof {
            assert forall|c: char| #[trigger] r@.contains(c) <==> self.terms@.contains(c) by {
                if self.terms@.contains(c) {
                    let j = choose|j: int| 0 <= j < self.terms@.len() && self.terms@[j] == c;
                }
            }
        }
        r
    }

    /// The drivers in order of first declaration, each once.
    pub fn get_sorted_non_terms(&self) -> (r: Vec<char>)
        ensures
            r@ == drivers_upto(*self, self.prod_count() as int),
    {
        let mut r: Vec<char> = Vec::new();
        let mut p: usize = 0;
        while p < self.productions.len()
            invariant
                0 <= p <= self.prod_count(),
                r@ == drivers_upto(*self, p as int),
            decreases self.prod_count() - p,
        {
            let d = self.productions[p].driver;
            if !contains_char(&r, d) {
                r.push(d);
            }
            p += 1;
        }
        r
    }
}

/// A symbol escaped for LaTeX or as it is.
pub open spec fn sym_text(c: char, escape: bool) -> Seq<char> {
    if escape {
        latex_sym(c)
    } else {
        seq![c]
    }
}

/// Appends the symbols of `syms`, each as `latex_sym` shows it when `escape`
/// holds and as itself otherwise, separated by `sep`.
fn push_symbols(s: &mut String, syms: &Vec<char>, sep: &str, escape: bool)
    ensures
        final(s)@ == old(s)@ + join(syms@.map_values(|c: char| sym_text(c, escape)), sep@),
{
    let ghost parts = syms@.map_values(|c: char| sym_text(c, escape));
    let mut i: usize = 0;
    assert(parts.subrange(0, 0) =~= Seq::<Seq<char>>::empty());
    assert(s@ =~= old(s)@ + join(parts.subrange(0, 0), sep@));
    while i < syms.len()
        invariant
            parts == syms@.map_values(|c: char| sym_text(c, escape)),
            0 <= i <= syms@.len(),
            s@ == old(s)@ + join(parts.subrange(0, i as int), sep@),
        decreases syms@.len() - i,
    {
        let ghost s0 = s@;
        if i > 0 {
            s.append(sep);
        }
        let ghost smid = s@;
        let c = syms[i];
        if escape {
            push_latex_sym(s, c);
            assert(s@ =~= smid + latex_sym(c));
        } else {
            push_char(s, c);
            assert(s@ =~= smid + seq![c]);
        }
        proof {
            assert(parts[i as int] == sym_text(c, escape));
            assert(s@ =~= smid + parts[i as int]);
            if i > 0 {
                assert(s@ =~= s0 + sep@ + parts[i as int]);
            } else {
                assert(s@ =~= s0 + parts[i as int]);
            }
            lemma_join_push(parts.subrange(0, i as int), sep@, parts[i as int]);
            assert(parts.subrange(0, i + 1) =~= parts.subrange(0, i as int).push(parts[i as int]));
        }
        i += 1;
        assert(s@ =~= old(s)@ + join(parts.subrange(0, i as int), sep@));
    }
    assert(parts.subrange(0, i as int) =~= parts);
}

} // verus!

verus! {

/// Appends the bodies of the productions of `d`, each as `body_text` shows
/// it, separated by `sep`. `spaced_form` picks the Grammophone form over the
/// definition form.
fn push_bodies(s: &mut String, g: &Grammar, d: char, sep: &str, spaced_form: bool)
    requires
        g.wf(),
    ensures
        final(s)@ == old(s)@ + join(bodies_of(*g, d).map_values(|b: Seq<char>| body_text(b, spaced_form)), sep@),
{
    let mut p: usize = 0;
    let mut count: usize = 0;
    assert(bodies_upto(*g, d, 0).map_values(|b: Seq<char>| body_text(b, spaced_form)) =~= Seq::<Seq<char>>::empty());
    while p < g.productions.len()
        invariant
            g.wf(),
            0 <= p <= g.prod_count(),
            count == bodies_upto(*g, d, p as int).len(),
            count <= p,
            s@ == old(s)@ + join(bodies_upto(*g, d, p as int).map_values(|b: Seq<char>| body_text(b, spaced_form)), sep@),
        decreases g.prod_count() - p,
    {
        if g.productions[p].driver == d {
            let ghost prev = bodies_upto(*g, d, p as int).map_values(|b: Seq<char>| body_text(b, spaced_form));
            let ghost s0 = s@;
            if count > 0 {
                s.append(sep);
            }
            count += 1;
            let ghost smid = s@;
            let body = &g.productions[p].body;
            if spaced_form {
                push_symbols(s, body, " ", false);
            } else if body.len() == 0 {
                s.append("\\epsilon");
            } else {
                crate::render::push_chars(s, body);
                assert(body@.map_values(|c: char| sym_text(c, false)).len() == body@.len());
            }
            proof {
                assert(s@ =~= smid + body_text(g.body(p as int), spaced_form)) by {
                    if !spaced_form && body@.len() > 0 {
                        assert(body_text(g.body(p as int), spaced_form) == g.body(p as int));
                    }
                }
                let next = bodies_upto(*g, d, p + 1).map_values(|b: Seq<char>| body_text(b, spaced_form));
                assert(next =~= prev.push(body_text(g.body(p as int), spaced_form)));
                lemma_join_push(prev, sep@, body_text(g.body(p as int), spaced_form));
            }
        }
        p += 1;
    }
}

/// A body in the Grammophone form (spaced symbols) or the definition form.
pub open spec fn body_text(b: Seq<char>, spaced_form: bool) -> Seq<char> {
    if spaced_form {
        spaced(b)
    } else {
        definition_body(b)
    }
}

/// Appends one line per driver of `nts`: the Grammophone form, or the
/// definition form.
fn push_grammar_lines(s: &mut String, g: &Grammar, nts: &Vec<char>, spaced_form: bool)
    requires
        g.wf(),
    ensures
        final(s)@ == old(s)@ + if spaced_form {
            grammophone_text(*g, nts@)
        } else {
            definition_lines(*g, nts@)
        },
{
    let mut i: usize = 0;
    assert(nts@.subrange(0, 0) =~= Seq::<char>::empty());
    while i < nts.len()
        invariant
            g.wf(),
            0 <= i <= nts@.len(),
            s@ == old(s)@ + if spaced_form {
                grammophone_text(*g, nts@.subrange(0, i as int))
            } else {
                definition_lines(*g, nts@.subrange(0, i as int))
            },
        decreases nts@.len() - i,
    {
        let d = nts[i];
        let ghost s0 = s@;
        push_char(s, d);
        if spaced_form {
            s.append(" -> ");
            push_bodies(s, g, d, " | ", true);
            s.append(" .\n");
        } else {
            s.append(" &\\rightarrow ");
            push_bodies(s, g, d, " \\mid ", false);
            s.append(" \\\\\n");
        }
        proof {
            let pre = nts@.subrange(0, i + 1);
            assert(pre.drop_last() =~= nts@.subrange(0, i as int));
            assert(pre.last() == d);
            assert(bodies_of(*g, d).map_values(|b: Seq<char>| body_text(b, true)) =~= bodies_of(*g, d).map_values(|b: Seq<char>| spaced(b)));
            assert(bodies_of(*g, d).map_values(|b: Seq<char>| body_text(b, false)) =~= bodies_of(*g, d).map_values(|b: Seq<char>| definition_body(b)));
        }
        i += 1;
        assert(s@ =~= old(s)@ + if spaced_form {
            grammophone_text(*g, nts@.subrange(0, i as int))
        } else {
            definition_lines(*g, nts@.subrange(0, i as int))
        });
    }
    assert(nts@.subrange(0, i as int) =~= nts@);
}

/// The Grammophone link fragment.
fn grammophone_link(g: &Grammar, nts: &Vec<char>) -> (r: String)
    requires
        g.wf(),
    ensures
        r@ == grammophone_fragment(*g, nts@),
{
    let mut text = String::new();
    push_grammar_lines(&mut text, g, nts, true);
    let mut s = String::new();
    s.append("\\href{https://mdaines.github.io/grammophone/?s=");
    let n = text.as_str().unicode_len();
    if n <= usize::MAX / 8 {
        let enc = encode_base64(&text);
        s.append(enc.as_str());
    }
    s.append("}{View on Grammophone}");
    assert(s@ =~= grammophone_fragment(*g, nts@));
    s
}

} // verus!

verus! {

fn find_cell(row: &TableRow, x: char) -> (r: Option<usize>)
    ensures
        match r {
            Some(c) => c < row@.len() && cell_lookup(row@, x) == Some(row@[c as int].1@),
            None => cell_lookup(row@, x).is_none(),
        },
{
    let mut c: usize = 0;
    assert(row@.subrange(0, 0) =~= Seq::<(char, Vec<Action>)>::empty());
    while c < row.len()
        invariant
            0 <= c <= row@.len(),
            cell_lookup(row@.subrange(0, c as int), x).is_none(),
        decreases row@.len() - c,
    {
        assert(row@.subrange(0, c + 1).drop_last() =~= row@.subrange(0, c as int));
        if row[c].0 == x {
            proof {
                lemma_lookup_prefix(row@, c + 1, x);
            }
            return Some(c);
        }
        c += 1;
    }
    assert(row@.subrange(0, c as int) =~= row@);
    None
}

/// A lookup that succeeds on a prefix gives the same on the whole row.
proof fn lemma_lookup_prefix(row: Seq<(char, Vec<Action>)>, n: int, x: char)
    requires
        0 <= n <= row.len(),
        cell_lookup(row.subrange(0, n), x).is_some(),
    ensures
        cell_lookup(row, x) == cell_lookup(row.subrange(0, n), x),
    decreases row.len() - n,
{
    if n < row.len() {
        assert(row.subrange(0, n + 1).drop_last() =~= row.subrange(0, n));
        lemma_lookup_prefix(row, n + 1, x);
    } else {
        assert(row.subrange(0, n) =~= row);
    }
}

fn push_cell(s: &mut String, row: &TableRow, x: char)
    ensures
        final(s)@ == old(s)@ + cell_text(row@, x),
{
    match find_cell(row, x) {
        Some(c) => {
            let acts = &row[c].1;
            let ghost parts = acts@.map_values(|a: Action| action_text(a));
            let mut i: usize = 0;
            assert(parts.subrange(0, 0) =~= Seq::<Seq<char>>::empty());
            assert(s@ =~= old(s)@ + join(parts.subrange(0, 0), seq!['/']));
            while i < acts.len()
                invariant
                    parts == acts@.map_values(|a: Action| action_text(a)),
                    0 <= i <= acts@.len(),
                    s@ == old(s)@ + join(parts.subrange(0, i as int), seq!['/']),
                decreases acts@.len() - i,
            {
                let ghost s0 = s@;
                if i > 0 {
                    push_char(s, '/');
                }
                let t = acts[i].as_string();
                s.append(t.as_str());
                proof {
                    assert(parts[i as int] == action_text(acts@[i as int]));
                    if i > 0 {
                        assert(s@ =~= s0 + seq!['/'] + parts[i as int]);
                    } else {
                        assert(s@ =~= s0 + parts[i as int]);
                    }
                    lemma_join_push(parts.subrange(0, i as int), seq!['/'], parts[i as int]);
                    assert(parts.subrange(0, i + 1) =~= parts.subrange(0, i as int).push(parts[i as int]));
                }
                i += 1;
            }
            assert(parts.subrange(0, i as int) =~= parts);
        },
        None => {
            push_char(s, ' ');
            assert(s@ =~= old(s)@ + cell_text(row@, x));
        },
    }
}

fn push_row_line(s: &mut String, st: usize, row: &TableRow, cols: &Vec<char>)
    ensures
        final(s)@ == old(s)@ + row_line(st as nat, row@, cols@),
{
    push_char(s, 's');
    push_decimal(s, st as u128);
    s.append(" & ");
    let ghost base = s@;
    let ghost parts = cols@.map_values(|x: char| cell_text(row@, x));
    let mut i: usize = 0;
    assert(parts.subrange(0, 0) =~= Seq::<Seq<char>>::empty());
    assert(s@ =~= base + join(parts.subrange(0, 0), " & "@));
    while i < cols.len()
        invariant
            parts == cols@.map_values(|x: char| cell_text(row@, x)),
            0 <= i <= cols@.len(),
            s@ == base + join(parts.subrange(0, i as int), " & "@),
        decreases cols@.len() - i,
    {
        let ghost s0 = s@;
        if i > 0 {
            s.append(" & ");
        }
        push_cell(s, row, cols[i]);
        proof {
            assert(parts[i as int] == cell_text(row@, cols@[i as int]));
            if i > 0 {
                assert(s@ =~= s0 + " & "@ + parts[i as int]);
            } else {
                assert(s@ =~= s0 + parts[i as int]);
            }
            lemma_join_push(parts.subrange(0, i as int), " & "@, parts[i as int]);
            assert(parts.subrange(0, i + 1) =~= parts.subrange(0, i as int).push(parts[i as int]));
        }
        i += 1;
    }
    assert(parts.subrange(0, i as int) =~= parts);
    s.append(" \\\\ \n");
    assert(s@ =~= old(s)@ + row_line(st as nat, row@, cols@));
}

/// A parsing table as a LaTeX `table`, with the columns in the order given.
pub fn generate_parsing_table_latex(
    parsing_table: &Vec<TableRow>,
    sorted_terms: &Vec<char>,
    sorted_non_terms: &Vec<char>,
    caption: &str,
) -> (r: String)
    ensures
        r@ == table_fragment(parsing_table@, sorted_terms@, sorted_non_terms@, caption@),
{
    let mut s = String::new();
    s.append("\\begin{table}[H]\\centering\\begin{tabular}{");
    let ncols: u128 = sorted_terms.len() as u128 + sorted_non_terms.len() as u128 + 1;
    let mut k: u128 = 0;
    let ghost h0 = s@;
    while k < ncols
        invariant
            0 <= k <= ncols,
            ncols == sorted_terms@.len() + sorted_non_terms@.len() + 1,
            s@ == h0 + repeat_c(k as nat),
        decreases ncols - k,
    {
        push_char(&mut s, 'c');
        k += 1;
    }
    s.append("}\n\\toprule\nStates & ");
    push_symbols(&mut s, sorted_terms, " & ", true);
    s.append(" & ");
    push_symbols(&mut s, sorted_non_terms, " & ", false);
    s.append("\\\\\n\\midrule\n");
    let mut cols: Vec<char> = crate::graph::copy_chars(sorted_terms);
    let mut j: usize = 0;
    while j < sorted_non_terms.len()
        invariant
            0 <= j <= sorted_non_terms@.len(),
            cols@ == sorted_terms@ + sorted_non_terms@.subrange(0, j as int),
        decreases sorted_non_terms@.len() - j,
    {
        cols.push(sorted_non_terms[j]);
        j += 1;
        assert(cols@ =~= sorted_terms@ + sorted_non_terms@.subrange(0, j as int));
    }
    assert(sorted_non_terms@.subrange(0, j as int) =~= sorted_non_terms@);
    let ghost mid = s@;
    let mut st: usize = 0;
    assert(parsing_table@.subrange(0, 0) =~= Seq::<TableRow>::empty());
    assert(s@ =~= mid + rows_text(parsing_table@.subrange(0, 0), cols@));
    while st < parsing_table.len()
        invariant
            0 <= st <= parsing_table@.len(),
            s@ == mid + rows_text(parsing_table@.subrange(0, st as int), cols@),
        decreases parsing_table@.len() - st,
    {
        push_row_line(&mut s, st, &parsing_table[st], &cols);
        assert(parsing_table@.subrange(0, st + 1).drop_last() =~= parsing_table@.subrange(0, st as int));
        st += 1;
        assert(s@ =~= mid + rows_text(parsing_table@.subrange(0, st as int), cols@));
    }
    assert(parsing_table@.subrange(0, st as int) =~= parsing_table@);
    s.append("\\bottomrule\n\\end{tabular}\n\\caption{");
    s.append(caption);
    s.append("}\\end{table}");
    assert(s@ =~= table_fragment(parsing_table@, sorted_terms@, sorted_non_terms@, caption@));
    s
}

} // verus!

verus! {

fn find_ff(ff: &Vec<(char, FirstFollowSet)>, x: char) -> (r: Option<usize>)
    ensures
        match r {
            Some(a) => a < ff@.len() && ff_lookup(ff@, x) == Some(ff@[a as int].1),
            None => ff_lookup(ff@, x).is_none(),
        },
{
    let mut a: usize = 0;
    assert(ff@.subrange(0, 0) =~= Seq::<(char, FirstFollowSet)>::empty());
    while a < ff.len()
        invariant
            0 <= a <= ff@.len(),
            ff_lookup(ff@.subrange(0, a as int), x).is_none(),
        decreases ff@.len() - a,
    {
        assert(ff@.subrange(0, a + 1).drop_last() =~= ff@.subrange(0, a as int));
        if ff[a].0 == x {
            proof {
                lemma_ff_lookup_prefix(ff@, a + 1, x);
            }
            return Some(a);
        }
        a += 1;
    }
    assert(ff@.subrange(0, a as int) =~= ff@);
    None
}

proof fn lemma_ff_lookup_prefix(ff: Seq<(char, FirstFollowSet)>, n: int, x: char)
    requires
        0 <= n <= ff.len(),
        ff_lookup(ff.subrange(0, n), x).is_some(),
    ensures
        ff_lookup(ff, x) == ff_lookup(ff.subrange(0, n), x),
    decreases ff.len() - n,
{
    if n < ff.len() {
        assert(ff.subrange(0, n + 1).drop_last() =~= ff.subrange(0, n));
        lemma_ff_lookup_prefix(ff, n + 1, x);
    } else {
        assert(ff.subrange(0, n) =~= ff);
    }
}

/// The members of `set` in the order of `order`.
fn ordered(set: &Vec<char>, order: &Vec<char>) -> (r: Vec<char>)
    ensures
        r@ == ordered_members(set@, order@),
{
    let mut r: Vec<char> = Vec::new();
    let mut i: usize = 0;
    assert(order@.subrange(0, 0) =~= Seq::<char>::empty());
    while i < order.len()
        invariant
            0 <= i <= order@.len(),
            r@ == ordered_members(set@, order@.subrange(0, i as int)),
        decreases order@.len() - i,
    {
        assert(order@.subrange(0, i + 1).drop_last() =~= order@.subrange(0, i as int));
        if contains_char(set, order[i]) {
            r.push(order[i]);
        }
        i += 1;
    }
    assert(order@.subrange(0, i as int) =~= order@);
    r
}

/// The line of nonterminal `x` in the FIRST / FOLLOW table, if it has a row.
pub open spec fn ff_line(ff: Seq<(char, FirstFollowSet)>, terms: Seq<char>, x: char) -> Seq<char> {
    match ff_lookup(ff, x) {
        Some(set) => seq![x] + " & "@ + symbols_text(set.first@, terms) + " & "@ + symbols_text(set.follow@, terms) + " & "@
            + (if set.nullable {
            "Yes"@
        } else {
            "No"@
        }) + "\\\\\n"@,
        None => Seq::empty(),
    }
}

fn push_ff_line(s: &mut String, ff: &Vec<(char, FirstFollowSet)>, sorted_terms: &Vec<char>, x: char)
    ensures
        final(s)@ == old(s)@ + ff_line(ff@, sorted_terms@, x),
{
    match find_ff(ff, x) {
        Some(a) => {
            let set = &ff[a].1;
            push_char(s, x);
            s.append(" & ");
            push_symbols(s, &ordered(&set.first, sorted_terms), ",", true);
            s.append(" & ");
            push_symbols(s, &ordered(&set.follow, sorted_terms), ",", true);
            s.append(" & ");
            if set.nullable {
                s.append("Yes");
            } else {
                s.append("No");
            }
            s.append("\\\\\n");
        },
        None => {},
    }
    assert(s@ =~= old(s)@ + ff_line(ff@, sorted_terms@, x));
}

/// The FIRST / FOLLOW / nullable table as a LaTeX `table`: a row per
/// nonterminal of `sorted_non_terms`, sets in the order of `sorted_terms`.
pub fn generate_first_follow_table_latex(
    first_follow_set: &Vec<(char, FirstFollowSet)>,
    sorted_terms: &Vec<char>,
    sorted_non_terms: &Vec<char>,
) -> (r: String)
    ensures
        r@ == first_follow_fragment(first_follow_set@, sorted_terms@, sorted_non_terms@),
{
    let ff = first_follow_set;
    let mut s = String::new();
    s.append("\\begin{table}[H]\\centering\\begin{tabular}{cccc}\n\\toprule\nSymbol & First\\-set & Follow\\-set & Nullable\\\\\n\\midrule\n");
    let ghost head = s@;
    let mut i: usize = 0;
    assert(sorted_non_terms@.subrange(0, 0) =~= Seq::<char>::empty());
    assert(s@ =~= head + ff_lines(ff@, sorted_terms@, sorted_non_terms@.subrange(0, 0)));
    while i < sorted_non_terms.len()
        invariant
            0 <= i <= sorted_non_terms@.len(),
            s@ == head + ff_lines(ff@, sorted_terms@, sorted_non_terms@.subrange(0, i as int)),
        decreases sorted_non_terms@.len() - i,
    {
        let x = sorted_non_terms[i];
        push_ff_line(&mut s, ff, sorted_terms, x);
        proof {
            let pre = sorted_non_terms@.subrange(0, i + 1);
            assert(pre.drop_last() =~= sorted_non_terms@.subrange(0, i as int));
            assert(pre.last() == x);
        }
        i += 1;
        assert(s@ =~= head + ff_lines(ff@, sorted_terms@, sorted_non_terms@.subrange(0, i as int)));
    }
    assert(sorted_non_terms@.subrange(0, i as int) =~= sorted_non_terms@);
    s.append("\\bottomrule\n\\end{tabular}\n\\end{table}");
    assert(s@ =~= first_follow_fragment(ff@, sorted_terms@, sorted_non_terms@));
    s
}

} // verus!

verus! {

use crate::table::{lr0_table_ok, slr_table_of};
use crate::first_follow::first_follow_ok;

/// The descriptor with every fragment on.
pub open spec fn full_descriptor() -> LatexFormatOutputFormatDescriptor {
    LatexFormatOutputFormatDescriptor {
        grammophone_link: true,
        graphviz_link: true,
        grammar_definition: true,
        lr0_parsing_table: true,
        slr1_parsing_table: true,
        first_follow_set: true,
    }
}

/// A descriptor with no fragment on asks for every fragment.
pub open spec fn effective(d: LatexFormatOutputFormatDescriptor) -> LatexFormatOutputFormatDescriptor {
    if d.is_empty() {
        full_descriptor()
    } else {
        d
    }
}

pub open spec fn lr0_caption() -> Seq<char> {
    "LR(0) parsing table"@
}

pub open spec fn slr1_caption() -> Seq<char> {
    "SLR(1) parsing table"@
}

/// The LaTeX report: the five fragments that the descriptor selects, each
/// under its comment line. `terms` are the column terminals with `$`, `nts`
/// the nonterminals in order of declaration.
pub open spec fn latex_document(
    g: Grammar,
    d: LatexFormatOutputFormatDescriptor,
    t0: Seq<TableRow>,
    t1: Seq<TableRow>,
    ff: Seq<(char, FirstFollowSet)>,
    terms: Seq<char>,
    nts: Seq<char>,
) -> Seq<char> {
    let e = effective(d);
    "\n% Grammophone link\n"@ + (if e.grammophone_link {
        grammophone_fragment(g, nts)
    } else {
        Seq::empty()
    }) + " \n\n\n% Grammar\n"@ + (if e.grammar_definition {
        definition_fragment(g, nts)
    } else {
        Seq::empty()
    }) + " \n\n\n% Lr0 parsing table\n"@ + (if e.lr0_parsing_table {
        table_fragment(t0, terms, nts, lr0_caption())
    } else {
        Seq::empty()
    }) + " \n\n\n% Slr1 parsing table\n"@ + (if e.slr1_parsing_table {
        table_fragment(t1, terms, nts, slr1_caption())
    } else {
        Seq::empty()
    }) + " \n\n\n% First-follow set\n"@ + (if e.first_follow_set {
        first_follow_fragment(ff, terms, nts)
    } else {
        Seq::empty()
    }) + "\n"@
}

/// The table columns for terminals: the terminals in increasing order, then `$`.
pub open spec fn terminal_columns(g: Grammar, ts: Seq<char>) -> bool {
    &&& ts.len() >= 1
    &&& ts.last() == '$'
    &&& sorted_strictly(ts.drop_last())
    &&& forall|c: char| #[trigger] ts.drop_last().contains(c) <==> g.terms@.contains(c)
}

/// Renders the report from tables already computed.
pub fn render_latex(
    g: &Grammar,
    descriptor: LatexFormatOutputFormatDescriptor,
    lr0: &Vec<TableRow>,
    slr1: &Vec<TableRow>,
    ff: &Vec<(char, FirstFollowSet)>,
) -> (r: String)
    requires
        g.wf(),
    ensures
        exists|ts: Seq<char>|
            terminal_columns(*g, ts) && r@ == #[trigger] latex_document(
                *g,
                descriptor,
                lr0@,
                slr1@,
                ff@,
                ts,
                drivers_upto(*g, g.prod_count() as int),
            ),
{
    let d = if !descriptor.grammophone_link && !descriptor.graphviz_link && !descriptor.grammar_definition
        && !descriptor.lr0_parsing_table && !descriptor.slr1_parsing_table && !descriptor.first_follow_set {
        LatexFormatOutputFormatDescriptor::full()
    } else {
        descriptor
    };
    assert(d == effective(descriptor));
    let mut terms = g.get_sorted_terms();
    let ghost sorted = terms@;
    terms.push('$');
    assert(terms@.drop_last() =~= sorted);
    let nts = g.get_sorted_non_terms();
    let f1 = if d.grammophone_link {
        grammophone_link(g, &nts)
    } else {
        String::new()
    };
    let f2 = if d.grammar_definition {
        definition_latex(g, &nts)
    } else {
        String::new()
    };
    let f3 = if d.lr0_parsing_table {
        generate_parsing_table_latex(lr0, &terms, &nts, "LR(0) parsing table")
    } else {
        String::new()
    };
    let f4 = if d.slr1_parsing_table {
        generate_parsing_table_latex(slr1, &terms, &nts, "SLR(1) parsing table")
    } else {
        String::new()
    };
    let f5 = if d.first_follow_set {
        generate_first_follow_table_latex(ff, &terms, &nts)
    } else {
        String::new()
    };
    let mut s = String::new();
    s.append("\n% Grammophone link\n");
    s.append(f1.as_str());
    s.append(" \n\n\n% Grammar\n");
    s.append(f2.as_str());
    s.append(" \n\n\n% Lr0 parsing table\n");
    s.append(f3.as_str());
    s.append(" \n\n\n% Slr1 parsing table\n");
    s.append(f4.as_str());
    s.append(" \n\n\n% First-follow set\n");
    s.append(f5.as_str());
    s.append("\n");
    assert(terminal_columns(*g, terms@));
    assert(s@ =~= "\n% Grammophone link\n"@ + f1@ + " \n\n\n% Grammar\n"@ + f2@ + " \n\n\n% Lr0 parsing table\n"@ + f3@
        + " \n\n\n% Slr1 parsing table\n"@ + f4@ + " \n\n\n% First-follow set\n"@ + f5@ + "\n"@);
    assert(s@ == latex_document(*g, descriptor, lr0@, slr1@, ff@, terms@, drivers_upto(*g, g.prod_count() as int)));
    s
}

/// The grammar definition fragment.
fn definition_latex(g: &Grammar, nts: &Vec<char>) -> (r: String)
    requires
        g.wf(),
    ensures
        r@ == definition_fragment(*g, nts@),
{
    let mut s = String::new();
    s.append("\\begin{align*}\n");
    push_grammar_lines(&mut s, g, nts, false);
    s.append("\\end{align*}\n");
    assert(s@ =~= definition_fragment(*g, nts@));
    s
}

impl Grammar {
    /// The LaTeX report on the grammar: the fragments that `descriptor`
    /// selects, all of them when it selects none.
    pub fn generate_latex_string(&self, descriptor: LatexFormatOutputFormatDescriptor) -> (r: String)
        requires
            self.wf(),
            self.prod_count() > 0,
        ensures
            exists|t0: Seq<TableRow>, t1: Seq<TableRow>, ff: Seq<(char, FirstFollowSet)>, ts: Seq<char>|
                lr0_table_ok(*self, t0) && slr_table_of(*self, t0, t1) && first_follow_ok(*self, ff) && terminal_columns(*self, ts)
                    && r@ == #[trigger] latex_document(
                    *self,
                    descriptor,
                    t0,
                    t1,
                    ff,
                    ts,
                    drivers_upto(*self, self.prod_count() as int),
                ),
    {
        let ff = self.get_first_follow_table();
        let lr0 = self.get_lr0_parsing_table();
        let slr1 = crate::table::build_slr1_table(self, &lr0, &ff);
        render_latex(self, descriptor, &lr0, &slr1, &ff)
    }
}

/// A report with no fragment selected is the report with every fragment.
pub proof fn lemma_no_flags_is_full(
    g: Grammar,
    d: LatexFormatOutputFormatDescriptor,
    t0: Seq<TableRow>,
    t1: Seq<TableRow>,
    ff: Seq<(char, FirstFollowSet)>,
    ts: Seq<char>,
    nts: Seq<char>,
)
    requires
        d.is_empty(),
    ensures
        latex_document(g, d, t0, t1, ff, ts, nts) == latex_document(g, full_descriptor(), t0, t1, ff, ts, nts),
{
}

/// With every flag on, the report holds each of the five fragments.
pub proof fn lemma_full_has_all_fragments(
    g: Grammar,
    d: LatexFormatOutputFormatDescriptor,
    t0: Seq<TableRow>,
    t1: Seq<TableRow>,
    ff: Seq<(char, FirstFollowSet)>,
    ts: Seq<char>,
    nts: Seq<char>,
)
    requires
        d.is_full(),
    ensures
        latex_document(g, d, t0, t1, ff, ts, nts) == "\n% Grammophone link\n"@ + grammophone_fragment(g, nts)
            + " \n\n\n% Grammar\n"@ + definition_fragment(g, nts) + " \n\n\n% Lr0 parsing table\n"@ + table_fragment(
            t0,
            ts,
            nts,
            lr0_caption(),
        ) + " \n\n\n% Slr1 parsing table\n"@ + table_fragment(t1, ts, nts, slr1_caption()) + " \n\n\n% First-follow set\n"@
            + first_follow_fragment(ff, ts, nts) + "\n"@,
{
}

} // verus!

verus! {

/// One line per production: its index (`?` for none), a tab, and `A -> body`.
pub open spec fn listing_line(p: crate::grammar::Production) -> Seq<char> {
    (match p.index {
        Some(i) => decimal(i as nat),
        None => seq!['?'],
    }) + seq!['\t', p.driver] + " -> "@ + p.body@ + seq!['\n']
}

pub open spec fn listing(ps: Seq<crate::grammar::Production>) -> Seq<char>
    decreases ps.len(),
{
    if ps.len() == 0 {
        Seq::empty()
    } else {
        listing(ps.drop_last()) + listing_line(ps.last())
    }
}

impl Grammar {
    /// The productions, one per line with their index.
    pub fn as_string(&self) -> (r: String)
        ensures
            r@ == listing(self.productions@),
    {
        let mut s = String::new();
        let mut p: usize = 0;
        assert(self.productions@.subrange(0, 0) =~= Seq::<crate::grammar::Production>::empty());
        while p < self.productions.len()
            invariant
                0 <= p <= self.productions@.len(),
                s@ == listing(self.productions@.subrange(0, p as int)),
            decreases self.productions@.len() - p,
        {
            let prod = &self.productions[p];
            let ghost s0 = s@;
            match prod.index {
                Some(i) => push_decimal(&mut s, i as u128),
                None => push_char(&mut s, '?'),
            }
            push_char(&mut s, '\t');
            push_char(&mut s, prod.driver);
            s.append(" -> ");
            crate::render::push_chars(&mut s, &prod.body);
            push_char(&mut s, '\n');
            assert(s@ =~= s0 + listing_line(*prod));
            assert(self.productions@.subrange(0, p + 1).drop_last() =~= self.productions@.subrange(0, p as int));
            p += 1;
        }
        assert(self.productions@.subrange(0, p as int) =~= self.productions@);
        s
    }

    /// The grammar in its textual form, one line per driver with its
    /// alternatives, as Grammophone reads it.
    pub fn to_text(&self) -> (r: String)
        requires
            self.wf(),
        ensures
            r@ == grammophone_text(*self, drivers_upto(*self, self.prod_count() as int)),
    {
        let nts = self.get_sorted_non_terms();
        let mut s = String::new();
        push_grammar_lines(&mut s, self, &nts, true);
        assert(s@ =~= grammophone_text(*self, nts@));
        s
    }
}

} // verus!
