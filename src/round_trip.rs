use vstd::prelude::*;
use crate::grammar::{is_nonterminal, is_reserved, is_symbol, is_ws, Grammar};
use crate::latex::{bodies_of, grammophone_text, spaced, sym_text};
use crate::parser::{alt_ok, arrow_from, parse_grammar_spec, parse_line_spec, parse_lines, strip_period, RawProduction};
use crate::render::join;
use crate::text::{last_index, split_spec, strip_ws, trim_end, trim_spec, trim_start, truncate_spec};

verus! {

proof fn lemma_split_nonempty(s: Seq<char>, sep: char)
    ensures
        split_spec(s, sep).len() >= 1,
    decreases s.len(),
{
    if s.len() > 0 {
        lemma_split_nonempty(s.drop_last(), sep);
    }
}

/// Splitting at a separator splits the two sides apart.
proof fn lemma_split_concat(a: Seq<char>, b: Seq<char>, sep: char)
    ensures
        split_spec(a + seq![sep] + b, sep) == split_spec(a, sep) + split_spec(b, sep),
    decreases b.len(),
{
    let s = a + seq![sep] + b;
    if b.len() == 0 {
        assert(s.drop_last() =~= a);
        assert(split_spec(b, sep) =~= seq![Seq::<char>::empty()]);
        assert(split_spec(s, sep) =~= split_spec(a, sep) + split_spec(b, sep));
    } else {
        lemma_split_concat(a, b.drop_last(), sep);
        lemma_split_nonempty(b.drop_last(), sep);
        lemma_split_nonempty(a, sep);
        assert(s.drop_last() =~= a + seq![sep] + b.drop_last());
        assert(s.last() == b.last());
        let ra = split_spec(a, sep);
        let rb = split_spec(b.drop_last(), sep);
        if b.last() == sep {
            assert(split_spec(s, sep) =~= ra + rb.push(Seq::empty()));
        } else {
            assert(split_spec(s, sep) =~= ra + rb.update(rb.len() - 1, rb.last().push(b.last())));
        }
    }
}

/// A text without the separator is one piece.
proof fn lemma_split_single(s: Seq<char>, sep: char)
    requires
        !s.contains(sep),
    ensures
        split_spec(s, sep) == seq![s],
    decreases s.len(),
{
    if s.len() > 0 {
        assert(!s.drop_last().contains(sep)) by {
            if s.drop_last().contains(sep) {
                let i = choose|i: int| 0 <= i < s.drop_last().len() && s.drop_last()[i] == sep;
                assert(s[i] == sep);
            }
        }
        lemma_split_single(s.drop_last(), sep);
        assert(s.last() != sep) by {
            if s.last() == sep {
                assert(s[s.len() - 1] == sep);
            }
        }
        assert(s.drop_last().push(s.last()) =~= s);
        assert(split_spec(s, sep) =~= seq![s]);
    } else {
        assert(s =~= Seq::<char>::empty());
        assert(split_spec(s, sep) =~= seq![s]);
    }
}

proof fn lemma_strip_ws_concat(a: Seq<char>, b: Seq<char>)
    ensures
        strip_ws(a + b) == strip_ws(a) + strip_ws(b),
    decreases b.len(),
{
    if b.len() == 0 {
        assert(a + b =~= a);
        assert(strip_ws(a) + strip_ws(b) =~= strip_ws(a));
    } else {
        lemma_strip_ws_concat(a, b.drop_last());
        assert((a + b).drop_last() =~= a + b.drop_last());
        assert((a + b).last() == b.last());
        if is_ws(b.last()) {
        } else {
            assert(strip_ws(a + b) =~= strip_ws(a) + strip_ws(b));
        }
    }
}

/// The symbols of a body that holds no whitespace, spaced out, are a
/// well formed alternative that reads back as the body.
proof fn lemma_spaced(b: Seq<char>)
    requires
        forall|i: int| 0 <= i < b.len() ==> is_symbol(#[trigger] b[i]),
    ensures
        strip_ws(spaced(b)) == b,
        forall|i: int| 0 <= i < spaced(b).len() ==> #[trigger] spaced(b)[i] == ' ' || b.contains(spaced(b)[i]),
        forall|i: int|
            0 <= i < spaced(b).len() - 1 ==> is_ws(#[trigger] spaced(b)[i]) || is_ws(spaced(b)[i + 1]),
        b.len() > 0 ==> !is_ws(spaced(b)[0]) && !is_ws(spaced(b).last()),
    decreases b.len(),
{
    reveal_strlit(" ");
    let parts = b.map_values(|c: char| sym_text(c, false));
    if b.len() == 0 {
        assert(spaced(b) =~= Seq::<char>::empty());
    } else {
        let b0 = b.drop_last();
        let c = b.last();
        lemma_spaced(b0);
        assert(parts.drop_last() =~= b0.map_values(|c: char| sym_text(c, false)));
        assert(parts.last() == seq![c]);
        let s0 = spaced(b0);
        if b0.len() == 0 {
            assert(parts.len() == 1);
            assert(spaced(b) == seq![c]);
            assert(strip_ws(seq![c]) =~= b) by {
                assert(seq![c].drop_last() =~= Seq::<char>::empty());
                assert(b[0] == c);
            }
            assert(b.contains(c)) by {
                assert(b[0] == c);
            }
        } else {
            assert(spaced(b) == s0 + " "@ + seq![c]);
            lemma_strip_ws_concat(s0 + " "@, seq![c]);
            lemma_strip_ws_concat(s0, " "@);
            assert(strip_ws(" "@) =~= Seq::<char>::empty()) by {
                assert(" "@.len() == 1);
                assert(" "@.last() == ' ');
                assert(" "@.drop_last() =~= Seq::<char>::empty());
                assert(is_ws(' '));
                assert(strip_ws(Seq::<char>::empty()) =~= Seq::<char>::empty());
                assert(strip_ws(" "@) == strip_ws(" "@.drop_last()));
            }
            assert(strip_ws(seq![c]) =~= seq![c]) by {
                assert(seq![c].drop_last() =~= Seq::<char>::empty());
                assert(seq![c].last() == c);
                assert(is_symbol(b[b.len() - 1]));
                assert(!is_ws(c));
                assert(strip_ws(Seq::<char>::empty()) =~= Seq::<char>::empty());
            }
            assert(b0.push(c) =~= b);
            let s = spaced(b);
            assert forall|i: int| 0 <= i < s.len() implies #[trigger] s[i] == ' ' || b.contains(s[i]) by {
                if i < s0.len() {
                    assert(s[i] == s0[i]);
                    if b0.contains(s0[i]) {
                        let j = choose|j: int| 0 <= j < b0.len() && b0[j] == s0[i];
                        assert(b[j] == s0[i]);
                    }
                } else if i == s0.len() {
                } else {
                    assert(b[b.len() - 1] == c);
                }
            }
            assert forall|i: int| 0 <= i < s.len() - 1 implies is_ws(#[trigger] s[i]) || is_ws(s[i + 1]) by {
                if i < s0.len() - 1 {
                    assert(s[i] == s0[i] && s[i + 1] == s0[i + 1]);
                } else if i == s0.len() - 1 {
                    assert(s[i + 1] == ' ');
                } else {
                    assert(s[i] == ' ');
                }
            }
            assert(s[0] == s0[0]);
            assert(is_symbol(b[b.len() - 1]));
        }
    }
}

} // verus!

verus! {

/// A spaced body with a space on each side.
pub open spec fn padded(p: Seq<char>) -> Seq<char> {
    " "@ + p + " "@
}

/// The alternatives of a line split back apart at the bars.
proof fn lemma_split_alts(parts: Seq<Seq<char>>)
    requires
        parts.len() >= 1,
        forall|k: int| 0 <= k < parts.len() ==> !(#[trigger] parts[k]).contains('|'),
    ensures
        split_spec(" "@ + join(parts, " | "@) + " "@, '|') == parts.map_values(|p: Seq<char>| padded(p)),
    decreases parts.len(),
{
    reveal_strlit(" ");
    reveal_strlit(" | ");
    if parts.len() == 1 {
        let p = parts[0];
        assert(join(parts, " | "@) == p);
        assert(!padded(p).contains('|')) by {
            if padded(p).contains('|') {
                let i = choose|i: int| 0 <= i < padded(p).len() && padded(p)[i] == '|';
                if 1 <= i < 1 + p.len() {
                    assert(p[i - 1] == '|');
                }
            }
        }
        lemma_split_single(padded(p), '|');
        assert(parts.map_values(|p: Seq<char>| padded(p)) =~= seq![padded(p)]);
    } else {
        let p0 = parts.drop_last();
        let p = parts.last();
        assert forall|k: int| 0 <= k < p0.len() implies !(#[trigger] p0[k]).contains('|') by {
            assert(p0[k] == parts[k]);
        }
        lemma_split_alts(p0);
        assert(!parts[parts.len() - 1].contains('|'));
        assert(join(parts, " | "@) == join(p0, " | "@) + " | "@ + p);
        let left = " "@ + join(p0, " | "@) + " "@;
        assert(" "@ + join(parts, " | "@) + " "@ =~= left + seq!['|'] + padded(p));
        lemma_split_concat(left, padded(p), '|');
        assert(!padded(p).contains('|')) by {
            if padded(p).contains('|') {
                let i = choose|i: int| 0 <= i < padded(p).len() && padded(p)[i] == '|';
                if 1 <= i < 1 + p.len() {
                    assert(p[i - 1] == '|');
                }
            }
        }
        lemma_split_single(padded(p), '|');
        assert(parts.map_values(|p: Seq<char>| padded(p)) =~= p0.map_values(|p: Seq<char>| padded(p)).push(padded(p)));
    }
}

/// `b` is the body of some production.
pub open spec fn is_body(g: Grammar, b: Seq<char>) -> bool {
    exists|p: int| 0 <= p < g.prod_count() && #[trigger] g.body(p) == b
}

/// The bodies of a driver are bodies of the grammar.
proof fn lemma_bodies_upto(g: Grammar, d: char, n: int)
    requires
        0 <= n <= g.prod_count(),
    ensures
        forall|k: int| 0 <= k < crate::latex::bodies_upto(g, d, n).len() ==> is_body(g, #[trigger] crate::latex::bodies_upto(g, d, n)[k]),
        (exists|p: int| 0 <= p < n && #[trigger] g.driver(p) == d) ==> crate::latex::bodies_upto(g, d, n).len() > 0,
    decreases n,
{
    if n > 0 {
        lemma_bodies_upto(g, d, n - 1);
        let r = crate::latex::bodies_upto(g, d, n - 1);
        assert forall|k: int| 0 <= k < crate::latex::bodies_upto(g, d, n).len() implies is_body(g, #[trigger] crate::latex::bodies_upto(g, d, n)[k]) by {
            if k < r.len() {
                assert(crate::latex::bodies_upto(g, d, n)[k] == r[k]);
                assert(is_body(g, r[k]));
            } else {
                assert(crate::latex::bodies_upto(g, d, n)[k] == g.body(n - 1));
            }
        }
        if exists|p: int| 0 <= p < n && #[trigger] g.driver(p) == d {
            let p = choose|p: int| 0 <= p < n && #[trigger] g.driver(p) == d;
            if p < n - 1 {
                assert(exists|p2: int| 0 <= p2 < n - 1 && #[trigger] g.driver(p2) == d);
            }
        }
    }
}

/// One line of the textual form, without its line break.
pub open spec fn text_line(g: Grammar, d: char) -> Seq<char> {
    seq![d] + " -> "@ + join(bodies_of(g, d).map_values(|b: Seq<char>| spaced(b)), " | "@) + " ."@
}

/// No body holds a bar.
pub open spec fn bar_free(g: Grammar) -> bool {
    forall|p: int, i: int| 0 <= p < g.prod_count() && 0 <= i < g.body(p).len() ==> #[trigger] g.body(p)[i] != '|'
}

} // verus!

verus! {

/// A padded spaced body is a well formed alternative that reads back as the body.
proof fn lemma_alt(b: Seq<char>)
    requires
        forall|i: int| 0 <= i < b.len() ==> is_symbol(#[trigger] b[i]),
    ensures
        alt_ok(padded(spaced(b))),
        strip_ws(padded(spaced(b))) == b,
{
    reveal_strlit(" ");
    lemma_spaced(b);
    let s = spaced(b);
    let a = padded(s);
    assert(a =~= seq![' '] + s + seq![' ']);
    assert forall|i: int| 0 <= i < a.len() implies !is_reserved(#[trigger] a[i]) && (i + 1 < a.len() ==> is_ws(a[i]) || is_ws(a[i + 1])) by {
        if 1 <= i < 1 + s.len() {
            assert(a[i] == s[i - 1]);
            if s[i - 1] != ' ' {
                assert(b.contains(s[i - 1]));
                let j = choose|j: int| 0 <= j < b.len() && b[j] == s[i - 1];
                assert(is_symbol(b[j]));
            }
            if i + 1 < 1 + s.len() {
                assert(a[i + 1] == s[i]);
            }
        }
    }
    lemma_strip_ws_concat(seq![' '] + s, seq![' ']);
    lemma_strip_ws_concat(seq![' '], s);
    assert(strip_ws(seq![' ']) =~= Seq::<char>::empty()) by {
        assert(seq![' '].drop_last() =~= Seq::<char>::empty());
        assert(strip_ws(Seq::<char>::empty()) =~= Seq::<char>::empty());
    }
    assert(strip_ws(a) =~= b);
}

proof fn lemma_trim_fixed(t: Seq<char>)
    requires
        t.len() > 0,
        !is_ws(t[0]),
        !is_ws(t.last()),
    ensures
        trim_spec(t) == t,
{
}

/// A line of the textual form reads back as the productions of its driver.
proof fn lemma_line(g: Grammar, d: char)
    requires
        g.wf(),
        bar_free(g),
        g.is_driver(d),
    ensures
        parse_line_spec(text_line(g, d)) == Ok::<Seq<RawProduction>, ()>(bodies_of(g, d).map_values(|b: Seq<char>| (d, b))),
{
    reveal_strlit(" -> ");
    reveal_strlit(" .");
    reveal_strlit(" ");
    reveal_strlit(" | ");
    let bodies = bodies_of(g, d);
    let parts = bodies.map_values(|b: Seq<char>| spaced(b));
    let j = join(parts, " | "@);
    let line = text_line(g, d);
    assert(line =~= seq![d, ' ', '-', '>', ' '] + j + seq![' ', '.']);
    let p = choose|p: int| 0 <= p < g.prod_count() && g.driver(p) == d;
    assert(is_nonterminal(g.driver(p)));
    lemma_bodies_upto(g, d, g.prod_count() as int);
    assert(bodies.len() > 0);
    // bodies are bodies of the grammar: symbols, and no bar
    assert forall|k: int| 0 <= k < bodies.len() implies (forall|i: int| 0 <= i < bodies[k].len() ==> is_symbol(#[trigger] bodies[k][i]))
        && !bodies[k].contains('|') by {
        assert(is_body(g, crate::latex::bodies_upto(g, d, g.prod_count() as int)[k]));
        let q = choose|q: int| 0 <= q < g.prod_count() && #[trigger] g.body(q) == crate::latex::bodies_upto(g, d, g.prod_count() as int)[k];
        assert(bodies[k] == g.body(q));
        assert forall|i: int| 0 <= i < bodies[k].len() implies is_symbol(#[trigger] bodies[k][i]) by {
            assert(g.body(q)[i] == bodies[k][i]);
        }
        if bodies[k].contains('|') {
            let i = choose|i: int| 0 <= i < bodies[k].len() && bodies[k][i] == '|';
            assert(g.body(q)[i] == '|');
        }
    }
    assert forall|k: int| 0 <= k < parts.len() implies !(#[trigger] parts[k]).contains('|') by {
        lemma_spaced(bodies[k]);
        if parts[k].contains('|') {
            let i = choose|i: int| 0 <= i < parts[k].len() && parts[k][i] == '|';
            assert(spaced(bodies[k])[i] == '|');
        }
    }
    // trimming and the final period
    lemma_trim_fixed(line);
    let u = strip_period(trim_spec(line));
    assert(u =~= seq![d, ' ', '-', '>', ' '] + j + seq![' ']);
    // the arrow
    assert(arrow_from(u, 2) == 2);
    assert(arrow_from(u, 1) == 2);
    assert(arrow_from(u, 0) == 2);
    // the driver
    let left = u.subrange(0, 2);
    assert(left =~= seq![d, ' ']);
    assert(trim_start(left) == left);
    assert(left.drop_last() =~= seq![d]);
    assert(trim_end(seq![d]) == seq![d]);
    assert(trim_spec(left) =~= seq![d]);
    // the alternatives
    let right = u.subrange(4, u.len() as int);
    assert(right =~= " "@ + j + " "@);
    lemma_split_alts(parts);
    let alts = split_spec(right, '|');
    assert(alts =~= parts.map_values(|p: Seq<char>| padded(p)));
    assert forall|k: int| 0 <= k < alts.len() implies alt_ok(#[trigger] alts[k]) && strip_ws(alts[k]) == bodies[k] by {
        assert(alts[k] == padded(spaced(bodies[k])));
        lemma_alt(bodies[k]);
    }
    assert(!(exists|k: int| 0 <= k < alts.len() && !alt_ok(#[trigger] alts[k])));
    assert(alts.map_values(|alt: Seq<char>| (seq![d][0], strip_ws(alt))) =~= bodies.map_values(|b: Seq<char>| (d, b)));
}

} // verus!

verus! {

/// A join holds a character only where a part or the separator does.
proof fn lemma_join_free(parts: Seq<Seq<char>>, sep: Seq<char>, x: char)
    requires
        !sep.contains(x),
        forall|k: int| 0 <= k < parts.len() ==> !(#[trigger] parts[k]).contains(x),
    ensures
        !join(parts, sep).contains(x),
    decreases parts.len(),
{
    if parts.len() == 1 {
        assert(!parts[0].contains(x));
    } else if parts.len() > 1 {
        let p0 = parts.drop_last();
        assert forall|k: int| 0 <= k < p0.len() implies !(#[trigger] p0[k]).contains(x) by {
            assert(p0[k] == parts[k]);
        }
        lemma_join_free(p0, sep, x);
        assert(!parts[parts.len() - 1].contains(x));
        let j = join(parts, sep);
        let a = join(p0, sep);
        assert(j == a + sep + parts.last());
        if j.contains(x) {
            let i = choose|i: int| 0 <= i < j.len() && j[i] == x;
            if i < a.len() {
                assert(a[i] == x);
            } else if i < a.len() + sep.len() {
                assert(sep[i - a.len()] == x);
            } else {
                assert(parts.last()[i - a.len() - sep.len()] == x);
            }
        }
    }
}

/// A line of the textual form holds no line break.
proof fn lemma_line_free(g: Grammar, d: char)
    requires
        g.wf(),
        is_nonterminal(d),
    ensures
        !text_line(g, d).contains('\n'),
{
    reveal_strlit(" -> ");
    reveal_strlit(" .");
    reveal_strlit(" | ");
    let bodies = bodies_of(g, d);
    let parts = bodies.map_values(|b: Seq<char>| spaced(b));
    lemma_bodies_upto(g, d, g.prod_count() as int);
    assert forall|k: int| 0 <= k < parts.len() implies !(#[trigger] parts[k]).contains('\n') by {
        assert(is_body(g, bodies[k]));
        let q = choose|q: int| 0 <= q < g.prod_count() && #[trigger] g.body(q) == bodies[k];
        assert forall|i: int| 0 <= i < bodies[k].len() implies is_symbol(#[trigger] bodies[k][i]) by {
            assert(g.body(q)[i] == bodies[k][i]);
        }
        lemma_spaced(bodies[k]);
        if parts[k].contains('\n') {
            let i = choose|i: int| 0 <= i < parts[k].len() && parts[k][i] == '\n';
            assert(spaced(bodies[k])[i] == '\n');
            if bodies[k].contains('\n') {
                let m = choose|m: int| 0 <= m < bodies[k].len() && bodies[k][m] == '\n';
                assert(is_symbol(bodies[k][m]));
            }
        }
    }
    assert(!" | "@.contains('\n')) by {
        if " | "@.contains('\n') {
            let i = choose|i: int| 0 <= i < " | "@.len() && " | "@[i] == '\n';
        }
    }
    lemma_join_free(parts, " | "@, '\n');
    let line = text_line(g, d);
    let j = join(parts, " | "@);
    assert(line =~= seq![d, ' ', '-', '>', ' '] + j + seq![' ', '.']);
    if line.contains('\n') {
        let i = choose|i: int| 0 <= i < line.len() && line[i] == '\n';
        if 5 <= i < 5 + j.len() {
            assert(j[i - 5] == '\n');
        }
    }
}

/// The drivers of the first `p` productions are drivers.
proof fn lemma_drivers_upto(g: Grammar, p: int)
    requires
        0 <= p <= g.prod_count(),
    ensures
        forall|k: int| 0 <= k < crate::latex::drivers_upto(g, p).len() ==> g.is_driver(#[trigger] crate::latex::drivers_upto(g, p)[k]),
    decreases p,
{
    if p > 0 {
        lemma_drivers_upto(g, p - 1);
        let r = crate::latex::drivers_upto(g, p - 1);
        assert forall|k: int| 0 <= k < crate::latex::drivers_upto(g, p).len() implies g.is_driver(#[trigger] crate::latex::drivers_upto(g, p)[k]) by {
            if k < r.len() {
                assert(crate::latex::drivers_upto(g, p)[k] == r[k]);
            } else {
                assert(g.driver(p - 1) == crate::latex::drivers_upto(g, p)[k]);
            }
        }
    }
}

/// The lines of the textual form, split back apart.
proof fn lemma_text_split(g: Grammar, nts: Seq<char>)
    requires
        g.wf(),
        nts.len() >= 1,
        forall|k: int| 0 <= k < nts.len() ==> is_nonterminal(#[trigger] nts[k]),
    ensures
        grammophone_text(g, nts).len() >= 2,
        grammophone_text(g, nts).last() == '\n',
        grammophone_text(g, nts).drop_last().last() == '.',
        split_spec(grammophone_text(g, nts).drop_last(), '\n') == nts.map_values(|d: char| text_line(g, d)),
    decreases nts.len(),
{
    reveal_strlit(" .\n");
    reveal_strlit(" .");
    let d = nts.last();
    let pre = nts.drop_last();
    let line = text_line(g, d);
    let t = grammophone_text(g, nts);
    assert(is_nonterminal(nts[nts.len() - 1]));
    lemma_line_free(g, d);
    assert(t =~= grammophone_text(g, pre) + line + seq!['\n']);
    assert(t.drop_last() =~= grammophone_text(g, pre) + line);
    assert(line.last() == '.');
    if nts.len() == 1 {
        assert(grammophone_text(g, pre) =~= Seq::<char>::empty());
        lemma_split_single(line, '\n');
        assert(nts.map_values(|d: char| text_line(g, d)) =~= seq![line]);
    } else {
        assert forall|k: int| 0 <= k < pre.len() implies is_nonterminal(#[trigger] pre[k]) by {
            assert(pre[k] == nts[k]);
        }
        lemma_text_split(g, pre);
        let tp = grammophone_text(g, pre);
        assert(tp =~= tp.drop_last() + seq!['\n']);
        assert(t.drop_last() =~= tp.drop_last() + seq!['\n'] + line);
        lemma_split_concat(tp.drop_last(), line, '\n');
        lemma_split_single(line, '\n');
        assert(nts.map_values(|d: char| text_line(g, d)) =~= pre.map_values(|d: char| text_line(g, d)).push(line));
    }
}

/// The productions of the drivers of `nts`, driver by driver.
pub open spec fn grouped(g: Grammar, nts: Seq<char>) -> Seq<RawProduction>
    decreases nts.len(),
{
    if nts.len() == 0 {
        Seq::empty()
    } else {
        grouped(g, nts.drop_last()) + bodies_of(g, nts.last()).map_values(|b: Seq<char>| (nts.last(), b))
    }
}

proof fn lemma_parse_text_lines(g: Grammar, nts: Seq<char>)
    requires
        g.wf(),
        bar_free(g),
        forall|k: int| 0 <= k < nts.len() ==> g.is_driver(#[trigger] nts[k]),
    ensures
        parse_lines(nts.map_values(|d: char| text_line(g, d))) == Ok::<Seq<RawProduction>, ()>(grouped(g, nts)),
    decreases nts.len(),
{
    if nts.len() > 0 {
        let pre = nts.drop_last();
        assert forall|k: int| 0 <= k < pre.len() implies g.is_driver(#[trigger] pre[k]) by {
            assert(pre[k] == nts[k]);
        }
        lemma_parse_text_lines(g, pre);
        assert(g.is_driver(nts[nts.len() - 1]));
        lemma_line(g, nts.last());
        let ls = nts.map_values(|d: char| text_line(g, d));
        assert(ls.drop_last() =~= pre.map_values(|d: char| text_line(g, d)));
        assert(ls.last() == text_line(g, nts.last()));
    } else {
        assert(nts.map_values(|d: char| text_line(g, d)) =~= Seq::<Seq<char>>::empty());
    }
}

/// Reading back the textual form of a grammar with no bar in a body gives
/// its productions, grouped by driver in order of first declaration; for a
/// grammar that declares each driver's productions together, that is the
/// grammar's own list.
pub proof fn lemma_text_round_trip(g: Grammar)
    requires
        g.wf(),
        bar_free(g),
    ensures
        parse_grammar_spec(grammophone_text(g, crate::latex::drivers_upto(g, g.prod_count() as int))) == Ok::<
            Seq<RawProduction>,
            (),
        >(grouped(g, crate::latex::drivers_upto(g, g.prod_count() as int))),
{
    let nts = crate::latex::drivers_upto(g, g.prod_count() as int);
    lemma_drivers_upto(g, g.prod_count() as int);
    let t = grammophone_text(g, nts);
    if nts.len() == 0 {
        assert(t =~= Seq::<char>::empty());
        assert(truncate_spec(t, '.') == t);
        assert(split_spec(t, '\n') =~= seq![Seq::<char>::empty()]);
        let ls = seq![Seq::<char>::empty()];
        assert(ls.drop_last() =~= Seq::<Seq<char>>::empty());
        assert(trim_spec(Seq::<char>::empty()) =~= Seq::<char>::empty());
        assert(parse_line_spec(Seq::<char>::empty()) == Ok::<Seq<RawProduction>, ()>(Seq::empty()));
        assert(parse_lines(Seq::<Seq<char>>::empty()) == Ok::<Seq<RawProduction>, ()>(Seq::empty()));
        assert(ls.last() == Seq::<char>::empty());
        assert(ls.len() == 1);
        assert(parse_lines(ls) == Ok::<Seq<RawProduction>, ()>(Seq::<RawProduction>::empty() + Seq::<RawProduction>::empty()));
        assert(Seq::<RawProduction>::empty() + Seq::<RawProduction>::empty() =~= Seq::<RawProduction>::empty());
    } else {
        assert forall|k: int| 0 <= k < nts.len() implies is_nonterminal(#[trigger] nts[k]) by {
            assert(g.is_driver(nts[k]));
            let p = choose|p: int| 0 <= p < g.prod_count() && g.driver(p) == nts[k];
            assert(is_nonterminal(g.driver(p)));
        }
        lemma_text_split(g, nts);
        assert(last_index(t, '.') == last_index(t.drop_last(), '.'));
        assert(last_index(t.drop_last(), '.') == t.len() - 2);
        assert(truncate_spec(t, '.') =~= t.drop_last());
        lemma_parse_text_lines(g, nts);
    }
}

} // verus!
