use vstd::prelude::*;
use crate::grammar::{Grammar, Production, is_symbol, is_nonterminal, is_nonterminal_char, is_reserved, is_reserved_char, is_ws, is_ws_char};
use crate::text::{copy_range, str_to_chars, truncate_after_last, split_chars, split_spec, strip_ws, trim_chars, trim_spec, truncate_spec, views};

verus! {

/// Why a grammar could not be obtained.
#[derive(Debug, Clone, PartialEq)]
pub enum GrammarDecodeError {
    /// The text is not a grammar in the expected form.
    InvalidFormat(String),
    /// The text could not be obtained: unreadable input, bad base64, or bytes
    /// that are not UTF-8.
    ParseError(String),
}

/// A production as the parser yields it: driver and body.
pub type RawProduction = (char, Seq<char>);

/// First index `i` with `s[i..i+2] == "->"` at or after `from`, or -1.
pub open spec fn arrow_from(s: Seq<char>, from: int) -> int
    decreases s.len() - from,
{
    if from < 0 || from + 1 >= s.len() {
        -1
    } else if s[from] == '-' && s[from + 1] == '>' {
        from
    } else {
        arrow_from(s, from + 1)
    }
}

/// An alternative is well formed when no two symbols touch and none is reserved.
pub open spec fn alt_ok(s: Seq<char>) -> bool {
    forall|i: int|
        0 <= i < s.len() ==> !is_reserved(#[trigger] s[i]) && (i + 1 < s.len() ==> is_ws(s[i]) || is_ws(s[i + 1]))
}

/// A trimmed line without at most one final `.`.
pub open spec fn strip_period(t: Seq<char>) -> Seq<char> {
    if t.len() > 0 && t.last() == '.' {
        t.drop_last()
    } else {
        t
    }
}

/// The productions that one line declares; an empty line declares none.
pub open spec fn parse_line_spec(line: Seq<char>) -> Result<Seq<RawProduction>, ()> {
    let t = trim_spec(line);
    if t.len() == 0 {
        Ok(Seq::empty())
    } else {
        let u = strip_period(t);
        let a = arrow_from(u, 0);
        if a < 0 {
            Err(())
        } else {
            let d = trim_spec(u.subrange(0, a));
            let alts = split_spec(u.subrange(a + 2, u.len() as int), '|');
            if d.len() != 1 || !is_nonterminal(d[0]) {
                Err(())
            } else if exists|k: int| 0 <= k < alts.len() && !alt_ok(#[trigger] alts[k]) {
                Err(())
            } else {
                Ok(alts.map_values(|alt: Seq<char>| (d[0], strip_ws(alt))))
            }
        }
    }
}

pub open spec fn parse_lines(ls: Seq<Seq<char>>) -> Result<Seq<RawProduction>, ()>
    decreases ls.len(),
{
    if ls.len() == 0 {
        Ok(Seq::empty())
    } else {
        match parse_lines(ls.drop_last()) {
            Err(e) => Err(e),
            Ok(ps) => match parse_line_spec(ls.last()) {
                Err(e) => Err(e),
                Ok(q) => Ok(ps + q),
            },
        }
    }
}

/// The productions that a whole text declares, in order: the text is cut
/// after its last `.` and read line by line.
pub open spec fn parse_grammar_spec(s: Seq<char>) -> Result<Seq<RawProduction>, ()> {
    parse_lines(split_spec(truncate_spec(s, '.'), '\n'))
}

/// The grammar holds exactly the productions `ps`, and its terminals and
/// nonterminals are exactly those that they use.
pub open spec fn grammar_of(g: Grammar, ps: Seq<RawProduction>) -> bool {
    &&& g.wf()
    &&& g.exact_symbols()
    &&& g.prod_count() == ps.len()
    &&& forall|p: int| 0 <= p < ps.len() ==> g.driver(p) == (#[trigger] ps[p]).0 && g.body(p) == ps[p].1
}

pub fn find_arrow(s: &Vec<char>) -> (r: Option<usize>)
    ensures
        match r {
            Some(i) => arrow_from(s@, 0) == i,
            None => arrow_from(s@, 0) < 0,
        },
{
    let mut i: usize = 0;
    while i < s.len() && i + 1 < s.len()
        invariant
            0 <= i <= s@.len(),
            arrow_from(s@, 0) == arrow_from(s@, i as int),
        decreases s@.len() - i,
    {
        if s[i] == '-' && s[i + 1] == '>' {
            return Some(i);
        }
        i += 1;
    }
    None
}

proof fn lemma_strip_ws_push(s: Seq<char>, c: char)
    ensures
        strip_ws(s.push(c)) == if is_ws(c) {
            strip_ws(s)
        } else {
            strip_ws(s).push(c)
        },
{
    assert(s.push(c).drop_last() =~= s);
}

/// Reads one alternative: its symbols, or `None` when it is malformed.
pub fn parse_alt(s: &Vec<char>) -> (r: Option<Vec<char>>)
    ensures
        r.is_some() == alt_ok(s@),
        r.is_some() ==> forall|m: int| 0 <= m < r.unwrap()@.len() ==> is_symbol(#[trigger] r.unwrap()@[m]),
        r.is_some() ==> r.unwrap()@ == strip_ws(s@),
{
    let mut body: Vec<char> = Vec::new();
    let mut i: usize = 0;
    assert(s@.subrange(0, 0) =~= Seq::<char>::empty());
    while i < s.len()
        invariant
            0 <= i <= s@.len(),
            body@ == strip_ws(s@.subrange(0, i as int)),
            forall|m: int| 0 <= m < body@.len() ==> is_symbol(#[trigger] body@[m]),
            forall|j: int|
                0 <= j < i ==> !is_reserved(#[trigger] s@[j]) && (j + 1 < s@.len() ==> is_ws(s@[j]) || is_ws(s@[j + 1])),
        decreases s@.len() - i,
    {
        let c = s[i];
        if is_reserved_char(c) {
            return None;
        }
        if i + 1 < s.len() && !is_ws_char(c) && !is_ws_char(s[i + 1]) {
            return None;
        }
        proof {
            lemma_strip_ws_push(s@.subrange(0, i as int), c);
            assert(s@.subrange(0, i as int).push(c) =~= s@.subrange(0, i + 1));
        }
        if !is_ws_char(c) {
            body.push(c);
        }
        i += 1;
    }
    assert(s@.subrange(0, i as int) =~= s@);
    Some(body)
}

pub open spec fn raw_views(v: Seq<(char, Vec<char>)>) -> Seq<RawProduction> {
    v.map_values(|p: (char, Vec<char>)| (p.0, p.1@))
}

/// Reads one line into the productions that it declares.
pub fn parse_line(line: &Vec<char>) -> (r: Result<Vec<(char, Vec<char>)>, GrammarDecodeError>)
    ensures
        match parse_line_spec(line@) {
            Ok(q) => r.is_ok() && raw_views(r.unwrap()@) == q,
            Err(_) => r matches Err(GrammarDecodeError::InvalidFormat(_)),
        },
        r.is_ok() ==> forall|j: int| 0 <= j < r.unwrap()@.len() ==> is_nonterminal((#[trigger] r.unwrap()@[j]).0) && forall|m: int| 0 <= m < r.unwrap()@[j].1@.len() ==> is_symbol(#[trigger] r.unwrap()@[j].1@[m]),
{
    let t = trim_chars(line);
    if t.len() == 0 {
        let empty: Vec<(char, Vec<char>)> = Vec::new();
        assert(raw_views(empty@) =~= Seq::<RawProduction>::empty());
        return Ok(empty);
    }
    let u = if t[t.len() - 1] == '.' {
        copy_range(&t, 0, t.len() - 1)
    } else {
        t
    };
    assert(u@ == strip_period(trim_spec(line@))) by {
        if t@.len() > 0 && t@.last() == '.' {
            assert(t@.subrange(0, t@.len() - 1) =~= t@.drop_last());
        }
    }
    let a = match find_arrow(&u) {
        Some(a) => a,
        None => {
            return Err(GrammarDecodeError::InvalidFormat(String::from_str("No -> arrow")));
        },
    };
    proof {
        lemma_arrow_bound(u@, 0);
    }
    let left = copy_range(&u, 0, a);
    let d = trim_chars(&left);
    if d.len() != 1 || !is_nonterminal_char(d[0]) {
        return Err(GrammarDecodeError::InvalidFormat(String::from_str("expected one nonterminal on the left side of '->'")));
    }
    let driver = d[0];
    let right = copy_range(&u, a + 2, u.len());
    let alts = split_chars(&right, '|');
    let ghost salts = split_spec(right@, '|');
    let mut out: Vec<(char, Vec<char>)> = Vec::new();
    let mut k: usize = 0;
    while k < alts.len()
        invariant
            0 <= k <= alts@.len(),
            views(alts@) == salts,
            t@ == trim_spec(line@),
            t@.len() != 0,
            u@ == strip_period(t@),
            a == arrow_from(u@, 0),
            a + 1 < u@.len(),
            salts == split_spec(u@.subrange(a + 2, u@.len() as int), '|'),
            d@ == trim_spec(u@.subrange(0, a as int)),
            d@.len() == 1,
            is_nonterminal(d@[0]),
            driver == d@[0],
            forall|j: int| 0 <= j < out@.len() ==> (#[trigger] out@[j]).0 == driver && forall|m: int| 0 <= m < out@[j].1@.len() ==> is_symbol(#[trigger] out@[j].1@[m]),
            forall|j: int| 0 <= j < k ==> alt_ok(#[trigger] salts[j]),
            raw_views(out@) == salts.subrange(0, k as int).map_values(|alt: Seq<char>| (driver, strip_ws(alt))),
        decreases alts@.len() - k,
    {
        assert(alts@[k as int]@ == salts[k as int]);
        match parse_alt(&alts[k]) {
            Some(body) => {
                let ghost before = out@;
                out.push((driver, body));
                assert(raw_views(out@) =~= raw_views(before).push((driver, body@)));
                assert(salts.subrange(0, k + 1).map_values(|alt: Seq<char>| (driver, strip_ws(alt))) =~= salts.subrange(
                    0,
                    k as int,
                ).map_values(|alt: Seq<char>| (driver, strip_ws(alt))).push((driver, strip_ws(salts[k as int]))));
            },
            None => {
                assert(!alt_ok(salts[k as int]));
                return Err(GrammarDecodeError::InvalidFormat(String::from_str("each symbol should be a single character")));
            },
        }
        k += 1;
    }
    assert(salts.subrange(0, k as int) =~= salts);
    Ok(out)
}

proof fn lemma_arrow_bound(s: Seq<char>, from: int)
    requires
        from >= 0,
    ensures
        arrow_from(s, from) >= 0 ==> from <= arrow_from(s, from) && arrow_from(s, from) + 1 < s.len(),
    decreases s.len() - from,
{
    if from + 1 < s.len() && !(s[from] == '-' && s[from + 1] == '>') {
        lemma_arrow_bound(s, from + 1);
    }
}

} // verus!

verus! {

/// Reads a grammar from its textual form.
pub fn create_grammar_from_str(grammar_str: &String) -> (r: Result<Grammar, GrammarDecodeError>)
    ensures
        match parse_grammar_spec(grammar_str@) {
            Ok(ps) => r.is_ok() && grammar_of(r.unwrap(), ps),
            Err(_) => r matches Err(GrammarDecodeError::InvalidFormat(_)),
        },
{
    let text = str_to_chars(grammar_str.as_str());
    let cleaned = truncate_after_last(&text, '.');
    let lines = split_chars(&cleaned, '\n');
    let ghost slines = split_spec(cleaned@, '\n');
    let mut grammar = Grammar::new();
    let ghost mut ps: Seq<RawProduction> = Seq::empty();
    let mut i: usize = 0;
    assert(slines.subrange(0, 0) =~= Seq::<Seq<char>>::empty());
    while i < lines.len()
        invariant
            0 <= i <= lines@.len(),
            views(lines@) == slines,
            slines == parse_grammar_spec_lines(grammar_str@),
            parse_lines(slines.subrange(0, i as int)) == Ok::<Seq<RawProduction>, ()>(ps),
            grammar_of(grammar, ps),
        decreases lines@.len() - i,
    {
        assert(lines@[i as int]@ == slines[i as int]);
        assert(slines.subrange(0, i + 1).drop_last() =~= slines.subrange(0, i as int));
        let prods = match parse_line(&lines[i]) {
            Ok(q) => q,
            Err(e) => {
                assert(parse_lines(slines.subrange(0, i + 1)).is_err());
                proof {
                    lemma_parse_lines_err_prefix(slines, i as int + 1);
                    assert(slines.subrange(0, slines.len() as int) =~= slines);
                }
                return Err(e);
            },
        };
        let ghost q = raw_views(prods@);
        let mut k: usize = 0;
        let ghost ps0 = ps;
        assert(q.subrange(0, 0) =~= Seq::<RawProduction>::empty());
        assert(ps0 + q.subrange(0, 0) =~= ps0);
        while k < prods.len()
            invariant
                0 <= k <= prods@.len(),
                q == raw_views(prods@),
                grammar_of(grammar, ps0 + q.subrange(0, k as int)),
                forall|j: int| 0 <= j < q.len() ==> is_nonterminal((#[trigger] q[j]).0) && forall|m: int| 0 <= m < q[j].1.len() ==> is_symbol(#[trigger] q[j].1[m]),
            decreases prods@.len() - k,
        {
            let (driver, body) = copy_raw(&prods[k]);
            assert(q[k as int] == (driver, body@));
            assert forall|m: int| 0 <= m < body@.len() implies is_symbol(#[trigger] body@[m]) by {
                assert(body@[m] == q[k as int].1[m]);
            }
            let ghost before = grammar;
            grammar.add_production(Production::new(driver, body));
            proof {
                let pk = ps0 + q.subrange(0, k + 1);
                assert(pk =~= (ps0 + q.subrange(0, k as int)).push(q[k as int]));
                assert forall|p: int| 0 <= p < pk.len() implies grammar.driver(p) == (#[trigger] pk[p]).0 && grammar.body(p) == pk[p].1 by {
                    if p < before.prod_count() {
                        assert(grammar.productions@[p] == before.productions@[p]);
                    }
                }
            }
            k += 1;
        }
        proof {
            assert(q.subrange(0, k as int) =~= q);
            ps = ps0 + q;
        }
        i += 1;
    }
    assert(slines.subrange(0, i as int) =~= slines);
    Ok(grammar)
}

pub open spec fn parse_grammar_spec_lines(s: Seq<char>) -> Seq<Seq<char>> {
    split_spec(truncate_spec(s, '.'), '\n')
}

proof fn lemma_parse_lines_err_prefix(ls: Seq<Seq<char>>, n: int)
    requires
        0 <= n <= ls.len(),
        parse_lines(ls.subrange(0, n)).is_err(),
    ensures
        parse_lines(ls.subrange(0, ls.len() as int)).is_err(),
    decreases ls.len() - n,
{
    if n < ls.len() {
        assert(ls.subrange(0, n + 1).drop_last() =~= ls.subrange(0, n));
        lemma_parse_lines_err_prefix(ls, n + 1);
    }
}

fn copy_raw(p: &(char, Vec<char>)) -> (r: (char, Vec<char>))
    ensures
        r.0 == p.0,
        r.1@ == p.1@,
{
    let v = copy_range(&p.1, 0, p.1.len());
    assert(p.1@.subrange(0, p.1@.len() as int) =~= p.1@);
    (p.0, v)
}

} // verus!
