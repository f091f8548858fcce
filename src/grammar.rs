use vstd::prelude::*;

verus! {

/// A nonterminal is an ASCII uppercase letter.
pub open spec fn is_nonterminal(c: char) -> bool {
    'A' <= c && c <= 'Z'
}

/// ASCII whitespace, as it separates symbols in the textual form.
pub open spec fn is_ws(c: char) -> bool {
    c == ' ' || c == '\t' || c == '\n' || c == '\r' || c == '\x0B' || c == '\x0C'
}

/// The symbols that user input may not hold: `@` drives the augmented start
/// production and `$` marks the end of input.
pub open spec fn is_reserved(c: char) -> bool {
    c == '@' || c == '$'
}

/// A terminal is any printable symbol that is neither a nonterminal nor reserved.
pub open spec fn is_terminal(c: char) -> bool {
    !is_nonterminal(c) && !is_reserved(c) && !is_ws(c)
}

/// A symbol that may stand in a production body.
pub open spec fn is_symbol(c: char) -> bool {
    !is_reserved(c) && !is_ws(c)
}

pub fn is_nonterminal_char(c: char) -> (r: bool)
    ensures
        r == is_nonterminal(c),
{
    'A' <= c && c <= 'Z'
}

pub fn is_ws_char(c: char) -> (r: bool)
    ensures
        r == is_ws(c),
{
    c == ' ' || c == '\t' || c == '\n' || c == '\r' || c == '\x0B' || c == '\x0C'
}

pub fn is_reserved_char(c: char) -> (r: bool)
    ensures
        r == is_reserved(c),
{
    c == '@' || c == '$'
}

pub fn is_terminal_char(c: char) -> (r: bool)
    ensures
        r == is_terminal(c),
{
    !is_nonterminal_char(c) && !is_reserved_char(c) && !is_ws_char(c)
}

/// A production `driver -> body`; `index` is its position in the grammar, and
/// is absent for the augmented start production.
#[derive(Debug, Clone)]
pub struct Production {
    pub index: Option<usize>,
    pub driver: char,
    pub body: Vec<char>,
}

impl Production {
    pub fn new(driver: char, body: Vec<char>) -> (r: Production)
        ensures
            r.index.is_none(),
            r.driver == driver,
            r.body@ == body@,
    {
        Production { index: None, driver, body }
    }
}

/// A grammar: its productions in declaration order, the augmented start
/// production, and the terminals and nonterminals seen so far.
#[derive(Debug, Clone)]
pub struct Grammar {
    pub starting_prod: Option<Production>,
    pub productions: Vec<Production>,
    pub terms: Vec<char>,
    pub non_terms: Vec<char>,
}

impl Grammar {
    pub open spec fn prod_count(self) -> nat {
        self.productions@.len()
    }

    pub open spec fn driver(self, p: int) -> char {
        self.productions@[p].driver
    }

    pub open spec fn body(self, p: int) -> Seq<char> {
        self.productions@[p].body@
    }

    /// The symbol that the augmented start production derives.
    pub open spec fn start_symbol(self) -> char {
        self.driver(0)
    }

    /// Every terminal that stands in some production body.
    pub open spec fn body_terminal(self, c: char) -> bool {
        is_terminal(c) && exists|p: int, k: int|
            0 <= p < self.prod_count() && 0 <= k < self.body(p).len() && self.body(p)[k] == c
    }

    pub open spec fn is_driver(self, c: char) -> bool {
        exists|p: int| 0 <= p < self.prod_count() && self.driver(p) == c
    }

    /// The terminals and nonterminals are exactly those that the productions use.
    pub open spec fn exact_symbols(self) -> bool {
        &&& forall|c: char| #[trigger] self.terms@.contains(c) ==> self.body_terminal(c)
        &&& forall|c: char| #[trigger] self.non_terms@.contains(c) ==> self.is_driver(c)
    }

    /// The grammar's invariant.
    pub open spec fn wf(self) -> bool {
        &&& forall|p: int| 0 <= p < self.prod_count() ==> self.productions@[p].index == Some(p as usize)
        &&& forall|p: int| 0 <= p < self.prod_count() ==> is_nonterminal(#[trigger] self.driver(p))
        &&& forall|p: int, k: int|
            0 <= p < self.prod_count() && 0 <= k < self.body(p).len() ==> is_symbol(
                #[trigger] self.body(p)[k],
            )
        &&& self.terms@.no_duplicates()
        &&& self.non_terms@.no_duplicates()
        &&& forall|c: char| #[trigger] self.terms@.contains(c) ==> is_terminal(c)
        &&& forall|c: char| #[trigger] self.non_terms@.contains(c) ==> is_nonterminal(c)
        &&& forall|c: char| self.body_terminal(c) ==> #[trigger] self.terms@.contains(c)
        &&& forall|c: char| self.is_driver(c) ==> #[trigger] self.non_terms@.contains(c)
        &&& self.start_ok()
    }

    /// The augmented start production `@ -> S` stands exactly when some
    /// production does, and `S` drives the first one.
    pub open spec fn start_ok(self) -> bool {
        if self.prod_count() == 0 {
            self.starting_prod.is_none()
        } else {
            &&& self.starting_prod.is_some()
            &&& self.starting_prod.unwrap().index.is_none()
            &&& self.starting_prod.unwrap().driver == '@'
            &&& self.starting_prod.unwrap().body@ == seq![self.start_symbol()]
        }
    }

    pub fn new() -> (r: Grammar)
        ensures
            r.wf(),
            r.prod_count() == 0,
            r.terms@.len() == 0,
            r.non_terms@.len() == 0,
    {
        Grammar { starting_prod: None, productions: Vec::new(), terms: Vec::new(), non_terms: Vec::new() }
    }

    /// Appends a production, giving it the next index.
    pub fn add_production(&mut self, production: Production)
        requires
            old(self).wf(),
            is_nonterminal(production.driver),
            forall|k: int| 0 <= k < production.body@.len() ==> is_symbol(#[trigger] production.body@[k]),
        ensures
            final(self).wf(),
            final(self).prod_count() == old(self).prod_count() + 1,
            forall|p: int| 0 <= p < old(self).prod_count() ==> #[trigger] final(self).productions@[p] == old(self).productions@[p],
            final(self).driver(old(self).prod_count() as int) == production.driver,
            final(self).body(old(self).prod_count() as int) == production.body@,
            old(self).prod_count() > 0 ==> final(self).starting_prod == old(self).starting_prod,
            old(self).exact_symbols() ==> final(self).exact_symbols(),
            forall|c: char| #[trigger] final(self).terms@.contains(c) <==> (old(self).terms@.contains(c) || (
                is_terminal(c) && production.body@.contains(c))),
            forall|c: char| #[trigger] final(self).non_terms@.contains(c) <==> (old(self).non_terms@.contains(c) || c == production.driver),
    {
        let ghost g0 = *self;
        if self.starting_prod.is_none() {
            let mut b: Vec<char> = Vec::new();
            b.push(production.driver);
            self.starting_prod = Some(Production { index: None, driver: '@', body: b });
        }
        self.add_non_term(production.driver);
        let mut k: usize = 0;
        while k < production.body.len()
            invariant
                0 <= k <= production.body@.len(),
                self.productions@ == g0.productions@,
                self.starting_prod == g0.starting_prod || g0.prod_count() == 0,
                g0.prod_count() == 0 ==> self.starting_prod.is_some() && self.starting_prod.unwrap().index.is_none()
                    && self.starting_prod.unwrap().driver == '@'
                    && self.starting_prod.unwrap().body@ == seq![production.driver],
                self.terms@.no_duplicates(),
                self.non_terms@.no_duplicates(),
                forall|c: char| #[trigger] self.terms@.contains(c) ==> is_terminal(c),
                forall|c: char| #[trigger] self.non_terms@.contains(c) ==> is_nonterminal(c),
                forall|c: char| #[trigger] self.terms@.contains(c) <==> (g0.terms@.contains(c) || (
                    is_terminal(c) && exists|j: int| 0 <= j < k && production.body@[j] == c)),
                forall|c: char| #[trigger] self.non_terms@.contains(c) <==> (g0.non_terms@.contains(c) || c == production.driver),
            decreases production.body@.len() - k,
        {
            let c = production.body[k];
            if is_terminal_char(c) {
                self.add_term(c);
            }
            k += 1;
        }
        assert forall|c: char| #[trigger] production.body@.contains(c) <==> exists|j: int| 0 <= j < k && production.body@[j] == c by {
            if production.body@.contains(c) {
                let j = choose|j: int| 0 <= j < production.body@.len() && production.body@[j] == c;
                assert(0 <= j < k && production.body@[j] == c);
            }
        }
        let n = self.productions.len();
        let Production { index: _, driver, body } = production;
        self.productions.push(Production { index: Some(n), driver, body });
        proof {
            let g = *self;
            assert forall|c: char| g.body_terminal(c) implies #[trigger] g.terms@.contains(c) by {
                let (p, k) = choose|p: int, k: int|
                    0 <= p < g.prod_count() && 0 <= k < g.body(p).len() && g.body(p)[k] == c;
                if p < n {
                    assert(g0.body(p)[k] == c);
                    assert(g0.body_terminal(c));
                } else {
                    assert(g.body(p) == production.body@);
                    assert(production.body@.contains(c));
                }
            }
            assert forall|c: char| g.is_driver(c) implies #[trigger] g.non_terms@.contains(c) by {
                let p = choose|p: int| 0 <= p < g.prod_count() && g.driver(p) == c;
                if p < n {
                    assert(g0.driver(p) == c);
                    assert(g0.is_driver(c));
                }
            }
            assert forall|p: int, k: int|
                0 <= p < g.prod_count() && 0 <= k < g.body(p).len() implies is_symbol(#[trigger] g.body(p)[k]) by {
                if p < n {
                    assert(g0.body(p)[k] == g.body(p)[k]);
                }
            }
            assert forall|p: int| 0 <= p < g.prod_count() implies g.productions@[p].index == Some(p as usize) && is_nonterminal(#[trigger] g.driver(p)) by {
                if p < n {
                    assert(g.productions@[p] == g0.productions@[p]);
                    assert(g0.productions@[p].index == Some(p as usize));
                    assert(is_nonterminal(g0.driver(p)));
                } else {
                    assert(g.productions@[p].index == Some(n));
                    assert(g.driver(p) == production.driver);
                }
            }
            if g0.exact_symbols() {
                assert forall|c: char| #[trigger] g.terms@.contains(c) implies g.body_terminal(c) by {
                    if g0.terms@.contains(c) {
                        assert(g0.body_terminal(c));
                        let (p, k) = choose|p: int, k: int|
                            0 <= p < g0.prod_count() && 0 <= k < g0.body(p).len() && g0.body(p)[k] == c;
                        assert(g.body(p) == g0.body(p));
                    } else {
                        let k = choose|k: int| 0 <= k < production.body@.len() && production.body@[k] == c;
                        assert(g.body(n as int)[k] == c);
                    }
                }
                assert forall|c: char| #[trigger] g.non_terms@.contains(c) implies g.is_driver(c) by {
                    if g0.non_terms@.contains(c) {
                        assert(g0.is_driver(c));
                        let p = choose|p: int| 0 <= p < g0.prod_count() && g0.driver(p) == c;
                        assert(g.driver(p) == g0.driver(p));
                    } else {
                        assert(g.driver(n as int) == c);
                    }
                }
            }
            if n == 0 {
                assert(g.start_symbol() == production.driver);
            } else {
                assert(g.start_symbol() == g0.start_symbol());
            }
        }
    }

    /// Records a terminal, unless it is already known.
    pub fn add_term(&mut self, term: char)
        requires
            is_terminal(term),
            old(self).terms@.no_duplicates(),
        ensures
            final(self).productions@ == old(self).productions@,
            final(self).starting_prod == old(self).starting_prod,
            final(self).non_terms@ == old(self).non_terms@,
            final(self).terms@.no_duplicates(),
            forall|c: char| #[trigger] final(self).terms@.contains(c) <==> (old(self).terms@.contains(c) || c == term),
    {
        if !contains_char(&self.terms, term) {
            self.terms.push(term);
        }
        proof {
            assert forall|c: char| #[trigger] self.terms@.contains(c) <==> (old(self).terms@.contains(c) || c == term) by {
                if !old(self).terms@.contains(term) {
                    assert(self.terms@ == old(self).terms@.push(term));
                    if old(self).terms@.contains(c) {
                        let j = choose|j: int| 0 <= j < old(self).terms@.len() && old(self).terms@[j] == c;
                        assert(self.terms@[j] == c);
                    }
                    if c == term {
                        assert(self.terms@[self.terms@.len() - 1] == c);
                    }
                }
            }
        }
    }

    /// Records a nonterminal, unless it is already known.
    pub fn add_non_term(&mut self, non_term: char)
        requires
            is_nonterminal(non_term),
            old(self).non_terms@.no_duplicates(),
        ensures
            final(self).productions@ == old(self).productions@,
            final(self).starting_prod == old(self).starting_prod,
            final(self).terms@ == old(self).terms@,
            final(self).non_terms@.no_duplicates(),
            forall|c: char| #[trigger] final(self).non_terms@.contains(c) <==> (old(self).non_terms@.contains(c) || c == non_term),
    {
        if !contains_char(&self.non_terms, non_term) {
            self.non_terms.push(non_term);
        }
        proof {
            assert forall|c: char| #[trigger] self.non_terms@.contains(c) <==> (old(self).non_terms@.contains(c) || c == non_term) by {
                if !old(self).non_terms@.contains(non_term) {
                    assert(self.non_terms@ == old(self).non_terms@.push(non_term));
                    if old(self).non_terms@.contains(c) {
                        let j = choose|j: int| 0 <= j < old(self).non_terms@.len() && old(self).non_terms@[j] == c;
                        assert(self.non_terms@[j] == c);
                    }
                    if c == non_term {
                        assert(self.non_terms@[self.non_terms@.len() - 1] == c);
                    }
                }
            }
        }
    }
}

pub fn contains_char(v: &Vec<char>, c: char) -> (r: bool)
    ensures
        r == v@.contains(c),
{
    let mut i: usize = 0;
    while i < v.len()
        invariant
            0 <= i <= v@.len(),
            forall|j: int| 0 <= j < i ==> v@[j] != c,
        decreases v@.len() - i,
    {
        if v[i] == c {
            return true;
        }
        i += 1;
    }
    false
}

} // verus!
