use vstd::prelude::*;
use crate::grammar::{Grammar, Production};

verus! {

/// An LR(0) item: a production and a dot position in its body. The production
/// is named by its index; `None` names the augmented start production.
#[derive(Clone, Copy, Debug, PartialEq, Eq)]
pub struct Lr0Item {
    pub production: Option<usize>,
    pub dot_position: usize,
}

/// An LR(0) item that owns a copy of its production.
#[derive(Debug, Clone)]
pub struct Lr0ItemOwned {
    pub production: Production,
    pub dot_position: usize,
}

impl Grammar {
    /// The body of the production that `prod` names.
    pub open spec fn prod_body(self, prod: Option<usize>) -> Seq<char> {
        match prod {
            None => seq![self.start_symbol()],
            Some(p) => self.body(p as int),
        }
    }

    pub open spec fn valid_prod(self, prod: Option<usize>) -> bool {
        match prod {
            None => self.prod_count() > 0,
            Some(p) => p < self.prod_count(),
        }
    }

    pub open spec fn valid_item(self, it: Lr0Item) -> bool {
        self.valid_prod(it.production) && it.dot_position <= self.prod_body(it.production).len()
    }

    pub open spec fn next_sym(self, it: Lr0Item) -> Option<char> {
        if it.dot_position < self.prod_body(it.production).len() {
            Some(self.prod_body(it.production)[it.dot_position as int])
        } else {
            None
        }
    }

    pub open spec fn valid_items(self, s: Seq<Lr0Item>) -> bool {
        forall|i: int| 0 <= i < s.len() ==> self.valid_item(#[trigger] s[i])
    }

    /// Some item of `seed` has `c` right after its dot.
    pub open spec fn seed_next(self, seed: Seq<Lr0Item>, c: char) -> bool {
        exists|i: int| 0 <= i < seed.len() && self.next_sym(#[trigger] seed[i]) == Some(c)
    }

    /// `c` is the first symbol of a production whose driver is in `r`.
    pub open spec fn leads_to(self, r: Set<char>, c: char) -> bool {
        exists|p: int|
            0 <= p < self.prod_count() && r.contains(#[trigger] self.driver(p)) && self.body(p).len() > 0
                && self.body(p)[0] == c
    }

    /// The symbols that closing `seed` reaches in `k` expansion steps.
    pub open spec fn reach_n(self, seed: Seq<Lr0Item>, k: nat) -> Set<char>
        decreases k,
    {
        if k == 0 {
            Set::new(|c: char| self.seed_next(seed, c))
        } else {
            let r = self.reach_n(seed, (k - 1) as nat);
            r.union(Set::new(|c: char| self.leads_to(r, c)))
        }
    }

    /// The symbols whose productions the closure of `seed` expands.
    pub open spec fn reachable(self, seed: Seq<Lr0Item>, c: char) -> bool {
        exists|k: nat| #[trigger] self.reach_n(seed, k).contains(c)
    }

    /// Position of the first production that `c` drives, or the count of
    /// productions from `p` on where none does.
    pub open spec fn first_pos_from(self, c: char, p: int) -> int
        decreases self.prod_count() - p,
    {
        if p < 0 || p >= self.prod_count() {
            self.prod_count() as int
        } else if self.driver(p) == c {
            p
        } else {
            self.first_pos_from(c, p + 1)
        }
    }

    /// Position of the first production that `c` drives.
    pub open spec fn first_pos(self, c: char) -> int {
        self.first_pos_from(c, 0)
    }

    /// Closure items are ordered by the first declaration of their driver,
    /// then by their own position.
    pub open spec fn closure_before(self, p: int, q: int) -> bool {
        self.first_pos(self.driver(p)) < self.first_pos(self.driver(q)) || (self.driver(p) == self.driver(q)
            && p < q)
    }

    /// `r` is the closure increment of `seed`: the items `(p, 0)` whose driver
    /// closing `seed` reaches, without those of `seed`, in closure order.
    pub open spec fn is_closure_of(self, seed: Seq<Lr0Item>, r: Seq<Lr0Item>) -> bool {
        &&& forall|i: int|
            0 <= i < r.len() ==> (#[trigger] r[i]).dot_position == 0 && r[i].production.is_some()
                && r[i].production.unwrap() < self.prod_count() && self.reachable(
                seed,
                self.driver(r[i].production.unwrap() as int),
            ) && !seed.contains(r[i])
        &&& forall|p: int|
            0 <= p < self.prod_count() && self.reachable(seed, #[trigger] self.driver(p)) && !seed.contains(
                Lr0Item { production: Some(p as usize), dot_position: 0 },
            ) ==> r.contains(Lr0Item { production: Some(p as usize), dot_position: 0 })
        &&& forall|i: int, j: int|
            0 <= i < j < r.len() ==> self.closure_before(
                (#[trigger] r[i]).production.unwrap() as int,
                (#[trigger] r[j]).production.unwrap() as int,
            )
    }
}

pub proof fn lemma_first_pos_from(g: Grammar, c: char, p: int)
    requires
        0 <= p,
    ensures
        p <= g.first_pos_from(c, p) <= g.prod_count() || p > g.prod_count(),
        g.first_pos_from(c, p) < g.prod_count() ==> g.driver(g.first_pos_from(c, p)) == c,
        forall|q: int| p <= q < g.first_pos_from(c, p) && q < g.prod_count() ==> g.driver(q) != c,
    decreases g.prod_count() - p,
{
    if p < g.prod_count() && g.driver(p) != c {
        lemma_first_pos_from(g, c, p + 1);
    }
}

pub proof fn lemma_first_pos(g: Grammar, p: int)
    requires
        0 <= p < g.prod_count(),
    ensures
        g.first_pos(g.driver(p)) <= p,
        g.driver(g.first_pos(g.driver(p))) == g.driver(p),
        forall|q: int| 0 <= q < g.first_pos(g.driver(p)) ==> g.driver(q) != g.driver(p),
{
    lemma_first_pos_from(g, g.driver(p), 0);
}

impl Lr0Item {
    /// The item with the dot before the whole body of `production`.
    pub fn new(production: &Production) -> (r: Lr0Item)
        ensures
            r.production == production.index,
            r.dot_position == 0,
    {
        Lr0Item { production: production.index, dot_position: 0 }
    }

    pub fn body_len(&self, g: &Grammar) -> (r: usize)
        requires
            g.wf(),
            g.valid_prod(self.production),
        ensures
            r == g.prod_body(self.production).len(),
    {
        match self.production {
            None => 1,
            Some(p) => g.productions[p].body.len(),
        }
    }

    /// The dot stands at the end of the body.
    pub fn is_complete(&self, g: &Grammar) -> (r: bool)
        requires
            g.wf(),
            g.valid_item(*self),
        ensures
            r == (self.dot_position >= g.prod_body(self.production).len()),
    {
        self.dot_position >= self.body_len(g)
    }

    /// The symbol right after the dot, if any.
    pub fn next_symbol(&self, g: &Grammar) -> (r: Option<char>)
        requires
            g.wf(),
            g.valid_item(*self),
        ensures
            r == g.next_sym(*self),
    {
        if self.dot_position < self.body_len(g) {
            match self.production {
                None => Some(g.productions[0].driver),
                Some(p) => Some(g.productions[p].body[self.dot_position]),
            }
        } else {
            None
        }
    }

    /// The item with the dot moved past the next symbol; `None` when complete.
    pub fn next_item(&self, g: &Grammar) -> (r: Option<Lr0Item>)
        requires
            g.wf(),
            g.valid_item(*self),
        ensures
            self.dot_position < g.prod_body(self.production).len() ==> r == Some(
                Lr0Item { production: self.production, dot_position: (self.dot_position + 1) as usize },
            ),
            self.dot_position >= g.prod_body(self.production).len() ==> r.is_none(),
    {
        if self.dot_position < self.body_len(g) {
            Some(Lr0Item { production: self.production, dot_position: self.dot_position + 1 })
        } else {
            None
        }
    }

    /// Moves the dot past the next symbol, unless the item is complete.
    pub fn advance(&mut self, g: &Grammar)
        requires
            g.wf(),
            g.valid_item(*old(self)),
        ensures
            final(self).production == old(self).production,
            final(self).dot_position == if old(self).dot_position < g.prod_body(old(self).production).len() {
                old(self).dot_position + 1
            } else {
                old(self).dot_position as int
            },
    {
        if self.dot_position < self.body_len(g) {
            self.dot_position = self.dot_position + 1;
        }
    }
}

impl Production {
    /// The item with the dot before the whole body.
    pub fn as_lr0_item(&self) -> (r: Lr0Item)
        ensures
            r.production == self.index,
            r.dot_position == 0,
    {
        Lr0Item::new(self)
    }
}

pub fn same_item(a: &Lr0Item, b: &Lr0Item) -> (r: bool)
    ensures
        r == (*a == *b),
{
    let same_prod = match (a.production, b.production) {
        (None, None) => true,
        (Some(x), Some(y)) => x == y,
        _ => false,
    };
    same_prod && a.dot_position == b.dot_position
}

pub fn contains_item(s: &Vec<Lr0Item>, it: &Lr0Item) -> (r: bool)
    ensures
        r == s@.contains(*it),
{
    let mut i: usize = 0;
    while i < s.len()
        invariant
            0 <= i <= s@.len(),
            forall|j: int| 0 <= j < i ==> s@[j] != *it,
        decreases s@.len() - i,
    {
        if same_item(&s[i], it) {
            return true;
        }
        i += 1;
    }
    false
}

} // verus!

verus! {

/// A sequence of distinct indices below `n` holds at most `n` of them.
pub proof fn lemma_distinct_bounded(s: Seq<usize>, n: nat)
    requires
        s.no_duplicates(),
        forall|i: int| 0 <= i < s.len() ==> (#[trigger] s[i]) < n,
    ensures
        s.len() <= n,
    decreases n,
{
    if n == 0 {
        if s.len() > 0 {
            assert(s[0] < 0);
        }
    } else if exists|i: int| 0 <= i < s.len() && s[i] == n - 1 {
        let i = choose|i: int| 0 <= i < s.len() && s[i] == n - 1;
        let t = s.remove(i);
        assert forall|a: int, b: int| 0 <= a < b < t.len() implies t[a] != t[b] by {
            let a2 = if a < i { a } else { a + 1 };
            let b2 = if b < i { b } else { b + 1 };
            assert(t[a] == s[a2] && t[b] == s[b2]);
        }
        assert forall|a: int| 0 <= a < t.len() implies (#[trigger] t[a]) < n - 1 by {
            let a2 = if a < i { a } else { a + 1 };
            assert(t[a] == s[a2]);
        }
        lemma_distinct_bounded(t, (n - 1) as nat);
    } else {
        lemma_distinct_bounded(s, (n - 1) as nat);
    }
}

proof fn lemma_reach_step(g: Grammar, seed: Seq<Lr0Item>, k: nat, p: int)
    requires
        0 <= p < g.prod_count(),
        g.reach_n(seed, k).contains(g.driver(p)),
        g.body(p).len() > 0,
    ensures
        g.reach_n(seed, k + 1).contains(g.body(p)[0]),
{
    let r = g.reach_n(seed, k);
    assert(g.leads_to(r, g.body(p)[0]));
    assert(g.reach_n(seed, k + 1) == r.union(Set::new(|c: char| g.leads_to(r, c))));
}

/// Every production whose driver `seed` or an included production's first
/// symbol names is included.
pub open spec fn closed_under(g: Grammar, seed: Seq<Lr0Item>, inc: Seq<bool>) -> bool {
    &&& forall|i: int, q: int|
        0 <= i < seed.len() && 0 <= q < g.prod_count() && g.next_sym(#[trigger] seed[i]) == Some(
            #[trigger] g.driver(q),
        ) ==> inc[q]
    &&& forall|p: int, q: int|
        0 <= p < g.prod_count() && 0 <= q < g.prod_count() && #[trigger] inc[p] && g.body(p).len() > 0
            && g.body(p)[0] == #[trigger] g.driver(q) ==> inc[q]
}

proof fn lemma_closed_complete(g: Grammar, seed: Seq<Lr0Item>, inc: Seq<bool>, k: nat)
    requires
        closed_under(g, seed, inc),
    ensures
        forall|q: int|
            0 <= q < g.prod_count() && g.reach_n(seed, k).contains(#[trigger] g.driver(q)) ==> inc[q],
    decreases k,
{
    if k == 0 {
        assert forall|q: int|
            0 <= q < g.prod_count() && g.reach_n(seed, k).contains(#[trigger] g.driver(q)) implies inc[q] by {
            assert(g.seed_next(seed, g.driver(q)));
            let i = choose|i: int| 0 <= i < seed.len() && g.next_sym(#[trigger] seed[i]) == Some(g.driver(q));
        }
    } else {
        lemma_closed_complete(g, seed, inc, (k - 1) as nat);
        let r = g.reach_n(seed, (k - 1) as nat);
        assert forall|q: int|
            0 <= q < g.prod_count() && g.reach_n(seed, k).contains(#[trigger] g.driver(q)) implies inc[q] by {
            if !r.contains(g.driver(q)) {
                assert(g.leads_to(r, g.driver(q)));
                let p = choose|p: int|
                    0 <= p < g.prod_count() && r.contains(#[trigger] g.driver(p)) && g.body(p).len() > 0
                        && g.body(p)[0] == g.driver(q);
                assert(inc[p]);
            }
        }
    }
}

/// The state of the closure worklist: `order` lists the included productions.
pub open spec fn worklist_ok(g: Grammar, seed: Seq<Lr0Item>, inc: Seq<bool>, order: Seq<usize>) -> bool {
    &&& inc.len() == g.prod_count()
    &&& order.no_duplicates()
    &&& forall|i: int| 0 <= i < order.len() ==> (#[trigger] order[i]) < g.prod_count() && inc[order[i] as int]
    &&& forall|q: int| 0 <= q < g.prod_count() && #[trigger] inc[q] ==> order.contains(q as usize)
    &&& forall|q: int| 0 <= q < g.prod_count() && #[trigger] inc[q] ==> g.reachable(seed, g.driver(q))
}

impl Grammar {
    /// Includes every production that `x` drives.
    fn mark_driver(&self, x: char, inc: &mut Vec<bool>, order: &mut Vec<usize>, Ghost(seed): Ghost<Seq<Lr0Item>>)
        requires
            self.wf(),
            self.reachable(seed, x),
            worklist_ok(*self, seed, old(inc)@, old(order)@),
        ensures
            worklist_ok(*self, seed, final(inc)@, final(order)@),
            forall|q: int| 0 <= q < self.prod_count() && self.driver(q) == x ==> final(inc)@[q],
            forall|q: int| 0 <= q < self.prod_count() && old(inc)@[q] ==> final(inc)@[q],
            final(order)@.len() >= old(order)@.len(),
            final(order)@.subrange(0, old(order)@.len() as int) == old(order)@,
    {
        let n = self.productions.len();
        let mut q: usize = 0;
        while q < n
            invariant
                n == self.prod_count(),
                0 <= q <= n,
                self.reachable(seed, x),
                worklist_ok(*self, seed, inc@, order@),
                forall|q2: int| 0 <= q2 < q && self.driver(q2) == x ==> inc@[q2],
                forall|q2: int| 0 <= q2 < self.prod_count() && old(inc)@[q2] ==> inc@[q2],
                order@.len() >= old(order)@.len(),
                order@.subrange(0, old(order)@.len() as int) == old(order)@,
            decreases n - q,
        {
            if self.productions[q].driver == x && !inc[q] {
                let ghost o = order@;
                inc.set(q, true);
                order.push(q);
                proof {
                    assert forall|a: int, b: int| 0 <= a < b < order@.len() implies order@[a] != order@[b] by {
                        if b == o.len() {
                            assert(!o.contains(q));
                            assert(order@[a] == o[a]);
                        }
                    }
                    assert forall|q2: int| 0 <= q2 < self.prod_count() && #[trigger] inc@[q2] implies order@.contains(q2 as usize) by {
                        if q2 == q {
                            assert(order@[o.len() as int] == q);
                        } else {
                            let i = choose|i: int| 0 <= i < o.len() && o[i] == q2 as usize;
                            assert(order@[i] == q2);
                        }
                    }
                    assert(order@.subrange(0, old(order)@.len() as int) =~= o.subrange(0, old(order)@.len() as int));
                }
            }
            q += 1;
        }
    }

    /// The closure increment of `lr0_items`: the items `(p, 0)` that closing
    /// them adds, ordered by the first declaration of their driver.
    pub fn lr0_closure(&self, lr0_items: Vec<Lr0Item>) -> (r: Vec<Lr0Item>)
        requires
            self.wf(),
            self.valid_items(lr0_items@),
        ensures
            self.is_closure_of(lr0_items@, r@),
            self.valid_items(r@),
    {
        let ghost seed = lr0_items@;
        let n = self.productions.len();
        let mut inc: Vec<bool> = Vec::new();
        let mut k: usize = 0;
        while k < n
            invariant
                0 <= k <= n,
                inc@.len() == k,
                forall|q: int| 0 <= q < k ==> !inc@[q],
            decreases n - k,
        {
            inc.push(false);
            k += 1;
        }
        let mut order: Vec<usize> = Vec::new();
        let mut i: usize = 0;
        while i < lr0_items.len()
            invariant
                n == self.prod_count(),
                self.wf(),
                seed == lr0_items@,
                self.valid_items(seed),
                0 <= i <= seed.len(),
                worklist_ok(*self, seed, inc@, order@),
                forall|i2: int, q: int|
                    0 <= i2 < i && 0 <= q < n && self.next_sym(#[trigger] seed[i2]) == Some(#[trigger] self.driver(q)) ==> inc@[q],
            decreases seed.len() - i,
        {
            let ghost inc0 = inc@;
            match lr0_items[i].next_symbol(self) {
                Some(x) => {
                    proof {
                        assert(self.seed_next(seed, x));
                        assert(self.reach_n(seed, 0).contains(x));
                    }
                    self.mark_driver(x, &mut inc, &mut order, Ghost(seed));
                },
                None => {},
            }
            proof {
                assert forall|i2: int, q: int|
                    0 <= i2 < i + 1 && 0 <= q < n && self.next_sym(#[trigger] seed[i2]) == Some(#[trigger] self.driver(q)) implies inc@[q] by {
                    if i2 < i {
                        assert(inc0[q]);
                    }
                }
            }
            i += 1;
        }
        let mut j: usize = 0;
        while j < order.len()
            invariant
                n == self.prod_count(),
                self.wf(),
                seed == lr0_items@,
                0 <= j <= order@.len(),
                worklist_ok(*self, seed, inc@, order@),
                forall|i2: int, q: int|
                    0 <= i2 < seed.len() && 0 <= q < n && self.next_sym(#[trigger] seed[i2]) == Some(#[trigger] self.driver(q)) ==> inc@[q],
                forall|j2: int, q: int|
                    0 <= j2 < j && 0 <= q < n && self.body(#[trigger] order@[j2] as int).len() > 0 && self.body(order@[j2] as int)[0] == #[trigger] self.driver(q) ==> inc@[q],
            decreases n - j,
        {
            proof {
                lemma_distinct_bounded(order@, n as nat);
            }
            let ghost inc0 = inc@;
            let ghost order0 = order@;
            let p = order[j];
            if self.productions[p].body.len() > 0 {
                let x = self.productions[p].body[0];
                proof {
                    assert(self.reachable(seed, self.driver(p as int)));
                    let lvl = choose|lvl: nat| #[trigger] self.reach_n(seed, lvl).contains(self.driver(p as int));
                    lemma_reach_step(*self, seed, lvl, p as int);
                    assert(self.reach_n(seed, lvl + 1).contains(x));
                }
                self.mark_driver(x, &mut inc, &mut order, Ghost(seed));
            }
            proof {
                assert forall|j2: int, q: int|
                    0 <= j2 < j + 1 && 0 <= q < n && self.body(#[trigger] order@[j2] as int).len() > 0 && self.body(order@[j2] as int)[0] == #[trigger] self.driver(q) implies inc@[q] by {
                    assert(order@[j2] == order0[j2]);
                    if j2 < j {
                        assert(inc0[q]);
                    }
                }
            }
            j += 1;
        }
        proof {
            assert forall|p: int, q: int|
                0 <= p < self.prod_count() && 0 <= q < self.prod_count() && #[trigger] inc@[p] && self.body(p).len() > 0
                    && self.body(p)[0] == #[trigger] self.driver(q) implies inc@[q] by {
                let j2 = choose|j2: int| 0 <= j2 < order@.len() && order@[j2] == p as usize;
                assert(self.body(order@[j2] as int) == self.body(p));
            }
            assert(closed_under(*self, seed, inc@));
            assert forall|q: int| 0 <= q < self.prod_count() && self.reachable(seed, #[trigger] self.driver(q)) implies inc@[q] by {
                let lvl = choose|lvl: nat| #[trigger] self.reach_n(seed, lvl).contains(self.driver(q));
                lemma_closed_complete(*self, seed, inc@, lvl);
            }
        }
        self.emit_closure(&lr0_items, &inc, Ghost(seed))
    }

    /// Lists the included productions that `seed` lacks, in closure order.
    fn emit_closure(&self, lr0_items: &Vec<Lr0Item>, inc: &Vec<bool>, Ghost(seed): Ghost<Seq<Lr0Item>>) -> (r: Vec<Lr0Item>)
        requires
            self.wf(),
            seed == lr0_items@,
            inc@.len() == self.prod_count(),
            forall|q: int| 0 <= q < self.prod_count() ==> (#[trigger] inc@[q] <==> self.reachable(seed, self.driver(q))),
        ensures
            self.is_closure_of(seed, r@),
            self.valid_items(r@),
    {
        let n = self.productions.len();
        let mut r: Vec<Lr0Item> = Vec::new();
        let mut p0: usize = 0;
        assert forall|q: int| 0 <= q < n implies self.first_pos(#[trigger] self.driver(q)) >= 0 by {
            lemma_first_pos_from(*self, self.driver(q), 0);
        }
        while p0 < n
            invariant
                n == self.prod_count(),
                self.wf(),
                seed == lr0_items@,
                inc@.len() == n,
                forall|q: int| 0 <= q < n ==> (#[trigger] inc@[q] <==> self.reachable(seed, self.driver(q))),
                0 <= p0 <= n,
                forall|i: int| 0 <= i < r@.len() ==> (#[trigger] r@[i]).dot_position == 0 && r@[i].production.is_some()
                    && r@[i].production.unwrap() < n && inc@[r@[i].production.unwrap() as int] && !seed.contains(r@[i])
                    && self.first_pos(self.driver(r@[i].production.unwrap() as int)) < p0,
                forall|q: int|
                    0 <= q < n && inc@[q] && self.first_pos(#[trigger] self.driver(q)) < p0 && !seed.contains(
                        Lr0Item { production: Some(q as usize), dot_position: 0 },
                    ) ==> r@.contains(Lr0Item { production: Some(q as usize), dot_position: 0 }),
                forall|i: int, j: int|
                    0 <= i < j < r@.len() ==> self.closure_before(
                        (#[trigger] r@[i]).production.unwrap() as int,
                        (#[trigger] r@[j]).production.unwrap() as int,
                    ),
            decreases n - p0,
        {
            let d = self.productions[p0].driver;
            if self.first_of_driver(p0) {
                proof {
                    lemma_first_pos(*self, p0 as int);
                }
                let mut q: usize = p0;
                while q < n
                    invariant
                        n == self.prod_count(),
                        self.wf(),
                        seed == lr0_items@,
                        inc@.len() == n,
                        forall|q: int| 0 <= q < n ==> (#[trigger] inc@[q] <==> self.reachable(seed, self.driver(q))),
                        0 <= p0 <= q <= n,
                        d == self.driver(p0 as int),
                        self.first_pos(d) == p0,
                        forall|i: int| 0 <= i < r@.len() ==> (#[trigger] r@[i]).dot_position == 0 && r@[i].production.is_some()
                            && r@[i].production.unwrap() < n && inc@[r@[i].production.unwrap() as int] && !seed.contains(r@[i])
                            && (self.first_pos(self.driver(r@[i].production.unwrap() as int)) < p0 || (
                                self.driver(r@[i].production.unwrap() as int) == d && r@[i].production.unwrap() < q)),
                        forall|q2: int|
                            0 <= q2 < n && inc@[q2] && (self.first_pos(#[trigger] self.driver(q2)) < p0 || (self.driver(q2) == d
                                && q2 < q)) && !seed.contains(Lr0Item { production: Some(q2 as usize), dot_position: 0 }) ==> r@.contains(
                                Lr0Item { production: Some(q2 as usize), dot_position: 0 },
                            ),
                        forall|i: int, j: int|
                            0 <= i < j < r@.len() ==> self.closure_before(
                                (#[trigger] r@[i]).production.unwrap() as int,
                                (#[trigger] r@[j]).production.unwrap() as int,
                            ),
                    decreases n - q,
                {
                    let it = Lr0Item { production: Some(q), dot_position: 0 };
                    if self.productions[q].driver == d && inc[q] && !contains_item(lr0_items, &it) {
                        let ghost r0 = r@;
                        r.push(it);
                        proof {
                            assert forall|i: int, j: int|
                                0 <= i < j < r@.len() implies self.closure_before(
                                    (#[trigger] r@[i]).production.unwrap() as int,
                                    (#[trigger] r@[j]).production.unwrap() as int,
                                ) by {
                                if j == r0.len() {
                                    assert(r@[i] == r0[i]);
                                } else {
                                    assert(r@[i] == r0[i] && r@[j] == r0[j]);
                                }
                            }
                            assert(r@[r0.len() as int] == it);
                            assert forall|q2: int|
                                0 <= q2 < n && inc@[q2] && (self.first_pos(#[trigger] self.driver(q2)) < p0 || (self.driver(q2) == d
                                    && q2 < q + 1)) && !seed.contains(Lr0Item { production: Some(q2 as usize), dot_position: 0 }) implies r@.contains(
                                    Lr0Item { production: Some(q2 as usize), dot_position: 0 },
                                ) by {
                                if q2 != q {
                                    let i = choose|i: int| 0 <= i < r0.len() && r0[i] == Lr0Item { production: Some(q2 as usize), dot_position: 0 };
                                    assert(r@[i] == r0[i]);
                                }
                            }
                        }
                    }
                    q += 1;
                }
            } else {
                proof {
                    lemma_first_pos(*self, p0 as int);
                    lemma_first_pos_from(*self, d, 0);
                }
            }
            proof {
                lemma_first_pos(*self, p0 as int);
                assert forall|q2: int|
                    0 <= q2 < n && inc@[q2] && self.first_pos(#[trigger] self.driver(q2)) < p0 + 1 && !seed.contains(
                        Lr0Item { production: Some(q2 as usize), dot_position: 0 },
                    ) implies r@.contains(Lr0Item { production: Some(q2 as usize), dot_position: 0 }) by {
                    lemma_first_pos(*self, q2);
                    if self.first_pos(self.driver(q2)) == p0 {
                        assert(self.driver(q2) == d);
                    }
                }
            }
            p0 += 1;
        }
        proof {
            assert forall|i: int| 0 <= i < r@.len() implies self.valid_item(#[trigger] r@[i]) by {}
            assert forall|q: int| 0 <= q < n implies self.first_pos(#[trigger] self.driver(q)) < p0 by {
                lemma_first_pos(*self, q);
            }
        }
        r
    }

    /// No earlier production has the driver of production `p`.
    fn first_of_driver(&self, p: usize) -> (r: bool)
        requires
            self.wf(),
            p < self.prod_count(),
        ensures
            r == (self.first_pos(self.driver(p as int)) == p),
    {
        proof {
            lemma_first_pos(*self, p as int);
        }
        let d = self.productions[p].driver;
        let mut q: usize = 0;
        while q < p
            invariant
                0 <= q <= p < self.prod_count(),
                d == self.driver(p as int),
                forall|q2: int| 0 <= q2 < q ==> self.driver(q2) != d,
            decreases p - q,
        {
            if self.productions[q].driver == d {
                proof {
                    lemma_first_pos(*self, q as int);
                    lemma_first_pos_from(*self, d, 0);
                }
                return false;
            }
            q += 1;
        }
        proof {
            lemma_first_pos_from(*self, d, 0);
        }
        true
    }
}

} // verus!
