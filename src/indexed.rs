//! A grammar whose symbols are indices: terminal `i` is `terminals[i]`,
//! non-terminal `a` is `non_terminals[a]`. The set and table constructions work
//! on this form.
use vstd::prelude::*;
use crate::grammar::{
    CFG, CfgV, ElementV, Element, NonTerminal, Terminal, non_terminals_view, terminals_view,
};

verus! {

/// A symbol by index. `T(n)` with `n` the number of terminals stands for end of input.
#[derive(Debug, Clone, Copy, PartialEq, Eq, Structural)]
pub enum Sym {
    T(usize),
    N(usize),
    Eps,
}

/// The model of an indexed grammar: `rules[a][p]` is the right-hand side of
/// production `p` of non-terminal `a`.
pub struct GrammarV {
    pub n_t: nat,
    pub rules: Seq<Seq<Seq<Sym>>>,
    pub start: nat,
}

impl GrammarV {
    pub open spec fn n_nt(self) -> nat {
        self.rules.len()
    }

    /// The column of end of input in the set matrices.
    pub open spec fn eof(self) -> nat {
        self.n_t
    }

    /// The column of the empty string in the set matrices.
    pub open spec fn eps(self) -> nat {
        self.n_t + 1
    }

    /// Width of a row of the set matrices.
    pub open spec fn width(self) -> nat {
        self.n_t + 2
    }

    pub open spec fn sym_ok(self, s: Sym) -> bool {
        match s {
            Sym::T(i) => i < self.n_t,
            Sym::N(a) => a < self.n_nt(),
            Sym::Eps => true,
        }
    }

    pub open spec fn wf(self) -> bool {
        &&& self.start < self.n_nt()
        &&& self.n_t + 2 <= usize::MAX
        &&& self.n_nt() + 2 <= usize::MAX
        &&& forall|a: int| 0 <= a < self.n_nt() ==> #[trigger] self.rules[a].len() > 0
        &&& forall|a: int, p: int, k: int|
            0 <= a < self.n_nt() && 0 <= p < self.rules[a].len() && 0 <= k
                < self.rules[a][p].len() ==> self.sym_ok(#[trigger] self.rules[a][p][k])
    }
}

pub open spec fn rules_view(v: Seq<Vec<Vec<Sym>>>) -> Seq<Seq<Seq<Sym>>> {
    v.map_values(|b: Vec<Vec<Sym>>| b@.map_values(|r: Vec<Sym>| r@))
}

/// An indexed grammar.
pub struct Grammar {
    pub n_terminals: usize,
    pub rules: Vec<Vec<Vec<Sym>>>,
    pub start: usize,
}

impl View for Grammar {
    type V = GrammarV;

    open spec fn view(&self) -> GrammarV {
        GrammarV {
            n_t: self.n_terminals as nat,
            rules: rules_view(self.rules@),
            start: self.start as nat,
        }
    }
}

/// `i` is the first position of `x` in `s`.
pub open spec fn first_index(s: Seq<Seq<char>>, x: Seq<char>, i: int) -> bool {
    &&& 0 <= i < s.len()
    &&& s[i] == x
    &&& forall|j: int| 0 <= j < i ==> s[j] != x
}

pub proof fn lemma_first_index_unique(s: Seq<Seq<char>>, x: Seq<char>, i: int, j: int)
    requires
        first_index(s, x, i),
        first_index(s, x, j),
    ensures
        i == j,
{
    if i < j {
        assert(s[i] == x);
    } else if j < i {
        assert(s[j] == x);
    }
}

/// `s` is the indexed form of element `e` of grammar `cfg`.
pub open spec fn resolves(cfg: CfgV, e: ElementV, s: Sym) -> bool {
    match e {
        ElementV::T(n) => s is T && first_index(cfg.ts, n, s->T_0 as int),
        ElementV::NT(n) => s is N && first_index(cfg.nts, n, s->N_0 as int),
        ElementV::Empty => s == Sym::Eps,
    }
}

pub open spec fn element_known(cfg: CfgV, e: ElementV) -> bool {
    match e {
        ElementV::T(n) => cfg.ts.contains(n),
        ElementV::NT(n) => cfg.nts.contains(n),
        ElementV::Empty => true,
    }
}

/// The grammar can be put in indexed form: one non-empty block per non-terminal,
/// in order, each production stored under its own left-hand side, and every
/// symbol listed.
pub open spec fn compilable(cfg: CfgV) -> bool {
    &&& cfg.blocks.len() == cfg.nts.len()
    &&& cfg.nts.contains(cfg.start)
    &&& cfg.ts.len() + 2 <= usize::MAX
    &&& cfg.nts.len() + 3 <= usize::MAX
    &&& cfg.ts.len() + cfg.nts.len() + 3 <= usize::MAX
    &&& forall|a: int|
        0 <= a < cfg.blocks.len() ==> {
            &&& (#[trigger] cfg.blocks[a]).left == cfg.nts[a]
            &&& cfg.blocks[a].prods.len() > 0
        }
    &&& forall|a: int, p: int|
        0 <= a < cfg.blocks.len() && 0 <= p < cfg.blocks[a].prods.len() ==> (
        #[trigger] cfg.blocks[a].prods[p]).left == cfg.nts[a]
    &&& forall|a: int, p: int, k: int|
        0 <= a < cfg.blocks.len() && 0 <= p < cfg.blocks[a].prods.len() && 0 <= k
            < cfg.blocks[a].prods[p].right.len() ==> element_known(
            cfg,
            #[trigger] cfg.blocks[a].prods[p].right[k],
        )
}

/// `g` is the indexed form of `cfg`.
pub open spec fn compiled(cfg: CfgV, g: GrammarV) -> bool {
    &&& g.n_t == cfg.ts.len()
    &&& g.rules.len() == cfg.nts.len()
    &&& first_index(cfg.nts, cfg.start, g.start as int)
    &&& forall|a: int|
        0 <= a < g.rules.len() ==> (#[trigger] g.rules[a]).len() == cfg.blocks[a].prods.len()
    &&& forall|a: int, p: int|
        0 <= a < g.rules.len() && 0 <= p < g.rules[a].len() ==> (#[trigger] g.rules[a][p]).len()
            == cfg.blocks[a].prods[p].right.len()
    &&& forall|a: int, p: int, k: int|
        0 <= a < g.rules.len() && 0 <= p < g.rules[a].len() && 0 <= k < g.rules[a][p].len()
            ==> resolves(cfg, cfg.blocks[a].prods[p].right[k], #[trigger] g.rules[a][p][k])
}

/// A grammar has one indexed form.
pub proof fn lemma_compiled_unique(cfg: CfgV, g1: GrammarV, g2: GrammarV)
    requires
        compiled(cfg, g1),
        compiled(cfg, g2),
    ensures
        g1 == g2,
{
    lemma_first_index_unique(cfg.nts, cfg.start, g1.start as int, g2.start as int);
    assert forall|a: int| 0 <= a < g1.rules.len() implies #[trigger] g1.rules[a] == g2.rules[a] by {
        assert forall|p: int| 0 <= p < g1.rules[a].len() implies #[trigger] g1.rules[a][p] == g2.rules[a][p] by {
            assert forall|k: int| 0 <= k < g1.rules[a][p].len() implies #[trigger] g1.rules[a][p][k] == g2.rules[a][p][k] by {
                let e = cfg.blocks[a].prods[p].right[k];
                let s1 = g1.rules[a][p][k];
                let s2 = g2.rules[a][p][k];
                assert(resolves(cfg, e, s1));
                assert(resolves(cfg, e, s2));
                match e {
                    ElementV::T(n) => {
                        lemma_first_index_unique(cfg.ts, n, s1->T_0 as int, s2->T_0 as int);
                    },
                    ElementV::NT(n) => {
                        lemma_first_index_unique(cfg.nts, n, s1->N_0 as int, s2->N_0 as int);
                    },
                    ElementV::Empty => {},
                }
            }
            assert(g1.rules[a][p] =~= g2.rules[a][p]);
        }
        assert(g1.rules[a] =~= g2.rules[a]);
    }
    assert(g1.rules =~= g2.rules);
}

/// Position of the first terminal named like `x`.
pub fn find_terminal(v: &Vec<Terminal>, x: &Terminal) -> (r: Option<usize>)
    ensures
        r is Some ==> first_index(terminals_view(v@), x@, r->0 as int),
        r is None ==> !terminals_view(v@).contains(x@),
{
    let mut i: usize = 0;
    while i < v.len()
        invariant
            i <= v@.len(),
            forall|j: int| 0 <= j < i ==> v@[j]@ != x@,
        decreases v@.len() - i,
    {
        if v[i].same(x) {
            return Some(i);
        }
        i = i + 1;
    }
    None
}

/// Position of the first non-terminal named like `x`.
pub fn find_non_terminal(v: &Vec<NonTerminal>, x: &NonTerminal) -> (r: Option<usize>)
    ensures
        r is Some ==> first_index(non_terminals_view(v@), x@, r->0 as int),
        r is None ==> !non_terminals_view(v@).contains(x@),
{
    let mut i: usize = 0;
    while i < v.len()
        invariant
            i <= v@.len(),
            forall|j: int| 0 <= j < i ==> v@[j]@ != x@,
        decreases v@.len() - i,
    {
        if v[i].same(x) {
            return Some(i);
        }
        i = i + 1;
    }
    None
}

/// The indexed form of one element.
fn compile_element(cfg: &CFG, e: &Element) -> (r: Option<Sym>)
    ensures
        r is Some <==> element_known(cfg@, e@),
        r is Some ==> resolves(cfg@, e@, r->0),
{
    match e {
        Element::T(t) => match find_terminal(&cfg.terminals, t) {
            Some(i) => Some(Sym::T(i)),
            None => None,
        },
        Element::NT(n) => match find_non_terminal(&cfg.non_terminals, n) {
            Some(i) => Some(Sym::N(i)),
            None => None,
        },
        Element::Empty => Some(Sym::Eps),
    }
}

/// The indexed form of `cfg`, or `None` where it cannot be formed.
pub fn compile(cfg: &CFG) -> (r: Option<Grammar>)
    ensures
        r is Some <==> compilable(cfg@),
        r is Some ==> compiled(cfg@, r->0@) && r->0@.wf() && r->0@.n_nt() + 3 <= usize::MAX
            && r->0@.n_t + r->0@.n_nt() + 3 <= usize::MAX,
{
    let ghost c = cfg@;
    if cfg.productions.len() != cfg.non_terminals.len() || cfg.terminals.len() > usize::MAX - 2
        || cfg.non_terminals.len() > usize::MAX - 3 || cfg.terminals.len() > usize::MAX - 3
        - cfg.non_terminals.len() {
        return None;
    }
    let start = match find_non_terminal(&cfg.non_terminals, &cfg.start) {
        Some(i) => i,
        None => {
            return None;
        },
    };
    let mut rules: Vec<Vec<Vec<Sym>>> = Vec::new();
    let mut a: usize = 0;
    while a < cfg.productions.len()
        invariant
            c == cfg@,
            c.blocks.len() == c.nts.len(),
            c.ts.len() + 2 <= usize::MAX,
            c.nts.len() + 3 <= usize::MAX,
            c.ts.len() + c.nts.len() + 3 <= usize::MAX,
            a <= c.blocks.len(),
            rules@.len() == a,
            forall|a2: int|
                0 <= a2 < a ==> {
                    &&& (#[trigger] c.blocks[a2]).left == c.nts[a2]
                    &&& c.blocks[a2].prods.len() > 0
                },
            forall|a2: int, p: int|
                0 <= a2 < a && 0 <= p < c.blocks[a2].prods.len() ==> (
                #[trigger] c.blocks[a2].prods[p]).left == c.nts[a2],
            forall|a2: int, p: int, k: int|
                0 <= a2 < a && 0 <= p < c.blocks[a2].prods.len() && 0 <= k
                    < c.blocks[a2].prods[p].right.len() ==> element_known(
                    c,
                    #[trigger] c.blocks[a2].prods[p].right[k],
                ),
            forall|a2: int| 0 <= a2 < a ==> (#[trigger] rules_view(rules@)[a2]).len() == c.blocks[a2].prods.len(),
            forall|a2: int, p: int|
                0 <= a2 < a && 0 <= p < c.blocks[a2].prods.len() ==> (
                #[trigger] rules_view(rules@)[a2][p]).len() == c.blocks[a2].prods[p].right.len(),
            forall|a2: int, p: int, k: int|
                0 <= a2 < a && 0 <= p < c.blocks[a2].prods.len() && 0 <= k
                    < c.blocks[a2].prods[p].right.len() ==> resolves(
                    c,
                    c.blocks[a2].prods[p].right[k],
                    #[trigger] rules_view(rules@)[a2][p][k],
                ),
        decreases c.blocks.len() - a,
    {
        let block = &cfg.productions[a];
        if !block.left.same(&cfg.non_terminals[a]) || block.productions.len() == 0 {
            proof {
                assert(!compilable(c)) by {
                    let b = c.blocks[a as int];
                    assert(b.left != c.nts[a as int] || b.prods.len() == 0);
                }
            }
            return None;
        }
        let mut prods: Vec<Vec<Sym>> = Vec::new();
        let mut p: usize = 0;
        while p < block.productions.len()
            invariant
                c == cfg@,
                block@ == c.blocks[a as int],
                0 <= a < c.blocks.len(),
                c.blocks.len() == c.nts.len(),
                p <= block@.prods.len(),
                prods@.len() == p,
                forall|p2: int| 0 <= p2 < p ==> (#[trigger] block@.prods[p2]).left == c.nts[a as int],
                forall|p2: int, k: int|
                    0 <= p2 < p && 0 <= k < block@.prods[p2].right.len() ==> element_known(
                        c,
                        #[trigger] block@.prods[p2].right[k],
                    ),
                forall|p2: int| 0 <= p2 < p ==> (#[trigger] prods@[p2])@.len() == block@.prods[p2].right.len(),
                forall|p2: int, k: int|
                    0 <= p2 < p && 0 <= k < block@.prods[p2].right.len() ==> resolves(
                        c,
                        block@.prods[p2].right[k],
                        #[trigger] prods@[p2]@[k],
                    ),
            decreases block@.prods.len() - p,
        {
            let prod = &block.productions[p];
            if !prod.left.same(&cfg.non_terminals[a]) {
                proof {
                    assert(!compilable(c)) by {
                        assert(c.blocks[a as int].prods[p as int].left != c.nts[a as int]);
                    }
                }
                return None;
            }
            let mut rhs: Vec<Sym> = Vec::new();
            let mut k: usize = 0;
            while k < prod.right.len()
                invariant
                    c == cfg@,
                    0 <= a < c.blocks.len(),
                    p < block@.prods.len(),
                    block@ == c.blocks[a as int],
                    prod@ == block@.prods[p as int],
                    k <= prod@.right.len(),
                    rhs@.len() == k,
                    forall|k2: int| 0 <= k2 < k ==> element_known(c, #[trigger] prod@.right[k2]),
                    forall|k2: int| 0 <= k2 < k ==> resolves(c, prod@.right[k2], #[trigger] rhs@[k2]),
                decreases prod@.right.len() - k,
            {
                match compile_element(cfg, &prod.right[k]) {
                    Some(s) => rhs.push(s),
                    None => {
                        proof {
                            assert(!compilable(c)) by {
                                assert(!element_known(c, c.blocks[a as int].prods[p as int].right[k as int]));
                            }
                        }
                        return None;
                    },
                }
                k = k + 1;
            }
            prods.push(rhs);
            p = p + 1;
        }
        let ghost old_rules = rules@;
        rules.push(prods);
        proof {
            assert(rules_view(rules@) =~= rules_view(old_rules).push(prods@.map_values(|r: Vec<Sym>| r@)));
        }
        a = a + 1;
    }
    let g = Grammar { n_terminals: cfg.terminals.len(), rules, start };
    proof {
        assert(c.nts.contains(c.start)) by {
            assert(c.nts[start as int] == c.start);
        }
        assert forall|a2: int, p: int, k: int|
            0 <= a2 < g@.n_nt() && 0 <= p < g@.rules[a2].len() && 0 <= k
                < g@.rules[a2][p].len() implies g@.sym_ok(#[trigger] g@.rules[a2][p][k]) by {
            assert(resolves(c, c.blocks[a2].prods[p].right[k], g@.rules[a2][p][k]));
        }
    }
    Some(g)
}

} // verus!
