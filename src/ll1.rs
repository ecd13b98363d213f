//! The LL(1) predictive table and its stack-driven recognizer.
use vstd::prelude::*;
use crate::grammar::{CFGWithoutLeftRecursion, CfgV, Terminal, terminals_view};
use crate::indexed::{Grammar, GrammarV, Sym, compile, compilable, compiled, lemma_compiled_unique};
use crate::lr1::{cell, cur_col, token_cols, token_columns, STEP_LIMIT};
use crate::sets::{
    first, follow, predict, is_first, is_follow, matrix_view, predict_has, lemma_first_unique,
    lemma_follow_unique,
};

verus! {

/// What can go wrong in table construction or recognition.
#[derive(Debug, Clone, Copy, PartialEq, Eq)]
pub enum Error {
    /// The grammar cannot be put in indexed form.
    GrammarMalformed,
    /// Productions `first` and `second` of `non_terminal` are both predicted by `terminal`.
    PredictConflict { non_terminal: usize, terminal: usize, first: usize, second: usize },
    /// The input is not in the language; `position` is the token reached.
    ParseReject { position: usize },
    /// The table is inconsistent with the grammar.
    Internal,
    /// The recognizer ran out of steps.
    StepLimit,
}

/// No terminal predicts two productions of the same non-terminal.
pub open spec fn ll1_free(g: GrammarV, f: Seq<Seq<bool>>, fo: Seq<Seq<bool>>) -> bool {
    forall|a: int, i: int, j: int, c: int|
        0 <= a < g.n_nt() && 0 <= i < g.rules[a].len() && 0 <= j < g.rules[a].len() && i != j && 0 <= c < g.width()
            && #[trigger] predict_has(g, f, fo, a, i, c) && #[trigger] predict_has(g, f, fo, a, j, c) ==> false
}

/// `cells[a][c]` is the production of `a` that column `c` predicts, if any.
pub open spec fn cells_ok(g: GrammarV, f: Seq<Seq<bool>>, fo: Seq<Seq<bool>>, cells: Seq<Seq<Option<usize>>>) -> bool {
    &&& cells.len() == g.n_nt()
    &&& forall|a: int| 0 <= a < g.n_nt() ==> (#[trigger] cells[a]).len() == g.n_t + 1
    &&& forall|a: int, c: int|
        0 <= a < g.n_nt() && 0 <= c <= g.n_t && #[trigger] cells[a][c] is Some ==> cells[a][c]->0 < g.rules[a].len()
            && predict_has(g, f, fo, a, cells[a][c]->0 as int, c)
    &&& forall|a: int, i: int, c: int|
        0 <= a < g.n_nt() && 0 <= i < g.rules[a].len() && 0 <= c <= g.n_t && #[trigger] predict_has(g, f, fo, a, i, c)
            ==> cells[a][c] == Some(i as usize)
}

pub open spec fn cells_view(t: Seq<Vec<Option<usize>>>) -> Seq<Seq<Option<usize>>> {
    t.map_values(|r: Vec<Option<usize>>| r@)
}

/// The predictive table of a grammar, with the sets it was built from.
pub struct LL1Table {
    /// The terminals of the grammar, in column order.
    pub terminals: Vec<Terminal>,
    /// The indexed grammar.
    pub grammar: Grammar,
    pub first: Vec<Vec<bool>>,
    pub follow: Vec<Vec<bool>>,
    /// `cells[a][c]`: the production of non-terminal `a` to expand on column `c`.
    pub cells: Vec<Vec<Option<usize>>>,
}

impl LL1Table {
    /// The table is the conflict-free predictive table of `cfg`.
    pub open spec fn valid_for(&self, cfg: CfgV) -> bool {
        &&& terminals_view(self.terminals@) == cfg.ts
        &&& compiled(cfg, self.grammar@)
        &&& self.grammar@.wf()
        &&& is_first(self.grammar@, matrix_view(self.first@))
        &&& is_follow(self.grammar@, matrix_view(self.first@), matrix_view(self.follow@))
        &&& ll1_free(self.grammar@, matrix_view(self.first@), matrix_view(self.follow@))
        &&& cells_ok(self.grammar@, matrix_view(self.first@), matrix_view(self.follow@), cells_view(self.cells@))
    }
}

/// `e` names two productions of `cfg` that one terminal predicts.
pub open spec fn ll1_conflict(cfg: CfgV, e: Error) -> bool {
    match e {
        Error::PredictConflict { non_terminal, terminal, first, second } => exists|g: GrammarV, f: Seq<Seq<bool>>, fo: Seq<Seq<bool>>|
            compiled(cfg, g) && is_first(g, f) && is_follow(g, f, fo) && first < second < g.rules[non_terminal as int].len()
                && non_terminal < g.n_nt() && terminal <= g.n_t
                && predict_has(g, f, fo, non_terminal as int, first as int, terminal as int)
                && predict_has(g, f, fo, non_terminal as int, second as int, terminal as int),
        _ => false,
    }
}

/// Production `i` of `a` and an earlier production of `a` are both predicted by `c`.
pub open spec fn ll1_clash(g: GrammarV, f: Seq<Seq<bool>>, fo: Seq<Seq<bool>>, a: int, i: int, c: int) -> bool {
    exists|j: int| 0 <= j < i && #[trigger] predict_has(g, f, fo, a, j, c) && predict_has(g, f, fo, a, i, c)
}

/// `(a2, i2, c2)` comes before `(a, i, c)`: non-terminal, then production, then terminal.
pub open spec fn lex_before(a2: int, i2: int, c2: int, a: int, i: int, c: int) -> bool {
    a2 < a || (a2 == a && (i2 < i || (i2 == i && c2 < c)))
}

/// `e` is the first predict conflict of `cfg`, taking non-terminals in order,
/// then their productions, then terminals: no production meets an earlier one
/// of its non-terminal on a terminal before the one named.
pub open spec fn ll1_first_conflict(cfg: CfgV, e: Error) -> bool {
    match e {
        Error::PredictConflict { non_terminal, terminal, first, second } => exists|g: GrammarV, f: Seq<Seq<bool>>, fo: Seq<Seq<bool>>|
            compiled(cfg, g) && is_first(g, f) && is_follow(g, f, fo) && forall|a2: int, i2: int, c2: int|
                0 <= a2 < g.n_nt() && 0 <= i2 < g.rules[a2].len() && 0 <= c2 <= g.n_t && lex_before(
                    a2,
                    i2,
                    c2,
                    non_terminal as int,
                    second as int,
                    terminal as int,
                ) ==> !#[trigger] ll1_clash(g, f, fo, a2, i2, c2),
        _ => false,
    }
}

/// A grammar is LL(1) exactly when, for every non-terminal, the PREDICT sets
/// of its productions are pairwise disjoint: a predict conflict exists for
/// `cfg` if and only if two of them intersect.
pub proof fn lemma_ll1_iff_disjoint(cfg: CfgV, g: GrammarV, f: Seq<Seq<bool>>, fo: Seq<Seq<bool>>)
    requires
        compiled(cfg, g),
        g.wf(),
        forall|a: int| 0 <= a < g.n_nt() ==> #[trigger] g.rules[a].len() <= usize::MAX,
        is_first(g, f),
        is_follow(g, f, fo),
    ensures
        ll1_free(g, f, fo) <==> !exists|e: Error| #[trigger] ll1_conflict(cfg, e),
{
    if exists|e: Error| #[trigger] ll1_conflict(cfg, e) {
        let e = choose|e: Error| #[trigger] ll1_conflict(cfg, e);
        if let Error::PredictConflict { non_terminal, terminal, first, second } = e {
            let (g2, f2, fo2) = choose|g2: GrammarV, f2: Seq<Seq<bool>>, fo2: Seq<Seq<bool>>|
                compiled(cfg, g2) && is_first(g2, f2) && is_follow(g2, f2, fo2) && first < second < g2.rules[non_terminal as int].len()
                    && non_terminal < g2.n_nt() && terminal <= g2.n_t
                    && predict_has(g2, f2, fo2, non_terminal as int, first as int, terminal as int)
                    && predict_has(g2, f2, fo2, non_terminal as int, second as int, terminal as int);
            lemma_compiled_unique(cfg, g, g2);
            lemma_first_unique(g, f, f2);
            lemma_follow_unique(g, f, fo, fo2);
            assert(!ll1_free(g, f, fo));
        }
    }
    if !ll1_free(g, f, fo) {
        let (a, i, j, c) = choose|a: int, i: int, j: int, c: int|
            0 <= a < g.n_nt() && 0 <= i < g.rules[a].len() && 0 <= j < g.rules[a].len() && i != j && 0 <= c < g.width()
                && #[trigger] predict_has(g, f, fo, a, i, c) && #[trigger] predict_has(g, f, fo, a, j, c);
        let (x, y) = if i < j {
            (i, j)
        } else {
            (j, i)
        };
        assert(c != g.eps());
        assert(g.rules[a].len() <= usize::MAX);
        let e = Error::PredictConflict { non_terminal: a as usize, terminal: c as usize, first: x as usize, second: y as usize };
        assert(predict_has(g, f, fo, a, x, c) && predict_has(g, f, fo, a, y, c));
        assert((a as usize) as int == a && (c as usize) as int == c && (x as usize) as int == x && (y as usize) as int == y);
        assert(compiled(cfg, g) && is_first(g, f) && is_follow(g, f, fo) && (x as usize) < (y as usize) < g.rules[(a as usize) as int].len()
            && (a as usize) < g.n_nt() && (c as usize) <= g.n_t
            && predict_has(g, f, fo, (a as usize) as int, (x as usize) as int, (c as usize) as int)
            && predict_has(g, f, fo, (a as usize) as int, (y as usize) as int, (c as usize) as int));
        assert(ll1_conflict(cfg, e));
    }
}

/// Builds the LL(1) predictive table of `cfg`; fails where two productions of
/// one non-terminal have intersecting PREDICT sets.
pub fn contruct_talbe(cfg: &CFGWithoutLeftRecursion) -> (r: Result<LL1Table, Error>)
    ensures
        (r == Err::<LL1Table, Error>(Error::GrammarMalformed)) <==> !compilable(cfg@),
        r is Ok ==> r->Ok_0.valid_for(cfg@),
        r is Err ==> r->Err_0 == Error::GrammarMalformed || (ll1_conflict(cfg@, r->Err_0) && ll1_first_conflict(cfg@, r->Err_0)),
{
    let c = cfg.cfg();
    let g = match compile(c) {
        Some(g) => g,
        None => return Err(Error::GrammarMalformed),
    };
    let ghost gv = g@;
    let f = first(&g);
    let fo = follow(&g, &f);
    let pr = predict(&g, &f, &fo);
    let ghost fv = matrix_view(f@);
    let ghost fov = matrix_view(fo@);
    let n_t = g.n_terminals;
    let mut cells: Vec<Vec<Option<usize>>> = Vec::new();
    let mut a: usize = 0;
    while a < g.rules.len()
        invariant
            gv == g@,
            gv.wf(),
            n_t == gv.n_t,
            fv == matrix_view(f@),
            fov == matrix_view(fo@),
            compiled(cfg@, gv),
            compilable(cfg@),
            is_first(gv, fv),
            is_follow(gv, fv, fov),
            pr@.len() == gv.n_nt(),
            forall|a2: int| 0 <= a2 < gv.n_nt() ==> (#[trigger] pr@[a2])@.len() == gv.rules[a2].len(),
            forall|a2: int, p: int| 0 <= a2 < gv.n_nt() && 0 <= p < gv.rules[a2].len() ==> (#[trigger] pr@[a2]@[p])@.len() == gv.width(),
            forall|a2: int, p: int, c2: int|
                0 <= a2 < gv.n_nt() && 0 <= p < gv.rules[a2].len() && 0 <= c2 < gv.width() ==> #[trigger] pr@[a2]@[p]@[c2]
                    == predict_has(gv, fv, fov, a2, p, c2),
            a <= gv.n_nt(),
            cells@.len() == a,
            forall|a2: int| 0 <= a2 < a ==> (#[trigger] cells_view(cells@)[a2]).len() == gv.n_t + 1,
            forall|a2: int, c2: int|
                0 <= a2 < a && 0 <= c2 <= gv.n_t && #[trigger] cells_view(cells@)[a2][c2] is Some ==> cells_view(cells@)[a2][c2]->0 < gv.rules[a2].len()
                    && predict_has(gv, fv, fov, a2, cells_view(cells@)[a2][c2]->0 as int, c2),
            forall|a2: int, i: int, c2: int|
                0 <= a2 < a && 0 <= i < gv.rules[a2].len() && 0 <= c2 <= gv.n_t && #[trigger] predict_has(gv, fv, fov, a2, i, c2)
                    ==> cells_view(cells@)[a2][c2] == Some(i as usize),
            forall|a2: int, i: int, j: int, c2: int|
                0 <= a2 < a && 0 <= i < gv.rules[a2].len() && 0 <= j < gv.rules[a2].len() && i != j && 0 <= c2 < gv.width()
                    && #[trigger] predict_has(gv, fv, fov, a2, i, c2) && #[trigger] predict_has(gv, fv, fov, a2, j, c2) ==> false,
        decreases gv.n_nt() - a,
    {
        let mut row: Vec<Option<usize>> = Vec::new();
        let mut c: usize = 0;
        while c <= n_t
            invariant
                n_t + 2 <= usize::MAX,
                c <= n_t + 1,
                row@.len() == c,
                forall|c2: int| 0 <= c2 < c ==> #[trigger] row@[c2] is None,
            decreases n_t + 1 - c,
        {
            row.push(None);
            c = c + 1;
        }
        let mut i: usize = 0;
        while i < g.rules[a].len()
            invariant
                gv == g@,
                gv.wf(),
                n_t == gv.n_t,
                a < gv.n_nt(),
                compiled(cfg@, gv),
                compilable(cfg@),
                is_first(gv, fv),
                is_follow(gv, fv, fov),
                pr@.len() == gv.n_nt(),
                forall|a2: int| 0 <= a2 < gv.n_nt() ==> (#[trigger] pr@[a2])@.len() == gv.rules[a2].len(),
                forall|a2: int, p: int| 0 <= a2 < gv.n_nt() && 0 <= p < gv.rules[a2].len() ==> (#[trigger] pr@[a2]@[p])@.len() == gv.width(),
                forall|a2: int, p: int, c2: int|
                    0 <= a2 < gv.n_nt() && 0 <= p < gv.rules[a2].len() && 0 <= c2 < gv.width() ==> #[trigger] pr@[a2]@[p]@[c2]
                        == predict_has(gv, fv, fov, a2, p, c2),
                i <= gv.rules[a as int].len(),
                row@.len() == gv.n_t + 1,
                forall|a2: int, i3: int, j: int, c2: int|
                    0 <= a2 < a && 0 <= i3 < gv.rules[a2].len() && 0 <= j < gv.rules[a2].len() && i3 != j && 0 <= c2 < gv.width()
                        && #[trigger] predict_has(gv, fv, fov, a2, i3, c2) && #[trigger] predict_has(gv, fv, fov, a2, j, c2) ==> false,
                forall|c2: int|
                    0 <= c2 <= gv.n_t && #[trigger] row@[c2] is Some ==> row@[c2]->0 < i && predict_has(gv, fv, fov, a as int, row@[c2]->0 as int, c2),
                forall|i2: int, c2: int|
                    0 <= i2 < i && 0 <= c2 <= gv.n_t && #[trigger] predict_has(gv, fv, fov, a as int, i2, c2) ==> row@[c2] == Some(i2 as usize),
                forall|i2: int, j: int, c2: int|
                    0 <= i2 < i && 0 <= j < i && i2 != j && 0 <= c2 < gv.width()
                        && #[trigger] predict_has(gv, fv, fov, a as int, i2, c2) && #[trigger] predict_has(gv, fv, fov, a as int, j, c2) ==> false,
            decreases gv.rules[a as int].len() - i,
        {
            let mut c: usize = 0;
            while c <= n_t
                invariant
                    gv == g@,
                    gv.wf(),
                    n_t == gv.n_t,
                    a < gv.n_nt(),
                    i < gv.rules[a as int].len(),
                    compiled(cfg@, gv),
                    compilable(cfg@),
                    is_first(gv, fv),
                    is_follow(gv, fv, fov),
                    pr@.len() == gv.n_nt(),
                    forall|a2: int| 0 <= a2 < gv.n_nt() ==> (#[trigger] pr@[a2])@.len() == gv.rules[a2].len(),
                    forall|a2: int, p: int| 0 <= a2 < gv.n_nt() && 0 <= p < gv.rules[a2].len() ==> (#[trigger] pr@[a2]@[p])@.len() == gv.width(),
                    forall|a2: int, p: int, c2: int|
                        0 <= a2 < gv.n_nt() && 0 <= p < gv.rules[a2].len() && 0 <= c2 < gv.width() ==> #[trigger] pr@[a2]@[p]@[c2]
                            == predict_has(gv, fv, fov, a2, p, c2),
                    c <= n_t + 1,
                    row@.len() == gv.n_t + 1,
                    forall|a2: int, i3: int, j: int, c2: int|
                        0 <= a2 < a && 0 <= i3 < gv.rules[a2].len() && 0 <= j < gv.rules[a2].len() && i3 != j && 0 <= c2 < gv.width()
                            && #[trigger] predict_has(gv, fv, fov, a2, i3, c2) && #[trigger] predict_has(gv, fv, fov, a2, j, c2) ==> false,
                    forall|c2: int|
                        0 <= c2 <= gv.n_t && #[trigger] row@[c2] is Some ==> row@[c2]->0 <= i && predict_has(gv, fv, fov, a as int, row@[c2]->0 as int, c2),
                    forall|i2: int, c2: int|
                        0 <= i2 < i && 0 <= c2 <= gv.n_t && #[trigger] predict_has(gv, fv, fov, a as int, i2, c2) ==> row@[c2] == Some(i2 as usize),
                    forall|c2: int|
                        0 <= c2 < c && #[trigger] predict_has(gv, fv, fov, a as int, i as int, c2) ==> row@[c2] == Some(i),
                    forall|c2: int| c <= c2 <= gv.n_t && #[trigger] row@[c2] is Some ==> row@[c2]->0 < i,
                    forall|i2: int, j: int, c2: int|
                        0 <= i2 < i && 0 <= j < i && i2 != j && 0 <= c2 < gv.width()
                            && #[trigger] predict_has(gv, fv, fov, a as int, i2, c2) && #[trigger] predict_has(gv, fv, fov, a as int, j, c2) ==> false,
                    forall|i2: int, c2: int|
                        0 <= i2 < i && 0 <= c2 < c
                            && #[trigger] predict_has(gv, fv, fov, a as int, i2, c2) && #[trigger] predict_has(gv, fv, fov, a as int, i as int, c2) ==> false,
                decreases n_t + 1 - c,
            {
                if pr[a][i][c] {
                    match row[c] {
                        Some(j) => {
                            proof {
                                assert(predict_has(gv, fv, fov, a as int, j as int, c as int));
                                assert(predict_has(gv, fv, fov, a as int, i as int, c as int));
                                assert(ll1_conflict(cfg@, Error::PredictConflict { non_terminal: a, terminal: c, first: j, second: i }));
                                assert forall|a2: int, i2: int, c2: int|
                                    0 <= a2 < gv.n_nt() && 0 <= i2 < gv.rules[a2].len() && 0 <= c2 <= gv.n_t
                                        && lex_before(a2, i2, c2, a as int, i as int, c as int) implies !#[trigger] ll1_clash(gv, fv, fov, a2, i2, c2) by {
                                    if ll1_clash(gv, fv, fov, a2, i2, c2) {
                                        let j2 = choose|j2: int| 0 <= j2 < i2 && #[trigger] predict_has(gv, fv, fov, a2, j2, c2) && predict_has(gv, fv, fov, a2, i2, c2);
                                        assert(predict_has(gv, fv, fov, a2, i2, c2));
                                    }
                                }
                                assert(ll1_first_conflict(cfg@, Error::PredictConflict { non_terminal: a, terminal: c, first: j, second: i }));
                            }
                            return Err(Error::PredictConflict { non_terminal: a, terminal: c, first: j, second: i });
                        },
                        None => {
                            row.set(c, Some(i));
                        },
                    }
                }
                c = c + 1;
            }
            proof {
                assert forall|i2: int, j: int, c2: int|
                    0 <= i2 < i + 1 && 0 <= j < i + 1 && i2 != j && 0 <= c2 < gv.width()
                        && #[trigger] predict_has(gv, fv, fov, a as int, i2, c2) && #[trigger] predict_has(gv, fv, fov, a as int, j, c2) implies false by {
                    assert(c2 != gv.eps());
                    assert(!fov[a as int][gv.eps() as int]);
                }
            }
            i = i + 1;
        }
        let ghost c0 = cells@;
        cells.push(row);
        proof {
            assert(cells_view(cells@) =~= cells_view(c0).push(row@));
        }
        a = a + 1;
    }
    let mut terminals: Vec<Terminal> = Vec::new();
    let mut k: usize = 0;
    while k < c.terminals.len()
        invariant
            k <= c.terminals@.len(),
            terminals@.len() == k,
            forall|j: int| 0 <= j < k ==> #[trigger] terminals@[j]@ == c.terminals@[j]@,
        decreases c.terminals@.len() - k,
    {
        terminals.push(c.terminals[k].duplicate());
        k = k + 1;
    }
    assert(terminals_view(terminals@) =~= terminals_view(c.terminals@));
    Ok(LL1Table { terminals, grammar: g, first: f, follow: fo, cells })
}

/// `s` reversed, without its empty-string symbols: what is pushed to expand by `s`.
pub open spec fn rev_syms(s: Seq<Sym>) -> Seq<Sym>
    decreases s.len(),
{
    if s.len() == 0 {
        s
    } else {
        rev_syms(s.drop_first()) + if s[0] == Sym::Eps {
            Seq::<Sym>::empty()
        } else {
            seq![s[0]]
        }
    }
}

/// The outcome of one step of the predictive recognizer.
pub enum LlStep {
    Accept,
    Reject(int),
    Fault,
    Next(Seq<Sym>, int),
}

/// One step of the recognizer: the stack holds symbols, the top last; end of
/// input is `T(n_t)`.
pub open spec fn ll_step(g: GrammarV, cells: Seq<Seq<Option<usize>>>, stack: Seq<Sym>, input: Seq<usize>, pos: int) -> LlStep {
    if stack.len() == 0 {
        LlStep::Fault
    } else {
        let cur = cur_col(input, pos, g.n_t as int);
        match stack.last() {
            Sym::T(t) => if t == cur {
                if t == g.n_t {
                    LlStep::Accept
                } else {
                    LlStep::Next(stack.drop_last(), pos + 1)
                }
            } else {
                LlStep::Reject(pos)
            },
            Sym::N(a) => match cell(cells, a as int, cur) {
                None => LlStep::Reject(pos),
                Some(i) => if a < g.n_nt() && i < g.rules[a as int].len() {
                    LlStep::Next(stack.drop_last() + rev_syms(g.rules[a as int][i as int]), pos)
                } else {
                    LlStep::Fault
                },
            },
            Sym::Eps => LlStep::Next(stack.drop_last(), pos),
        }
    }
}

/// At most `fuel` steps of the recognizer; `Next` when the steps ran out.
pub open spec fn ll_run(g: GrammarV, cells: Seq<Seq<Option<usize>>>, stack: Seq<Sym>, input: Seq<usize>, pos: int, fuel: nat) -> LlStep
    decreases fuel,
{
    if fuel == 0 {
        LlStep::Next(stack, pos)
    } else {
        match ll_step(g, cells, stack, input, pos) {
            LlStep::Next(st, p) => ll_run(g, cells, st, input, p, (fuel - 1) as nat),
            other => other,
        }
    }
}

/// What the recognizer answers on token columns `input`, starting from `[end, start]`.
pub open spec fn ll_verdict(g: GrammarV, cells: Seq<Seq<Option<usize>>>, input: Seq<usize>) -> Result<(), Error> {
    match ll_run(g, cells, seq![Sym::T(g.n_t as usize), Sym::N(g.start as usize)], input, 0, STEP_LIMIT as nat) {
        LlStep::Accept => Ok(()),
        LlStep::Reject(pos) => Err(Error::ParseReject { position: pos as usize }),
        LlStep::Fault => Err(Error::Internal),
        LlStep::Next(_, _) => Err(Error::StepLimit),
    }
}

impl LL1Table {
    /// Runs the predictive recognizer on `tokens`.
    pub fn recognize(&self, tokens: &[Terminal]) -> (r: Result<(), Error>)
        requires
            self.terminals@.len() + 2 <= usize::MAX,
            self.grammar.n_terminals == self.terminals@.len(),
        ensures
            r == ll_verdict(self.grammar@, cells_view(self.cells@), token_cols(terminals_view(self.terminals@), tokens@)),
    {
        let input = token_columns(&self.terminals, tokens);
        let ghost g = self.grammar@;
        let ghost cv = cells_view(self.cells@);
        let eof = self.grammar.n_terminals;
        let mut stack: Vec<Sym> = Vec::new();
        stack.push(Sym::T(eof));
        stack.push(Sym::N(self.grammar.start));
        assert(stack@ =~= seq![Sym::T(g.n_t as usize), Sym::N(g.start as usize)]);
        let mut pos: usize = 0;
        let mut fuel: usize = STEP_LIMIT;
        loop
            invariant
                g == self.grammar@,
                cv == cells_view(self.cells@),
                eof == g.n_t,
                input@ == token_cols(terminals_view(self.terminals@), tokens@),
                pos + fuel <= STEP_LIMIT,
                ll_run(g, cv, stack@, input@, pos as int, fuel as nat) == ll_run(
                    g,
                    cv,
                    seq![Sym::T(g.n_t as usize), Sym::N(g.start as usize)],
                    input@,
                    0,
                    STEP_LIMIT as nat,
                ),
            decreases fuel,
        {
            if fuel == 0 {
                return Err(Error::StepLimit);
            }
            let ghost st0 = stack@;
            let ghost p0 = pos as int;
            let top = match stack.pop() {
                Some(t) => t,
                None => {
                    return Err(Error::Internal);
                },
            };
            assert(stack@ == st0.drop_last());
            let cur = if pos < input.len() {
                input[pos]
            } else {
                eof
            };
            assert(cur as int == cur_col(input@, p0, g.n_t as int));
            match top {
                Sym::T(t) => {
                    if t != cur {
                        return Err(Error::ParseReject { position: pos });
                    }
                    if t == eof {
                        return Ok(());
                    }
                    pos = pos + 1;
                },
                Sym::N(a) => {
                    let entry = if a < self.cells.len() && cur < self.cells[a].len() {
                        self.cells[a][cur]
                    } else {
                        None
                    };
                    assert(entry == cell(cv, a as int, cur as int));
                    match entry {
                        None => {
                            return Err(Error::ParseReject { position: pos });
                        },
                        Some(i) => {
                            if !(a < self.grammar.rules.len() && i < self.grammar.rules[a].len()) {
                                return Err(Error::Internal);
                            }
                            let rhs = &self.grammar.rules[a][i];
                            assert(rhs@ == g.rules[a as int][i as int]);
                            let ghost base = stack@;
                            let mut k: usize = rhs.len();
                            while k > 0
                                invariant
                                    k <= rhs@.len(),
                                    stack@ == base + rev_syms(rhs@.subrange(k as int, rhs@.len() as int)),
                                decreases k,
                            {
                                let x = rhs[k - 1];
                                proof {
                                    let sub = rhs@.subrange(k - 1, rhs@.len() as int);
                                    assert(sub.drop_first() =~= rhs@.subrange(k as int, rhs@.len() as int));
                                    assert(sub[0] == x);
                                }
                                if x != Sym::Eps {
                                    stack.push(x);
                                }
                                k = k - 1;
                                proof {
                                    assert(stack@ =~= base + rev_syms(rhs@.subrange(k as int, rhs@.len() as int)));
                                }
                            }
                            assert(rhs@.subrange(0, rhs@.len() as int) =~= rhs@);
                        },
                    }
                },
                Sym::Eps => {},
            }
            fuel = fuel - 1;
        }
    }
}

/// Builds the predictive table of `cfg` and recognizes `tokens` with it.
pub fn parse(tokens: &[Terminal], cfg: &CFGWithoutLeftRecursion) -> (r: Result<(), Error>)
    ensures
        (r == Err::<(), Error>(Error::GrammarMalformed)) <==> !compilable(cfg@),
        r is Err && ll1_conflict(cfg@, r->Err_0) && ll1_first_conflict(cfg@, r->Err_0) || r == Err::<(), Error>(Error::GrammarMalformed) || exists|t: LL1Table|
            #[trigger] t.valid_for(cfg@) && r == ll_verdict(t.grammar@, cells_view(t.cells@), token_cols(cfg@.ts, tokens@)),
{
    match contruct_talbe(cfg) {
        Ok(t) => {
            let r = t.recognize(tokens);
            assert(t.valid_for(cfg@));
            r
        },
        Err(e) => Err(e),
    }
}

} // verus!
