//! LR(1): items, closure, goto, the canonical collection, ACTION / GOTO tables
//! and the shift/reduce recognizer. The engine works on the augmented grammar:
//! empty strings are dropped from right-hand sides and a new start
//! non-terminal, numbered after all others, has the one production `[start]`.
use vstd::prelude::*;
use crate::grammar::{CFG, Terminal, terminals_view};
use crate::indexed::{
    Grammar, GrammarV, Sym, compile, compilable, compiled, find_terminal, first_index,
    lemma_first_index_unique,
};
use crate::sets::is_first;
use crate::sets::{first, seq_first_row, seq_has, shaped, syms_in, matrix_view, row_false, mat_false};

verus! {

/// `s` without its empty-string symbols.
pub open spec fn no_eps(s: Seq<Sym>) -> Seq<Sym>
    decreases s.len(),
{
    if s.len() == 0 {
        s
    } else {
        let r = no_eps(s.drop_last());
        if s.last() == Sym::Eps {
            r
        } else {
            r.push(s.last())
        }
    }
}

proof fn lemma_no_eps(s: Seq<Sym>)
    ensures
        forall|k: int| 0 <= k < no_eps(s).len() ==> #[trigger] no_eps(s)[k] != Sym::Eps && s.contains(no_eps(s)[k]),
    decreases s.len(),
{
    if s.len() > 0 {
        lemma_no_eps(s.drop_last());
        let r = no_eps(s.drop_last());
        assert forall|k: int| 0 <= k < no_eps(s).len() implies #[trigger] no_eps(s)[k] != Sym::Eps && s.contains(no_eps(s)[k]) by {
            if k < r.len() {
                let x = r[k];
                assert(s.drop_last().contains(x));
                let m = choose|m: int| 0 <= m < s.drop_last().len() && s.drop_last()[m] == x;
                assert(s[m] == x);
            } else {
                assert(s[s.len() - 1] == s.last());
            }
        }
    }
}

/// The augmented grammar of `g`.
pub open spec fn augment(g: GrammarV) -> GrammarV {
    GrammarV {
        n_t: g.n_t,
        rules: g.rules.map_values(|b: Seq<Seq<Sym>>| b.map_values(|r: Seq<Sym>| no_eps(r))).push(
            seq![seq![Sym::N(g.start as usize)]],
        ),
        start: g.n_nt(),
    }
}

/// The augmented grammar of `g`.
pub fn augmented(g: &Grammar) -> (r: Grammar)
    requires
        g@.wf(),
        g@.n_nt() + 3 <= usize::MAX,
    ensures
        r@ == augment(g@),
        r@.wf(),
{
    let ghost gv = g@;
    let ghost target = augment(gv);
    let mut rules: Vec<Vec<Vec<Sym>>> = Vec::new();
    let mut a: usize = 0;
    while a < g.rules.len()
        invariant
            gv == g@,
            target == augment(gv),
            a <= gv.n_nt(),
            rules@.len() == a,
            forall|a2: int| 0 <= a2 < a ==> (#[trigger] crate::indexed::rules_view(rules@)[a2]) == target.rules[a2],
        decreases gv.n_nt() - a,
    {
        let mut prods: Vec<Vec<Sym>> = Vec::new();
        let mut p: usize = 0;
        while p < g.rules[a].len()
            invariant
                gv == g@,
                a < gv.n_nt(),
                p <= gv.rules[a as int].len(),
                prods@.len() == p,
                forall|p2: int| 0 <= p2 < p ==> (#[trigger] prods@[p2])@ == no_eps(gv.rules[a as int][p2]),
            decreases gv.rules[a as int].len() - p,
        {
            let rhs = &g.rules[a][p];
            let mut out: Vec<Sym> = Vec::new();
            let mut k: usize = 0;
            while k < rhs.len()
                invariant
                    k <= rhs@.len(),
                    out@ == no_eps(rhs@.take(k as int)),
                decreases rhs@.len() - k,
            {
                assert(rhs@.take(k + 1).drop_last() =~= rhs@.take(k as int));
                if rhs[k] != Sym::Eps {
                    out.push(rhs[k]);
                }
                k = k + 1;
            }
            assert(rhs@.take(k as int) =~= rhs@);
            prods.push(out);
            p = p + 1;
        }
        let ghost old_rules = rules@;
        rules.push(prods);
        proof {
            assert(crate::indexed::rules_view(rules@) =~= crate::indexed::rules_view(old_rules).push(prods@.map_values(|r: Vec<Sym>| r@)));
            assert(target.rules[a as int].len() == gv.rules[a as int].len());
            assert(prods@.map_values(|r: Vec<Sym>| r@) =~= target.rules[a as int]);
        }
        a = a + 1;
    }
    let mut last: Vec<Sym> = Vec::new();
    last.push(Sym::N(g.start));
    let mut block: Vec<Vec<Sym>> = Vec::new();
    block.push(last);
    let ghost old_rules = rules@;
    rules.push(block);
    let r = Grammar { n_terminals: g.n_terminals, rules, start: g.rules.len() };
    proof {
        assert(crate::indexed::rules_view(rules@) =~= crate::indexed::rules_view(old_rules).push(block@.map_values(|r: Vec<Sym>| r@)));
        assert(last@ =~= seq![Sym::N(g.start)]);
        assert(block@.map_values(|r: Vec<Sym>| r@) =~= seq![seq![Sym::N(g.start)]]);
        assert(r@.rules =~= target.rules);
        assert forall|a2: int, p: int, k: int|
            0 <= a2 < r@.n_nt() && 0 <= p < r@.rules[a2].len() && 0 <= k < r@.rules[a2][p].len()
                implies r@.sym_ok(#[trigger] r@.rules[a2][p][k]) by {
            if a2 < gv.n_nt() {
                lemma_no_eps(gv.rules[a2][p]);
                let x = r@.rules[a2][p][k];
                assert(gv.rules[a2][p].contains(x));
                let m = choose|m: int| 0 <= m < gv.rules[a2][p].len() && gv.rules[a2][p][m] == x;
                assert(gv.sym_ok(gv.rules[a2][p][m]));
            }
        }
        assert forall|a2: int| 0 <= a2 < r@.n_nt() implies #[trigger] r@.rules[a2].len() > 0 by {
            if a2 < gv.n_nt() {
                assert(gv.rules[a2].len() > 0);
            }
        }
    }
    r
}

/// An LR(1) item: production `prod` of `nt` with the dot before position `dot`
/// of its right-hand side, and one lookahead column (a terminal or end of input).
#[derive(Debug, Clone, Copy, PartialEq, Eq, Structural)]
pub struct Item {
    pub nt: usize,
    pub prod: usize,
    pub dot: usize,
    pub lookahead: usize,
}

pub open spec fn rhs_of(g: GrammarV, it: Item) -> Seq<Sym> {
    g.rules[it.nt as int][it.prod as int]
}

pub open spec fn item_ok(g: GrammarV, it: Item) -> bool {
    &&& it.nt < g.n_nt()
    &&& it.prod < g.rules[it.nt as int].len()
    &&& it.dot <= rhs_of(g, it).len()
    &&& it.lookahead <= g.n_t
}

/// The symbol right after the dot is `x`.
pub open spec fn next_is(g: GrammarV, it: Item, x: Sym) -> bool {
    it.dot < rhs_of(g, it).len() && rhs_of(g, it)[it.dot as int] == x
}

/// What follows the symbol after the dot, then the lookahead.
pub open spec fn after_next(g: GrammarV, it: Item) -> Seq<Sym> {
    rhs_of(g, it).subrange(it.dot + 1, rhs_of(g, it).len() as int).push(Sym::T(it.lookahead))
}

/// `s` is closed under the closure rule: for `[A -> α · B β, a]` in `s`, every
/// `[B -> · γ, b]` with `b` in FIRST(β a) is in `s`.
pub open spec fn closed_items(g: GrammarV, f: Seq<Seq<bool>>, s: Set<Item>) -> bool {
    forall|it: Item, b: usize, q: usize, c: usize|
        #![trigger s.contains(it), s.contains(Item { nt: b, prod: q, dot: 0, lookahead: c })]
        s.contains(it) && item_ok(g, it) && next_is(g, it, Sym::N(b)) && q < g.rules[b as int].len()
            && c <= g.n_t && seq_has(g, f, after_next(g, it), c as int) ==> s.contains(
            Item { nt: b, prod: q, dot: 0, lookahead: c },
        )
}

/// `r` is the closure of `k`: the least closed set that holds `k`.
pub open spec fn is_closure(g: GrammarV, f: Seq<Seq<bool>>, k: Set<Item>, r: Set<Item>) -> bool {
    &&& k.subset_of(r)
    &&& closed_items(g, f, r)
    &&& forall|s: Set<Item>| k.subset_of(s) && #[trigger] closed_items(g, f, s) ==> r.subset_of(s)
}

/// `it` with the dot moved one symbol right.
pub open spec fn advance(it: Item) -> Item {
    Item { dot: (it.dot + 1) as usize, ..it }
}

/// The kernel of goto: the items of `s` whose next symbol is `x`, with the dot moved past it.
pub open spec fn moved(g: GrammarV, s: Set<Item>, x: Sym) -> Set<Item> {
    Set::new(
        |it2: Item|
            exists|it: Item|
                #[trigger] s.contains(it) && next_is(g, it, x) && it2 == advance(it),
    )
}

/// Every item that the closure rule derives from `it` is in `items`.
pub open spec fn generated_in(g: GrammarV, f: Seq<Seq<bool>>, items: Seq<Item>, it: Item) -> bool {
    forall|b: usize, q: usize, c: usize|
        #![trigger items.contains(Item { nt: b, prod: q, dot: 0, lookahead: c })]
        next_is(g, it, Sym::N(b)) && q < g.rules[b as int].len() && c <= g.n_t && seq_has(
            g,
            f,
            after_next(g, it),
            c as int,
        ) ==> items.contains(Item { nt: b, prod: q, dot: 0, lookahead: c })
}

proof fn lemma_generated_grow(g: GrammarV, f: Seq<Seq<bool>>, a: Seq<Item>, b: Seq<Item>, it: Item)
    requires
        generated_in(g, f, a, it),
        forall|x: Item| a.contains(x) ==> #[trigger] b.contains(x),
    ensures
        generated_in(g, f, b, it),
{
    assert forall|b2: usize, q: usize, c: usize|
        next_is(g, it, Sym::N(b2)) && q < g.rules[b2 as int].len() && c <= g.n_t && seq_has(
            g,
            f,
            after_next(g, it),
            c as int,
        ) implies #[trigger] b.contains(Item { nt: b2, prod: q, dot: 0, lookahead: c }) by {
        assert(a.contains(Item { nt: b2, prod: q, dot: 0, lookahead: c }));
    }
}

pub open spec fn items_ok(g: GrammarV, s: Seq<Item>) -> bool {
    forall|j: int| 0 <= j < s.len() ==> item_ok(g, #[trigger] s[j])
}

/// Number of unset cells of a three-level table.
pub open spec fn cube_false(m: Seq<Seq<Seq<bool>>>) -> nat
    decreases m.len(),
{
    if m.len() == 0 {
        0
    } else {
        cube_false(m.drop_last()) + mat_false(m.last())
    }
}

proof fn lemma_cube_update(m: Seq<Seq<Seq<bool>>>, b: int, r: Seq<Seq<bool>>)
    requires
        0 <= b < m.len(),
    ensures
        cube_false(m.update(b, r)) + mat_false(m[b]) == cube_false(m) + mat_false(r),
    decreases m.len(),
{
    if b == m.len() - 1 {
        assert(m.update(b, r).drop_last() =~= m.drop_last());
    } else {
        assert(m.update(b, r).drop_last() =~= m.drop_last().update(b, r));
        lemma_cube_update(m.drop_last(), b, r);
    }
}

/// One cell per production and lookahead column.
pub open spec fn seen_shaped(g: GrammarV, m: Seq<Seq<Seq<bool>>>) -> bool {
    &&& m.len() == g.n_nt()
    &&& forall|b: int| 0 <= b < g.n_nt() ==> (#[trigger] m[b]).len() == g.rules[b].len()
    &&& forall|b: int, q: int| 0 <= b < g.n_nt() && 0 <= q < g.rules[b].len() ==> (#[trigger] m[b][q]).len() == g.n_t + 1
}

/// Every dot-0 item of `items` is marked in `seen`.
pub open spec fn marks_cover(g: GrammarV, seen: Seq<Seq<Seq<bool>>>, items: Seq<Item>) -> bool {
    forall|x: Item|
        #[trigger] items.contains(x) && x.dot == 0 && x.nt < g.n_nt() && x.prod < g.rules[x.nt as int].len() && x.lookahead
            <= g.n_t ==> seen[x.nt as int][x.prod as int][x.lookahead as int]
}

/// `items` extends `k0`: the items of `k0` come first, in their order; no
/// duplicate is added; and where `k0` was already closed nothing is added.
pub open spec fn keeps_kernel(g: GrammarV, f: Seq<Seq<bool>>, k0: Seq<Item>, items: Seq<Item>) -> bool {
    &&& k0.len() <= items.len()
    &&& forall|j: int| 0 <= j < k0.len() ==> #[trigger] items[j] == k0[j]
    &&& k0.no_duplicates() ==> items.no_duplicates()
    &&& closed_items(g, f, k0.to_set()) ==> items == k0
}

pub open spec fn cube_view(m: Seq<Vec<Vec<bool>>>) -> Seq<Seq<Seq<bool>>> {
    m.map_values(|b: Vec<Vec<bool>>| matrix_view(b@))
}

/// Marks cell `[b][q][c]`, which was unset.
fn mark(seen: &mut Vec<Vec<Vec<bool>>>, b: usize, q: usize, c: usize)
    requires
        b < old(seen)@.len(),
        q < old(seen)@[b as int]@.len(),
        c < old(seen)@[b as int]@[q as int]@.len(),
        !old(seen)@[b as int]@[q as int]@[c as int],
    ensures
        cube_view(final(seen)@) == cube_view(old(seen)@).update(
            b as int,
            cube_view(old(seen)@)[b as int].update(
                q as int,
                cube_view(old(seen)@)[b as int][q as int].update(c as int, true),
            ),
        ),
        cube_false(cube_view(final(seen)@)) < cube_false(cube_view(old(seen)@)),
{
    let ghost m = cube_view(seen@);
    let ghost row = m[b as int][q as int];
    proof {
        crate::sets::lemma_row_set(row, c as int);
        crate::sets::lemma_mat_update(m[b as int], q as int, row.update(c as int, true));
        lemma_cube_update(m, b as int, m[b as int].update(q as int, row.update(c as int, true)));
    }
    seen[b][q].set(c, true);
    proof {
        assert(seen@[b as int]@[q as int]@ =~= row.update(c as int, true));
        assert(matrix_view(seen@[b as int]@) =~= m[b as int].update(q as int, row.update(c as int, true)));
        assert(cube_view(seen@) =~= m.update(b as int, m[b as int].update(q as int, row.update(c as int, true))));
    }
}

/// Extends `items` to its closure.
fn closure(items: &mut Vec<Item>, g: &Grammar, f: &Vec<Vec<bool>>)
    requires
        g@.wf(),
        shaped(g@, matrix_view(f@)),
        items_ok(g@, old(items)@),
    ensures
        is_closure(g@, matrix_view(f@), old(items)@.to_set(), final(items)@.to_set()),
        items_ok(g@, final(items)@),
        keeps_kernel(g@, matrix_view(f@), old(items)@, final(items)@),
{
    let ghost gv = g@;
    let ghost fv = matrix_view(f@);
    let ghost k0 = items@;
    let n_cols = g.n_terminals + 1;
    let mut seen: Vec<Vec<Vec<bool>>> = Vec::new();
    let mut b: usize = 0;
    while b < g.rules.len()
        invariant
            gv == g@,
            gv.wf(),
            n_cols == gv.n_t + 1,
            b <= gv.n_nt(),
            seen@.len() == b,
            forall|b2: int| 0 <= b2 < b ==> (#[trigger] seen@[b2])@.len() == gv.rules[b2].len(),
            forall|b2: int, q: int| 0 <= b2 < b && 0 <= q < gv.rules[b2].len() ==> (#[trigger] seen@[b2]@[q])@.len() == n_cols,
            forall|b2: int, q: int, c: int| 0 <= b2 < b && 0 <= q < gv.rules[b2].len() && 0 <= c < n_cols ==> !(#[trigger] seen@[b2]@[q]@[c]),
        decreases gv.n_nt() - b,
    {
        let mut mat: Vec<Vec<bool>> = Vec::new();
        let mut q: usize = 0;
        while q < g.rules[b].len()
            invariant
                gv == g@,
                b < gv.n_nt(),
                q <= gv.rules[b as int].len(),
                mat@.len() == q,
                forall|q2: int| 0 <= q2 < q ==> (#[trigger] mat@[q2])@.len() == n_cols,
                forall|q2: int, c: int| 0 <= q2 < q && 0 <= c < n_cols ==> !(#[trigger] mat@[q2]@[c]),
            decreases gv.rules[b as int].len() - q,
        {
            let mut row: Vec<bool> = Vec::new();
            let mut c: usize = 0;
            while c < n_cols
                invariant
                    c <= n_cols,
                    row@.len() == c,
                    forall|c2: int| 0 <= c2 < c ==> !row@[c2],
                decreases n_cols - c,
            {
                row.push(false);
                c = c + 1;
            }
            mat.push(row);
            q = q + 1;
        }
        seen.push(mat);
        b = b + 1;
    }
    proof {
        assert(seen_shaped(gv, cube_view(seen@)));
    }
    let mut j: usize = 0;
    while j < items.len()
        invariant
            gv == g@,
            gv.wf(),
            items@ == k0,
            items_ok(gv, k0),
            n_cols == gv.n_t + 1,
            j <= k0.len(),
            seen_shaped(gv, cube_view(seen@)),
            forall|b2: usize, q: usize, c: usize|
                b2 < gv.n_nt() && q < gv.rules[b2 as int].len() && c <= gv.n_t && #[trigger] cube_view(seen@)[b2 as int][q as int][c as int]
                    ==> items@.contains(Item { nt: b2, prod: q, dot: 0, lookahead: c }),
            forall|m: int| 0 <= m < j && (#[trigger] k0[m]).dot == 0 ==> cube_view(seen@)[k0[m].nt as int][k0[m].prod as int][k0[m].lookahead as int],
        decreases k0.len() - j,
    {
        let it = items[j];
        assert(item_ok(gv, it));
        assert(cube_view(seen@)[it.nt as int][it.prod as int].len() == n_cols);
        if it.dot == 0 && !seen[it.nt][it.prod][it.lookahead] {
            let ghost sb = cube_view(seen@);
            mark(&mut seen, it.nt, it.prod, it.lookahead);
            proof {
                assert(items@[j as int] == it);
                assert forall|b2: usize, q: usize, c: usize|
                    b2 < gv.n_nt() && q < gv.rules[b2 as int].len() && c <= gv.n_t && #[trigger] cube_view(seen@)[b2 as int][q as int][c as int]
                        implies items@.contains(Item { nt: b2, prod: q, dot: 0, lookahead: c }) by {
                    if !(b2 == it.nt && q == it.prod && c == it.lookahead) {
                        assert(sb[b2 as int][q as int][c as int]);
                    }
                }
                assert forall|m: int| 0 <= m < j + 1 && (#[trigger] k0[m]).dot == 0 implies cube_view(seen@)[k0[m].nt as int][k0[m].prod as int][k0[m].lookahead as int] by {
                    if m < j {
                        assert(sb[k0[m].nt as int][k0[m].prod as int][k0[m].lookahead as int]);
                        assert(item_ok(gv, k0[m]));
                    }
                }
            }
        }
        j = j + 1;
    }
    proof {
        assert forall|x: Item| #[trigger] items@.contains(x) && x.dot == 0 && x.nt < gv.n_nt() && x.prod < gv.rules[x.nt as int].len()
            && x.lookahead <= gv.n_t implies cube_view(seen@)[x.nt as int][x.prod as int][x.lookahead as int] by {
            let m = choose|m: int| 0 <= m < items@.len() && items@[m] == x;
            assert(k0[m].dot == 0);
        }
    }
    let mut i: usize = 0;
    while i < items.len()
        invariant
            gv == g@,
            fv == matrix_view(f@),
            gv.wf(),
            shaped(gv, fv),
            n_cols == gv.n_t + 1,
            i <= items@.len(),
            items_ok(gv, items@),
            seen_shaped(gv, cube_view(seen@)),
            forall|b2: usize, q: usize, c: usize|
                b2 < gv.n_nt() && q < gv.rules[b2 as int].len() && c <= gv.n_t && #[trigger] cube_view(seen@)[b2 as int][q as int][c as int]
                    ==> items@.contains(Item { nt: b2, prod: q, dot: 0, lookahead: c }),
            forall|x: Item| k0.contains(x) ==> #[trigger] items@.contains(x),
            marks_cover(gv, cube_view(seen@), items@),
            keeps_kernel(gv, fv, k0, items@),
            forall|s: Set<Item>|
                k0.to_set().subset_of(s) && #[trigger] closed_items(gv, fv, s) ==> items@.to_set().subset_of(s),
            forall|j: int| 0 <= j < i ==> generated_in(gv, fv, items@, #[trigger] items@[j]),
        decreases cube_false(cube_view(seen@)), items@.len() - i,
    {
        let it = items[i];
        let ghost seen0 = cube_view(seen@);
        let ghost items0 = items@;
        assert(item_ok(gv, it));
        let rhs = &g.rules[it.nt][it.prod];
        assert(rhs@ == rhs_of(gv, it));
        let next = if it.dot < rhs.len() {
            rhs[it.dot]
        } else {
            Sym::Eps
        };
        if let Sym::N(b) = next {
            {
                assert(gv.sym_ok(gv.rules[it.nt as int][it.prod as int][it.dot as int]));
                let mut la: Vec<Sym> = Vec::new();
                let mut k: usize = it.dot + 1;
                while k < rhs.len()
                    invariant
                        it.dot + 1 <= k <= rhs@.len(),
                        la@ == rhs@.subrange(it.dot + 1, k as int),
                    decreases rhs@.len() - k,
                {
                    la.push(rhs[k]);
                    k = k + 1;
                }
                la.push(Sym::T(it.lookahead));
                assert(la@ == after_next(gv, it));
                assert(syms_in(gv, la@)) by {
                    assert forall|k2: int| 0 <= k2 < la@.len() implies (#[trigger] la@[k2] is N ==> la@[k2]->N_0 < gv.n_nt()) by {
                        if k2 < la@.len() - 1 {
                            assert(la@[k2] == gv.rules[it.nt as int][it.prod as int][it.dot + 1 + k2]);
                            assert(gv.sym_ok(gv.rules[it.nt as int][it.prod as int][it.dot + 1 + k2]));
                        }
                    }
                }
                let row = seq_first_row(g, f, &la, 0);
                assert(la@.subrange(0, la@.len() as int) =~= la@);
                let mut q: usize = 0;
                while q < g.rules[b].len()
                    invariant
                        gv == g@,
                        fv == matrix_view(f@),
                        gv.wf(),
                        shaped(gv, fv),
                        n_cols == gv.n_t + 1,
                        i < items@.len(),
                        items@[i as int] == it,
                        item_ok(gv, it),
                        next_is(gv, it, Sym::N(b)),
                        b < gv.n_nt(),
                        row@.len() == gv.width(),
                        forall|c: int| 0 <= c < gv.width() ==> #[trigger] row@[c] == seq_has(gv, fv, after_next(gv, it), c),
                        q <= gv.rules[b as int].len(),
                        items_ok(gv, items@),
                        items0.len() <= items@.len(),
                        forall|j: int| 0 <= j < items0.len() ==> items@[j] == items0[j],
                        seen_shaped(gv, cube_view(seen@)),
                        forall|b2: usize, q2: usize, c: usize|
                            b2 < gv.n_nt() && q2 < gv.rules[b2 as int].len() && c <= gv.n_t && #[trigger] cube_view(seen@)[b2 as int][q2 as int][c as int]
                                ==> items@.contains(Item { nt: b2, prod: q2, dot: 0, lookahead: c }),
                        forall|x: Item| k0.contains(x) ==> #[trigger] items@.contains(x),
                        marks_cover(gv, cube_view(seen@), items@),
                        keeps_kernel(gv, fv, k0, items@),
                        forall|s: Set<Item>|
                            k0.to_set().subset_of(s) && #[trigger] closed_items(gv, fv, s) ==> items@.to_set().subset_of(s),
                        forall|q2: usize, c: usize|
                            #![trigger items@.contains(Item { nt: b, prod: q2, dot: 0, lookahead: c })]
                            q2 < q && c <= gv.n_t && seq_has(gv, fv, after_next(gv, it), c as int)
                                ==> items@.contains(Item { nt: b, prod: q2, dot: 0, lookahead: c }),
                        cube_false(cube_view(seen@)) < cube_false(seen0) || (cube_view(seen@) == seen0 && items@ == items0),
                    decreases gv.rules[b as int].len() - q,
                {
                    let mut c: usize = 0;
                    while c < n_cols
                        invariant
                            gv == g@,
                            fv == matrix_view(f@),
                            gv.wf(),
                            shaped(gv, fv),
                            n_cols == gv.n_t + 1,
                            i < items@.len(),
                            items@[i as int] == it,
                            item_ok(gv, it),
                            next_is(gv, it, Sym::N(b)),
                            b < gv.n_nt(),
                            row@.len() == gv.width(),
                            forall|c2: int| 0 <= c2 < gv.width() ==> #[trigger] row@[c2] == seq_has(gv, fv, after_next(gv, it), c2),
                            q < gv.rules[b as int].len(),
                            c <= n_cols,
                            items_ok(gv, items@),
                            items0.len() <= items@.len(),
                            forall|j: int| 0 <= j < items0.len() ==> items@[j] == items0[j],
                            seen_shaped(gv, cube_view(seen@)),
                            forall|b2: usize, q2: usize, c2: usize|
                                b2 < gv.n_nt() && q2 < gv.rules[b2 as int].len() && c2 <= gv.n_t && #[trigger] cube_view(seen@)[b2 as int][q2 as int][c2 as int]
                                    ==> items@.contains(Item { nt: b2, prod: q2, dot: 0, lookahead: c2 }),
                            forall|x: Item| k0.contains(x) ==> #[trigger] items@.contains(x),
                            marks_cover(gv, cube_view(seen@), items@),
                            keeps_kernel(gv, fv, k0, items@),
                            forall|s: Set<Item>|
                                k0.to_set().subset_of(s) && #[trigger] closed_items(gv, fv, s) ==> items@.to_set().subset_of(s),
                            forall|q2: usize, c2: usize|
                                #![trigger items@.contains(Item { nt: b, prod: q2, dot: 0, lookahead: c2 })]
                                (q2 < q || (q2 == q && c2 < c)) && c2 <= gv.n_t && seq_has(gv, fv, after_next(gv, it), c2 as int)
                                    ==> items@.contains(Item { nt: b, prod: q2, dot: 0, lookahead: c2 }),
                            cube_false(cube_view(seen@)) < cube_false(seen0) || (cube_view(seen@) == seen0 && items@ == items0),
                        decreases n_cols - c,
                    {
                        assert(cube_view(seen@)[b as int][q as int].len() == n_cols);
                        if row[c] && !seen[b][q][c] {
                            let ghost before = items@;
                            let ghost seen_before = cube_view(seen@);
                            let new_item = Item { nt: b, prod: q, dot: 0, lookahead: c };
                            proof {
                                assert forall|s: Set<Item>|
                                    k0.to_set().subset_of(s) && #[trigger] closed_items(gv, fv, s) implies before.push(new_item).to_set().subset_of(s) by {
                                    assert(before.to_set().subset_of(s));
                                    assert(before.contains(it));
                                    assert(s.contains(it));
                                    assert forall|x: Item| before.push(new_item).to_set().contains(x) implies s.contains(x) by {
                                        if x != new_item {
                                            let j = choose|j: int| 0 <= j < before.push(new_item).len() && before.push(new_item)[j] == x;
                                            assert(before.contains(x));
                                        }
                                    }
                                }
                            }
                            proof {
                                if before.contains(new_item) {
                                    assert(cube_view(seen@)[b as int][q as int][c as int]);
                                }
                                if closed_items(gv, fv, k0.to_set()) {
                                    assert(before == k0);
                                    assert(k0.to_set().contains(it));
                                    assert(k0.to_set().contains(new_item));
                                    assert(before.contains(new_item));
                                }
                            }
                            mark(&mut seen, b, q, c);
                            items.push(new_item);
                            proof {
                                assert(items@ == before.push(new_item));
                                assert forall|x: Item| #[trigger] items@.contains(x) && x.dot == 0 && x.nt < gv.n_nt()
                                    && x.prod < gv.rules[x.nt as int].len() && x.lookahead <= gv.n_t
                                    implies cube_view(seen@)[x.nt as int][x.prod as int][x.lookahead as int] by {
                                    if x != new_item {
                                        let m = choose|m: int| 0 <= m < items@.len() && items@[m] == x;
                                        assert(before[m] == x);
                                        assert(before.contains(x));
                                        assert(seen_before[x.nt as int][x.prod as int][x.lookahead as int]);
                                    }
                                }
                                if k0.no_duplicates() {
                                    assert forall|m1: int, m2: int| 0 <= m1 < items@.len() && 0 <= m2 < items@.len() && m1 != m2
                                        implies items@[m1] != items@[m2] by {
                                        if m2 == before.len() {
                                            assert(items@[m1] == before[m1]);
                                        } else if m1 == before.len() {
                                            assert(items@[m2] == before[m2]);
                                        }
                                    }
                                }
                            }
                            proof {
                                assert forall|b2: usize, q2: usize, c2: usize|
                                    b2 < gv.n_nt() && q2 < gv.rules[b2 as int].len() && c2 <= gv.n_t && #[trigger] cube_view(seen@)[b2 as int][q2 as int][c2 as int]
                                        implies items@.contains(Item { nt: b2, prod: q2, dot: 0, lookahead: c2 }) by {
                                    if b2 == b && q2 == q && c2 == c {
                                        assert(items@[items@.len() - 1] == new_item);
                                    } else {
                                        assert(seen_before[b2 as int][q2 as int][c2 as int]);
                                        assert(before.contains(Item { nt: b2, prod: q2, dot: 0, lookahead: c2 }));
                                        let j = choose|j: int| 0 <= j < before.len() && before[j] == Item { nt: b2, prod: q2, dot: 0, lookahead: c2 };
                                        assert(items@[j] == before[j]);
                                    }
                                }
                                assert forall|x: Item| before.contains(x) implies #[trigger] items@.contains(x) by {
                                    let j = choose|j: int| 0 <= j < before.len() && before[j] == x;
                                    assert(items@[j] == x);
                                }
                                assert(items@.contains(new_item)) by {
                                    assert(items@[items@.len() - 1] == new_item);
                                }
                            }
                        }
                        c = c + 1;
                    }
                    q = q + 1;
                }
                proof {
                    assert forall|b2: usize, q2: usize, c: usize|
                        next_is(gv, it, Sym::N(b2)) && q2 < gv.rules[b2 as int].len() && c <= gv.n_t && seq_has(
                            gv,
                            fv,
                            after_next(gv, it),
                            c as int,
                        ) implies #[trigger] items@.contains(Item { nt: b2, prod: q2, dot: 0, lookahead: c }) by {
                        assert(b2 == b);
                    }
                    assert(generated_in(gv, fv, items@, it));
                }
            }
        }
        proof {
            assert(generated_in(gv, fv, items@, it));
            assert forall|x: Item| items0.contains(x) implies #[trigger] items@.contains(x) by {
                let j = choose|j: int| 0 <= j < items0.len() && items0[j] == x;
                assert(items@[j] == x);
            }
            assert forall|j: int| 0 <= j < i + 1 implies generated_in(gv, fv, items@, #[trigger] items@[j]) by {
                if j < i {
                    assert(items@[j] == items0[j]);
                    lemma_generated_grow(gv, fv, items0, items@, items0[j]);
                }
            }
        }
        i = i + 1;
    }
    proof {
        let r = items@.to_set();
        assert forall|x: Item| k0.to_set().contains(x) implies r.contains(x) by {
            assert(items@.contains(x));
        }
        assert forall|it: Item, b: usize, q: usize, c: usize|
            #![trigger r.contains(it), r.contains(Item { nt: b, prod: q, dot: 0, lookahead: c })]
            r.contains(it) && item_ok(gv, it) && next_is(gv, it, Sym::N(b)) && q < gv.rules[b as int].len()
                && c <= gv.n_t && seq_has(gv, fv, after_next(gv, it), c as int) implies r.contains(
                Item { nt: b, prod: q, dot: 0, lookahead: c },
            ) by {
            let j = choose|j: int| 0 <= j < items@.len() && items@[j] == it;
            assert(generated_in(gv, fv, items@, items@[j]));
            assert(items@.contains(Item { nt: b, prod: q, dot: 0, lookahead: c }));
        }
    }
}

/// The items of `items` whose next symbol is `x`, moved past it, then closed.
fn goto(items: &Vec<Item>, x: Sym, g: &Grammar, f: &Vec<Vec<bool>>) -> (r: Vec<Item>)
    requires
        g@.wf(),
        shaped(g@, matrix_view(f@)),
        items_ok(g@, items@),
    ensures
        is_closure(g@, matrix_view(f@), moved(g@, items@.to_set(), x), r@.to_set()),
        items_ok(g@, r@),
{
    let ghost gv = g@;
    let mut kernel: Vec<Item> = Vec::new();
    let mut k: usize = 0;
    while k < items.len()
        invariant
            gv == g@,
            gv.wf(),
            items_ok(gv, items@),
            k <= items@.len(),
            items_ok(gv, kernel@),
            forall|y: Item|
                #[trigger] kernel@.contains(y) <==> exists|j: int|
                    0 <= j < k && next_is(gv, items@[j], x) && y == advance(items@[j]),
        decreases items@.len() - k,
    {
        let it = items[k];
        assert(item_ok(gv, it));
        let rhs = &g.rules[it.nt][it.prod];
        if it.dot < rhs.len() && rhs[it.dot] == x {
            let moved_item = Item { dot: it.dot + 1, ..it };
            let ghost before = kernel@;
            kernel.push(moved_item);
            proof {
                assert forall|y: Item|
                    #[trigger] kernel@.contains(y) <==> exists|j: int|
                        0 <= j < k + 1 && next_is(gv, items@[j], x) && y == advance(items@[j]) by {
                    if kernel@.contains(y) && y != moved_item {
                        let m = choose|m: int| 0 <= m < kernel@.len() && kernel@[m] == y;
                        assert(before[m] == y);
                        assert(before.contains(y));
                    }
                    if exists|j: int|
                        0 <= j < k + 1 && next_is(gv, items@[j], x) && y == advance(items@[j]) {
                        if y != moved_item {
                            assert(before.contains(y));
                            let m = choose|m: int| 0 <= m < before.len() && before[m] == y;
                            assert(kernel@[m] == y);
                        } else {
                            assert(kernel@[kernel@.len() - 1] == y);
                        }
                    }
                }
            }
        }
        k = k + 1;
    }
    proof {
        assert(kernel@.to_set() =~= moved(gv, items@.to_set(), x)) by {
            assert forall|y: Item| #[trigger] moved(gv, items@.to_set(), x).contains(y) implies kernel@.contains(y) by {
                let it = choose|it: Item|
                    #[trigger] items@.to_set().contains(it) && next_is(gv, it, x) && y == advance(it);
                let j = choose|j: int| 0 <= j < items@.len() && items@[j] == it;
                assert(next_is(gv, items@[j], x));
            }
            assert forall|y: Item| kernel@.contains(y) implies #[trigger] moved(gv, items@.to_set(), x).contains(y) by {
                let j = choose|j: int|
                    0 <= j < k && next_is(gv, items@[j], x) && y == advance(items@[j]);
                assert(items@.to_set().contains(items@[j]));
            }
        }
    }
    closure(&mut kernel, g, f);
    kernel
}

fn contains_item(v: &Vec<Item>, x: Item) -> (r: bool)
    ensures
        r == v@.contains(x),
{
    let mut i: usize = 0;
    while i < v.len()
        invariant
            i <= v@.len(),
            forall|j: int| 0 <= j < i ==> v@[j] != x,
        decreases v@.len() - i,
    {
        if v[i] == x {
            return true;
        }
        i = i + 1;
    }
    false
}

fn subset_items(a: &Vec<Item>, b: &Vec<Item>) -> (r: bool)
    ensures
        r == a@.to_set().subset_of(b@.to_set()),
{
    let mut i: usize = 0;
    while i < a.len()
        invariant
            i <= a@.len(),
            forall|j: int| 0 <= j < i ==> b@.contains(#[trigger] a@[j]),
        decreases a@.len() - i,
    {
        if !contains_item(b, a[i]) {
            assert(a@.to_set().contains(a@[i as int]));
            return false;
        }
        i = i + 1;
    }
    proof {
        assert forall|x: Item| a@.to_set().contains(x) implies b@.to_set().contains(x) by {
            let j = choose|j: int| 0 <= j < a@.len() && a@[j] == x;
            assert(b@.contains(a@[j]));
        }
    }
    true
}

/// Whether `a` and `b` hold the same items, in any order.
fn same_items(a: &Vec<Item>, b: &Vec<Item>) -> (r: bool)
    ensures
        r == (a@.to_set() == b@.to_set()),
{
    let r = subset_items(a, b) && subset_items(b, a);
    proof {
        if r {
            assert(a@.to_set() =~= b@.to_set());
        }
    }
    r
}

/// The first state of `cc` that holds the same items as `items`.
fn find(cc: &Vec<Vec<Item>>, items: &Vec<Item>) -> (r: Option<usize>)
    ensures
        r is Some ==> r->0 < cc@.len() && cc@[r->0 as int]@.to_set() == items@.to_set(),
        r is Some ==> forall|k: int| 0 <= k < r->0 ==> (#[trigger] cc@[k])@.to_set() != items@.to_set(),
        r is None ==> forall|k: int| 0 <= k < cc@.len() ==> (#[trigger] cc@[k])@.to_set() != items@.to_set(),
{
    let mut i: usize = 0;
    while i < cc.len()
        invariant
            i <= cc@.len(),
            forall|k: int| 0 <= k < i ==> (#[trigger] cc@[k])@.to_set() != items@.to_set(),
        decreases cc@.len() - i,
    {
        if same_items(&cc[i], items) {
            return Some(i);
        }
        i = i + 1;
    }
    None
}

fn copy_items(v: &Vec<Item>) -> (r: Vec<Item>)
    ensures
        r@ == v@,
{
    let mut r: Vec<Item> = Vec::new();
    let mut i: usize = 0;
    while i < v.len()
        invariant
            i <= v@.len(),
            r@ == v@.take(i as int),
        decreases v@.len() - i,
    {
        r.push(v[i]);
        i = i + 1;
        assert(r@ =~= v@.take(i as int));
    }
    assert(v@.take(i as int) =~= v@);
    r
}

/// The kernel of the first state: `[S' -> · start, end of input]`.
pub open spec fn init_kernel(g: GrammarV) -> Set<Item> {
    set![Item { nt: g.start as usize, prod: 0, dot: 0, lookahead: g.n_t as usize }]
}

/// The symbol of transfer column `col`.
pub open spec fn col_sym(g: GrammarV, col: int) -> Sym {
    if col < g.n_t {
        Sym::T(col as usize)
    } else {
        Sym::N((col - g.n_t) as usize)
    }
}

pub open spec fn n_cols(g: GrammarV) -> nat {
    g.n_t + g.n_nt()
}

/// Some item of `s` has `x` after its dot.
pub open spec fn has_next(g: GrammarV, s: Seq<Item>, x: Sym) -> bool {
    exists|j: int| 0 <= j < s.len() && #[trigger] next_is(g, s[j], x)
}

pub open spec fn table_view(t: Seq<Vec<Option<usize>>>) -> Seq<Seq<Option<usize>>> {
    t.map_values(|r: Vec<Option<usize>>| r@)
}

/// `tr[i][col] == Some(j)` is a correct transfer: state `j` is goto of state `i` on the column's symbol.
pub open spec fn transfer_ok(g: GrammarV, f: Seq<Seq<bool>>, cc: Seq<Seq<Item>>, i: int, col: int, j: Option<usize>) -> bool {
    j is Some ==> {
        &&& j->0 < cc.len()
        &&& is_closure(g, f, moved(g, cc[i].to_set(), col_sym(g, col)), cc[j->0 as int].to_set())
    }
}

/// State `i` is the first state with a transfer into state `j`.
pub open spec fn first_parent(tr: Seq<Seq<Option<usize>>>, j: int, i: int) -> bool {
    &&& 0 <= i < tr.len()
    &&& exists|col: int| 0 <= col < tr[i].len() && #[trigger] tr[i][col] == Some(j as usize)
    &&& forall|i2: int, col: int| 0 <= i2 < i && 0 <= col < tr[i2].len() ==> #[trigger] tr[i2][col] != Some(j as usize)
}

/// Some state before `j` is the first with a transfer into it.
pub open spec fn reached_earlier(tr: Seq<Seq<Option<usize>>>, j: int) -> bool {
    exists|i: int| 0 <= i < j && #[trigger] first_parent(tr, j, i)
}

/// `cc` is a canonical collection of LR(1) item sets, and `tr` its transfer map:
/// the first state closes the start item, no two states hold the same items,
/// each state has a transfer on exactly the symbols that follow a dot in it,
/// to the state that equals goto on that symbol, no state is empty, and every
/// state but the first is reached from an earlier one, states being numbered
/// in the order of the first state that reaches them.
pub open spec fn is_collection(g: GrammarV, f: Seq<Seq<bool>>, cc: Seq<Seq<Item>>, tr: Seq<Seq<Option<usize>>>) -> bool {
    &&& cc.len() >= 1
    &&& tr.len() == cc.len()
    &&& is_closure(g, f, init_kernel(g), cc[0].to_set())
    &&& forall|i: int| 0 <= i < cc.len() ==> items_ok(g, #[trigger] cc[i])
    &&& forall|i: int, j: int| 0 <= i < cc.len() && 0 <= j < cc.len() && i != j ==> #[trigger] cc[i].to_set() != #[trigger] cc[j].to_set()
    &&& forall|i: int| 0 <= i < cc.len() ==> (#[trigger] tr[i]).len() == n_cols(g)
    &&& forall|i: int, col: int| 0 <= i < cc.len() && 0 <= col < n_cols(g) ==> (#[trigger] tr[i][col] is Some <==> has_next(g, cc[i], col_sym(g, col)))
    &&& forall|i: int, col: int| 0 <= i < cc.len() && 0 <= col < n_cols(g) ==> transfer_ok(g, f, cc, i, col, #[trigger] tr[i][col])
    &&& forall|i: int| 0 <= i < cc.len() ==> (#[trigger] cc[i]).len() > 0
    &&& forall|j: int| 0 < j < cc.len() ==> #[trigger] reached_earlier(tr, j)
    &&& forall|j1: int, j2: int, i1: int, i2: int|
        0 < j1 < j2 < cc.len() && #[trigger] first_parent(tr, j1, i1) && #[trigger] first_parent(tr, j2, i2) ==> i1 <= i2
}

fn none_row(n: usize) -> (r: Vec<Option<usize>>)
    ensures
        r@.len() == n,
        forall|c: int| 0 <= c < n ==> #[trigger] r@[c] is None,
{
    let mut r: Vec<Option<usize>> = Vec::new();
    let mut c: usize = 0;
    while c < n
        invariant
            c <= n,
            r@.len() == c,
            forall|c2: int| 0 <= c2 < c ==> #[trigger] r@[c2] is None,
        decreases n - c,
    {
        r.push(None);
        c = c + 1;
    }
    r
}

/// Sets `t[i][col]` to `Some(j)`.
fn set_transfer(t: &mut Vec<Vec<Option<usize>>>, i: usize, col: usize, j: usize)
    requires
        i < old(t)@.len(),
        col < old(t)@[i as int]@.len(),
    ensures
        table_view(final(t)@) == table_view(old(t)@).update(i as int, table_view(old(t)@)[i as int].update(col as int, Some(j))),
{
    let ghost t0 = table_view(t@);
    t[i].set(col, Some(j));
    proof {
        assert(t@[i as int]@ =~= t0[i as int].update(col as int, Some(j)));
        assert(table_view(t@) =~= t0.update(i as int, t0[i as int].update(col as int, Some(j))));
    }
}

pub open spec fn cc_view(cc: Seq<Vec<Item>>) -> Seq<Seq<Item>> {
    cc.map_values(|v: Vec<Item>| v@)
}

/// The canonical collection of LR(1) item sets of the augmented grammar `g`,
/// with its transfer map. Every state but the first is reached from an earlier
/// one, and states are numbered in the order of the first state that reaches
/// them (states are processed first to last).
pub fn build_cc(g: &Grammar, f: &Vec<Vec<bool>>) -> (r: (Vec<Vec<Item>>, Vec<Vec<Option<usize>>>))
    requires
        g@.wf(),
        g@.rules[g@.start as int].len() == 1,
        g@.n_t + g@.n_nt() <= usize::MAX,
        shaped(g@, matrix_view(f@)),
    ensures
        is_collection(g@, matrix_view(f@), cc_view(r.0@), table_view(r.1@)),
{
    let ghost gv = g@;
    let ghost fv = matrix_view(f@);
    let width = g.n_terminals + g.rules.len();
    let mut seed: Vec<Item> = Vec::new();
    seed.push(Item { nt: g.start, prod: 0, dot: 0, lookahead: g.n_terminals });
    proof {
        let it0 = Item { nt: gv.start as usize, prod: 0, dot: 0, lookahead: gv.n_t as usize };
        assert(seed@[0] == it0);
        assert forall|x: Item| #[trigger] seed@.to_set().contains(x) <==> init_kernel(gv).contains(x) by {
            if x == it0 {
                assert(seed@.contains(x));
            }
        }
        assert(seed@.to_set() =~= init_kernel(gv));
        assert(items_ok(gv, seed@));
    }
    closure(&mut seed, g, f);
    let mut cc: Vec<Vec<Item>> = Vec::new();
    cc.push(seed);
    let mut tr: Vec<Vec<Option<usize>>> = Vec::new();
    tr.push(none_row(width));
    let ghost mut par: Seq<int> = seq![0int];
    let ghost mut pcol: Seq<int> = seq![0int];
    proof {
        assert(cc_view(cc@)[0] == seed@);
        let it0 = Item { nt: gv.start as usize, prod: 0, dot: 0, lookahead: gv.n_t as usize };
        assert(init_kernel(gv).contains(it0));
        assert(seed@.to_set().contains(it0));
    }
    let mut i: usize = 0;
    while i < cc.len()
        invariant
            gv == g@,
            fv == matrix_view(f@),
            gv.wf(),
            shaped(gv, fv),
            width == n_cols(gv),
            i <= cc@.len(),
            cc@.len() >= 1,
            cc@.len() <= usize::MAX,
            tr@.len() == cc@.len(),
            is_closure(gv, fv, init_kernel(gv), cc_view(cc@)[0].to_set()),
            forall|s: int| 0 <= s < cc@.len() ==> items_ok(gv, #[trigger] cc_view(cc@)[s]),
            forall|s: int, t: int| 0 <= s < cc@.len() && 0 <= t < cc@.len() && s != t ==> #[trigger] cc_view(cc@)[s].to_set() != #[trigger] cc_view(cc@)[t].to_set(),
            forall|s: int| 0 <= s < cc@.len() ==> (#[trigger] table_view(tr@)[s]).len() == width,
            forall|s: int, col: int| 0 <= s < i && 0 <= col < width ==> (#[trigger] table_view(tr@)[s][col] is Some <==> has_next(gv, cc_view(cc@)[s], col_sym(gv, col))),
            forall|s: int, col: int| i <= s < cc@.len() && 0 <= col < width ==> #[trigger] table_view(tr@)[s][col] is None,
            forall|s: int, col: int| 0 <= s < cc@.len() && 0 <= col < width ==> transfer_ok(gv, fv, cc_view(cc@), s, col, #[trigger] table_view(tr@)[s][col]),
            forall|s: int| 0 <= s < cc@.len() ==> (#[trigger] cc_view(cc@)[s]).len() > 0,
            par.len() == cc@.len(),
            pcol.len() == cc@.len(),
            forall|j: int| 0 < j < cc@.len() ==> 0 <= #[trigger] par[j] < j && par[j] <= i && 0 <= pcol[j] < width
                && table_view(tr@)[par[j]][pcol[j]] == Some(j as usize),
            forall|j: int, s: int, col: int| 0 < j < cc@.len() && 0 <= s < #[trigger] par[j] && 0 <= col < width
                ==> #[trigger] table_view(tr@)[s][col] != Some(j as usize),
            forall|j1: int, j2: int| 0 < j1 < j2 < cc@.len() ==> #[trigger] par[j1] <= #[trigger] par[j2],
        decreases usize::MAX - cc@.len(), cc@.len() - i,
    {
        let items = copy_items(&cc[i]);
        let ghost len0 = cc@.len();
        assert(items@ == cc_view(cc@)[i as int]);
        let mut k: usize = 0;
        while k < items.len()
            invariant
                gv == g@,
                fv == matrix_view(f@),
                gv.wf(),
                shaped(gv, fv),
                width == n_cols(gv),
                i < cc@.len(),
                len0 <= cc@.len(),
                cc@.len() <= usize::MAX,
                k <= items@.len(),
                items@ == cc_view(cc@)[i as int],
                items_ok(gv, items@),
                tr@.len() == cc@.len(),
                is_closure(gv, fv, init_kernel(gv), cc_view(cc@)[0].to_set()),
                forall|s: int| 0 <= s < cc@.len() ==> items_ok(gv, #[trigger] cc_view(cc@)[s]),
                forall|s: int, t: int| 0 <= s < cc@.len() && 0 <= t < cc@.len() && s != t ==> #[trigger] cc_view(cc@)[s].to_set() != #[trigger] cc_view(cc@)[t].to_set(),
                forall|s: int| 0 <= s < cc@.len() ==> (#[trigger] table_view(tr@)[s]).len() == width,
                forall|s: int, col: int| 0 <= s < i && 0 <= col < width ==> (#[trigger] table_view(tr@)[s][col] is Some <==> has_next(gv, cc_view(cc@)[s], col_sym(gv, col))),
                forall|col: int| 0 <= col < width ==> (#[trigger] table_view(tr@)[i as int][col] is Some <==> exists|j: int| 0 <= j < k && #[trigger] next_is(gv, items@[j], col_sym(gv, col))),
                forall|s: int, col: int| i < s < cc@.len() && 0 <= col < width ==> #[trigger] table_view(tr@)[s][col] is None,
            forall|s: int, col: int| 0 <= s < cc@.len() && 0 <= col < width ==> transfer_ok(gv, fv, cc_view(cc@), s, col, #[trigger] table_view(tr@)[s][col]),
                forall|s: int| 0 <= s < cc@.len() ==> (#[trigger] cc_view(cc@)[s]).len() > 0,
                par.len() == cc@.len(),
                pcol.len() == cc@.len(),
                forall|j: int| 0 < j < cc@.len() ==> 0 <= #[trigger] par[j] < j && par[j] <= i && 0 <= pcol[j] < width
                    && table_view(tr@)[par[j]][pcol[j]] == Some(j as usize),
                forall|j: int, s: int, col: int| 0 < j < cc@.len() && 0 <= s < #[trigger] par[j] && 0 <= col < width
                    ==> #[trigger] table_view(tr@)[s][col] != Some(j as usize),
                forall|j1: int, j2: int| 0 < j1 < j2 < cc@.len() ==> #[trigger] par[j1] <= #[trigger] par[j2],
            decreases items@.len() - k,
        {
            let it = items[k];
            assert(item_ok(gv, it));
            let rhs = &g.rules[it.nt][it.prod];
            let next = if it.dot < rhs.len() {
                rhs[it.dot]
            } else {
                Sym::Eps
            };
            let col: usize = match next {
                Sym::T(t) => t,
                Sym::N(b) => g.n_terminals + b,
                Sym::Eps => width,
            };
            proof {
                if next != Sym::Eps {
                    assert(gv.sym_ok(gv.rules[it.nt as int][it.prod as int][it.dot as int]));
                    assert(next_is(gv, it, next));
                    assert(col < width);
                    assert(col_sym(gv, col as int) == next);
                }
            }
            if col < width && tr[i][col].is_none() {
                let target = goto(&items, next, g, f);
                let ghost cc_before = cc_view(cc@);
                let ghost tr_before = table_view(tr@);
                proof {
                    assert(items@.to_set().contains(it));
                    assert(moved(gv, items@.to_set(), next).contains(advance(it)));
                    assert(target@.to_set().contains(advance(it)));
                    assert(tr_before[i as int][col as int] is None);
                }
                match find(&cc, &target) {
                    Some(j) => {
                        proof {
                            assert(cc_view(cc@)[j as int] == cc@[j as int]@);
                        }
                        set_transfer(&mut tr, i, col, j);
                        assert(tr@.len() == table_view(tr@).len());
                        proof {
                            assert forall|j2: int| 0 < j2 < cc@.len() implies 0 <= #[trigger] par[j2] < j2 && par[j2] <= i && 0 <= pcol[j2] < width
                                && table_view(tr@)[par[j2]][pcol[j2]] == Some(j2 as usize) by {
                                assert(tr_before[par[j2]][pcol[j2]] == Some(j2 as usize));
                            }
                            assert forall|j2: int, s2: int, col2: int| 0 < j2 < cc@.len() && 0 <= s2 < #[trigger] par[j2] && 0 <= col2 < width
                                implies #[trigger] table_view(tr@)[s2][col2] != Some(j2 as usize) by {
                                assert(tr_before[s2][col2] != Some(j2 as usize));
                            }
                        }
                    },
                    None => {
                        let row = none_row(width);
                        cc.push(target);
                        tr.push(row);
                        let j = cc.len() - 1;
                        proof {
                            assert(cc_view(cc@) =~= cc_before.push(target@));
                            assert(table_view(tr@) =~= tr_before.push(row@));
                            assert forall|s: int| 0 <= s < cc_before.len() implies (#[trigger] cc_view(cc@)[s]).to_set() != target@.to_set() by {
                                assert(cc@[s]@.to_set() != target@.to_set());
                            }
                        }
                        set_transfer(&mut tr, i, col, j);
                        assert(tr@.len() == table_view(tr@).len());
                        proof {
                            let par0 = par;
                            let pcol0 = pcol;
                            par = par.push(i as int);
                            pcol = pcol.push(col as int);
                            assert forall|j2: int| 0 < j2 < cc@.len() implies 0 <= #[trigger] par[j2] < j2 && par[j2] <= i && 0 <= pcol[j2] < width
                                && table_view(tr@)[par[j2]][pcol[j2]] == Some(j2 as usize) by {
                                if j2 < j {
                                    assert(par[j2] == par0[j2]);
                                    assert(tr_before[par[j2]][pcol[j2]] == Some(j2 as usize));
                                }
                            }
                            assert forall|j2: int, s2: int, col2: int| 0 < j2 < cc@.len() && 0 <= s2 < #[trigger] par[j2] && 0 <= col2 < width
                                implies #[trigger] table_view(tr@)[s2][col2] != Some(j2 as usize) by {
                                if j2 < j {
                                    assert(par[j2] == par0[j2]);
                                    assert(tr_before[s2][col2] != Some(j2 as usize));
                                } else {
                                    assert(table_view(tr@)[s2][col2] == tr_before[s2][col2]);
                                    if tr_before[s2][col2] is Some {
                                        assert(transfer_ok(gv, fv, cc_before, s2, col2, tr_before[s2][col2]));
                                    }
                                }
                            }
                            assert forall|j1: int, j2: int| 0 < j1 < j2 < cc@.len() implies #[trigger] par[j1] <= #[trigger] par[j2] by {
                                if j2 < j {
                                    assert(par[j1] == par0[j1] && par[j2] == par0[j2]);
                                } else {
                                    assert(par[j1] == par0[j1]);
                                }
                            }
                        }
                    },
                }
                proof {
                    assert forall|col2: int| 0 <= col2 < width implies (#[trigger] table_view(tr@)[i as int][col2] is Some <==> exists|j: int| 0 <= j < k + 1 && #[trigger] next_is(gv, items@[j], col_sym(gv, col2))) by {
                        if col2 == col {
                            assert(next_is(gv, items@[k as int], col_sym(gv, col2)));
                        }
                    }
                }
            } else {
                proof {
                    assert forall|col2: int| 0 <= col2 < width implies (#[trigger] table_view(tr@)[i as int][col2] is Some <==> exists|j: int| 0 <= j < k + 1 && #[trigger] next_is(gv, items@[j], col_sym(gv, col2))) by {
                        if next_is(gv, items@[k as int], col_sym(gv, col2)) {
                            assert(col_sym(gv, col2) == next);
                            assert(col2 == col);
                        }
                    }
                }
            }
            k = k + 1;
        }
        proof {
            assert forall|col: int| 0 <= col < width implies (#[trigger] table_view(tr@)[i as int][col] is Some <==> has_next(gv, cc_view(cc@)[i as int], col_sym(gv, col))) by {
            }
        }
        i = i + 1;
    }
    proof {
        let t = table_view(tr@);
        assert forall|j: int| 0 < j < cc@.len() implies #[trigger] reached_earlier(t, j) by {
            assert(t[par[j]][pcol[j]] == Some(j as usize));
            assert(first_parent(t, j, par[j]));
        }
        assert forall|j1: int, j2: int, i1: int, i2: int|
            0 < j1 < j2 < cc@.len() && #[trigger] first_parent(t, j1, i1) && #[trigger] first_parent(t, j2, i2) implies i1 <= i2 by {
            assert(par[j1] <= par[j2]);
            assert(t[par[j1]][pcol[j1]] == Some(j1 as usize));
            assert(t[par[j2]][pcol[j2]] == Some(j2 as usize));
            if i1 < par[j1] {
                let c1 = choose|col: int| 0 <= col < t[i1].len() && #[trigger] t[i1][col] == Some(j1 as usize);
            }
            if i1 > par[j1] {
                assert(t[par[j1]][pcol[j1]] != Some(j1 as usize));
            }
            if i2 < par[j2] {
                let c2 = choose|col: int| 0 <= col < t[i2].len() && #[trigger] t[i2][col] == Some(j2 as usize);
            }
            if i2 > par[j2] {
                assert(t[par[j2]][pcol[j2]] != Some(j2 as usize));
            }
        }
    }
    (cc, tr)
}

/// An entry of the ACTION table.
#[derive(Debug, Clone, Copy, PartialEq, Eq, Structural)]
pub enum Action {
    /// Reduce by production `.1` of non-terminal `.0`.
    Reduce(usize, usize),
    /// Shift the token and go to the state.
    Shift(usize),
    Accept,
}

/// What can go wrong in table construction or recognition.
#[derive(Debug, Clone, Copy, PartialEq, Eq)]
pub enum Error {
    /// The grammar cannot be put in indexed form.
    GrammarMalformed,
    /// A state would both shift and reduce on a terminal: `first` is the entry
    /// an earlier item of the state asks for, `second` the competing one.
    ShiftReduceConflict { state: usize, terminal: usize, first: Action, second: Action },
    /// A state would reduce by two productions (or reduce and accept) on a
    /// terminal: `first` and `second` name the competing entries.
    ReduceReduceConflict { state: usize, terminal: usize, first: Action, second: Action },
    /// The input is not in the language; `position` is the token reached.
    ParseReject { position: usize, state: usize },
    /// The tables are inconsistent with the stack.
    Internal,
    /// The recognizer ran out of steps.
    StepLimit,
}

/// The cell and the entry that item `it` of a state asks for, given the
/// state's transfer row.
pub open spec fn item_action(g: GrammarV, row: Seq<Option<usize>>, it: Item) -> Option<(int, Action)> {
    let rhs = rhs_of(g, it);
    if it.dot >= rhs.len() {
        Some(
            (
                it.lookahead as int,
                if it.nt == g.start {
                    Action::Accept
                } else {
                    Action::Reduce(it.nt, it.prod)
                },
            ),
        )
    } else if rhs[it.dot as int] is T {
        let t = rhs[it.dot as int]->T_0;
        match row[t as int] {
            Some(j) => Some((t as int, Action::Shift(j))),
            None => None,
        }
    } else {
        None
    }
}

/// The row holds the entry asked for.
pub open spec fn entry_in_row(row: Seq<Option<Action>>, e: Option<(int, Action)>) -> bool {
    match e {
        Some((c, a)) => row[c] == Some(a),
        None => true,
    }
}

/// Some item of state `i` asks for `a` in column `c`.
pub open spec fn wants(g: GrammarV, cc: Seq<Seq<Item>>, tr: Seq<Seq<Option<usize>>>, i: int, c: int, a: Action) -> bool {
    exists|k: int| 0 <= k < cc[i].len() && #[trigger] item_action(g, tr[i], cc[i][k]) == Some((c, a))
}

/// Items `k1` and `k2` of state `i` ask for different entries in one cell.
pub open spec fn items_clash(g: GrammarV, cc: Seq<Seq<Item>>, tr: Seq<Seq<Option<usize>>>, i: int, k1: int, k2: int) -> bool {
    match (item_action(g, tr[i], cc[i][k1]), item_action(g, tr[i], cc[i][k2])) {
        (Some((c1, a1)), Some((c2, a2))) => c1 == c2 && a1 != a2,
        _ => false,
    }
}

/// No cell of state `i` is asked for two different entries.
pub open spec fn row_conflict_free(g: GrammarV, cc: Seq<Seq<Item>>, tr: Seq<Seq<Option<usize>>>, i: int) -> bool {
    forall|c: int, a1: Action, a2: Action|
        #[trigger] wants(g, cc, tr, i, c, a1) && #[trigger] wants(g, cc, tr, i, c, a2) ==> a1 == a2
}

/// Cell `(i, c)` holds the first conflict, taking states in order and the
/// items of a state in order: every earlier state is conflict-free, an item
/// asks for `a1`, a later one for `a2 != a1`, and no two items before the
/// later one clash; `shift` says whether one of the entries is a shift.
pub open spec fn first_conflict(
    g: GrammarV,
    cc: Seq<Seq<Item>>,
    tr: Seq<Seq<Option<usize>>>,
    i: int,
    c: int,
    a1: Action,
    a2: Action,
    shift: bool,
) -> bool {
    &&& 0 <= i < cc.len()
    &&& a1 != a2
    &&& shift == (a1 is Shift || a2 is Shift)
    &&& forall|i2: int| 0 <= i2 < i ==> #[trigger] row_conflict_free(g, cc, tr, i2)
    &&& exists|k1: int, k2: int|
        0 <= k1 < k2 < cc[i].len() && #[trigger] item_action(g, tr[i], cc[i][k1]) == Some((c, a1))
            && #[trigger] item_action(g, tr[i], cc[i][k2]) == Some((c, a2))
            && forall|m1: int, m2: int| 0 <= m1 < m2 < k2 ==> !#[trigger] items_clash(g, cc, tr, i, m1, m2)
}

/// No cell is asked for two different entries.
pub open spec fn conflict_free(g: GrammarV, cc: Seq<Seq<Item>>, tr: Seq<Seq<Option<usize>>>) -> bool {
    forall|i: int, c: int, a1: Action, a2: Action|
        0 <= i < cc.len() && #[trigger] wants(g, cc, tr, i, c, a1) && #[trigger] wants(g, cc, tr, i, c, a2) ==> a1 == a2
}

/// `act` holds in each cell the entry its state asks for there, and nothing where none is asked.
pub open spec fn action_ok(g: GrammarV, cc: Seq<Seq<Item>>, tr: Seq<Seq<Option<usize>>>, act: Seq<Seq<Option<Action>>>) -> bool {
    &&& act.len() == cc.len()
    &&& forall|i: int| 0 <= i < cc.len() ==> (#[trigger] act[i]).len() == g.n_t + 1
    &&& forall|i: int, c: int|
        0 <= i < cc.len() && 0 <= c <= g.n_t && #[trigger] act[i][c] is Some ==> wants(g, cc, tr, i, c, act[i][c]->0)
    &&& forall|i: int, c: int, a: Action|
        0 <= i < cc.len() && #[trigger] wants(g, cc, tr, i, c, a) ==> act[i][c] == Some(a)
}

/// `gt[i][b]` is the transfer of state `i` on non-terminal `b`.
pub open spec fn goto_ok(g: GrammarV, tr: Seq<Seq<Option<usize>>>, gt: Seq<Seq<Option<usize>>>) -> bool {
    &&& gt.len() == tr.len()
    &&& forall|i: int| 0 <= i < gt.len() ==> (#[trigger] gt[i]).len() == g.n_nt()
    &&& forall|i: int, b: int| 0 <= i < gt.len() && 0 <= b < g.n_nt() ==> #[trigger] gt[i][b] == tr[i][g.n_t + b]
}

pub open spec fn action_view(t: Seq<Vec<Option<Action>>>) -> Seq<Seq<Option<Action>>> {
    t.map_values(|r: Vec<Option<Action>>| r@)
}

/// ACTION and GOTO tables from a canonical collection.
fn fill_tables(g: &Grammar, cc: &Vec<Vec<Item>>, tr: &Vec<Vec<Option<usize>>>) -> (r: Result<(Vec<Vec<Option<Action>>>, Vec<Vec<Option<usize>>>), Error>)
    requires
        g@.wf(),
        g@.n_t + g@.n_nt() <= usize::MAX,
        cc@.len() == tr@.len(),
        forall|i: int| 0 <= i < cc@.len() ==> items_ok(g@, #[trigger] cc_view(cc@)[i]),
        forall|i: int| 0 <= i < cc@.len() ==> (#[trigger] table_view(tr@)[i]).len() == n_cols(g@),
    ensures
        r is Ok <==> conflict_free(g@, cc_view(cc@), table_view(tr@)),
        r is Ok ==> action_ok(g@, cc_view(cc@), table_view(tr@), action_view(r->Ok_0.0@))
            && goto_ok(g@, table_view(tr@), table_view(r->Ok_0.1@)),
        r is Err ==> match r->Err_0 {
            Error::ShiftReduceConflict { state, terminal, first, second } => first_conflict(
                g@, cc_view(cc@), table_view(tr@), state as int, terminal as int, first, second, true),
            Error::ReduceReduceConflict { state, terminal, first, second } => first_conflict(
                g@, cc_view(cc@), table_view(tr@), state as int, terminal as int, first, second, false),
            _ => false,
        },
{
    let ghost gv = g@;
    let ghost ccv = cc_view(cc@);
    let ghost trv = table_view(tr@);
    let n_t = g.n_terminals;
    let mut action: Vec<Vec<Option<Action>>> = Vec::new();
    let mut gt: Vec<Vec<Option<usize>>> = Vec::new();
    let mut i: usize = 0;
    while i < cc.len()
        invariant
            gv == g@,
            ccv == cc_view(cc@),
            trv == table_view(tr@),
            gv.wf(),
            n_t == gv.n_t,
            gv.n_t + gv.n_nt() <= usize::MAX,
            cc@.len() == tr@.len(),
            forall|i2: int| 0 <= i2 < cc@.len() ==> items_ok(gv, #[trigger] ccv[i2]),
            forall|i2: int| 0 <= i2 < cc@.len() ==> (#[trigger] trv[i2]).len() == n_cols(gv),
            i <= cc@.len(),
            action@.len() == i,
            gt@.len() == i,
            forall|i2: int| 0 <= i2 < i ==> (#[trigger] action_view(action@)[i2]).len() == gv.n_t + 1,
            forall|i2: int, c: int|
                0 <= i2 < i && 0 <= c <= gv.n_t && #[trigger] action_view(action@)[i2][c] is Some ==> wants(gv, ccv, trv, i2, c, action_view(action@)[i2][c]->0),
            forall|i2: int, c: int, a: Action|
                0 <= i2 < i && #[trigger] wants(gv, ccv, trv, i2, c, a) ==> action_view(action@)[i2][c] == Some(a),
            forall|i2: int, c: int, a1: Action, a2: Action|
                0 <= i2 < i && #[trigger] wants(gv, ccv, trv, i2, c, a1) && #[trigger] wants(gv, ccv, trv, i2, c, a2) ==> a1 == a2,
            forall|i2: int| 0 <= i2 < i ==> #[trigger] row_conflict_free(gv, ccv, trv, i2),
            forall|i2: int| 0 <= i2 < i ==> (#[trigger] table_view(gt@)[i2]).len() == gv.n_nt(),
            forall|i2: int, b: int| 0 <= i2 < i && 0 <= b < gv.n_nt() ==> #[trigger] table_view(gt@)[i2][b] == trv[i2][gv.n_t + b],
        decreases cc@.len() - i,
    {
        let items = &cc[i];
        let trow = &tr[i];
        assert(items@ == ccv[i as int]);
        assert(trow@ == trv[i as int]);
        let mut row: Vec<Option<Action>> = Vec::new();
        let mut c: usize = 0;
        while c <= n_t
            invariant
                c <= n_t + 1,
                n_t + 1 <= usize::MAX,
                row@.len() == c,
                forall|c2: int| 0 <= c2 < c ==> #[trigger] row@[c2] is None,
            decreases n_t + 1 - c,
        {
            row.push(None);
            c = c + 1;
        }
        let mut k: usize = 0;
        while k < items.len()
            invariant
                gv == g@,
                gv.wf(),
                ccv == cc_view(cc@),
                trv == table_view(tr@),
                i < cc@.len(),
                n_t == gv.n_t,
                gv.n_t + gv.n_nt() <= usize::MAX,
                items@ == ccv[i as int],
                trow@ == trv[i as int],
                trow@.len() == n_cols(gv),
                items_ok(gv, items@),
                k <= items@.len(),
                row@.len() == gv.n_t + 1,
                forall|c2: int|
                    0 <= c2 <= gv.n_t && #[trigger] row@[c2] is Some ==> exists|k2: int|
                        0 <= k2 < k && #[trigger] item_action(gv, trow@, items@[k2]) == Some((c2, row@[c2]->0)),
                forall|k2: int|
                    0 <= k2 < k ==> entry_in_row(row@, #[trigger] item_action(gv, trow@, items@[k2])),
                forall|m1: int, m2: int| 0 <= m1 < m2 < k ==> !#[trigger] items_clash(gv, ccv, trv, i as int, m1, m2),
                forall|i2: int| 0 <= i2 < i ==> #[trigger] row_conflict_free(gv, ccv, trv, i2),
            decreases items@.len() - k,
        {
            let it = items[k];
            assert(item_ok(gv, it));
            let rhs = &g.rules[it.nt][it.prod];
            let mut entry: Option<(usize, Action)> = None;
            if it.dot >= rhs.len() {
                let a = if it.nt == g.start {
                    Action::Accept
                } else {
                    Action::Reduce(it.nt, it.prod)
                };
                entry = Some((it.lookahead, a));
            } else {
                match rhs[it.dot] {
                    Sym::T(t) => {
                        assert(gv.sym_ok(gv.rules[it.nt as int][it.prod as int][it.dot as int]));
                        match trow[t] {
                            Some(j) => {
                                entry = Some((t, Action::Shift(j)));
                            },
                            None => {},
                        }
                    },
                    _ => {},
                }
            }
            assert(match entry {
                Some((c0, a0)) => item_action(gv, trow@, it) == Some((c0 as int, a0)) && c0 <= gv.n_t,
                None => item_action(gv, trow@, it) is None,
            });
            let ghost row0 = row@;
            match entry {
                Some((c0, a0)) => {
                    match row[c0] {
                        Some(old) => {
                            if old != a0 {
                                proof {
                                    let k2 = choose|k2: int| 0 <= k2 < k && #[trigger] item_action(gv, trow@, items@[k2]) == Some((c0 as int, row@[c0 as int]->0));
                                    assert(wants(gv, ccv, trv, i as int, c0 as int, old));
                                    assert(item_action(gv, trow@, items@[k as int]) == Some((c0 as int, a0)));
                                    assert(wants(gv, ccv, trv, i as int, c0 as int, a0));
                                    assert(!conflict_free(gv, ccv, trv));
                                }
                                let shift_involved = match (old, a0) {
                                    (Action::Shift(_), _) => true,
                                    (_, Action::Shift(_)) => true,
                                    _ => false,
                                };
                                proof {
                                    let k2 = choose|k2: int| 0 <= k2 < k && #[trigger] item_action(gv, trow@, items@[k2]) == Some((c0 as int, row@[c0 as int]->0));
                                    assert(item_action(gv, trv[i as int], ccv[i as int][k2]) == Some((c0 as int, old)));
                                    assert(item_action(gv, trv[i as int], ccv[i as int][k as int]) == Some((c0 as int, a0)));
                                    assert(first_conflict(gv, ccv, trv, i as int, c0 as int, old, a0, shift_involved));
                                }
                                if shift_involved {
                                    return Err(Error::ShiftReduceConflict { state: i, terminal: c0, first: old, second: a0 });
                                } else {
                                    return Err(Error::ReduceReduceConflict { state: i, terminal: c0, first: old, second: a0 });
                                }
                            }
                        },
                        None => {
                            row.set(c0, Some(a0));
                        },
                    }
                },
                None => {},
            }
            proof {
                assert forall|c2: int|
                    0 <= c2 <= gv.n_t && #[trigger] row@[c2] is Some implies exists|k2: int|
                        0 <= k2 < k + 1 && #[trigger] item_action(gv, trow@, items@[k2]) == Some((c2, row@[c2]->0)) by {
                    if !(exists|k2: int| 0 <= k2 < k && #[trigger] item_action(gv, trow@, items@[k2]) == Some((c2, row@[c2]->0))) {
                        assert(item_action(gv, trow@, items@[k as int]) == Some((c2, row@[c2]->0)));
                    }
                }
                assert forall|k2: int|
                    0 <= k2 < k + 1 implies entry_in_row(row@, #[trigger] item_action(gv, trow@, items@[k2])) by {
                    if k2 == k {
                        assert(items@[k2] == it);
                    }
                }
                assert forall|m1: int, m2: int| 0 <= m1 < m2 < k + 1 implies !#[trigger] items_clash(gv, ccv, trv, i as int, m1, m2) by {
                    if m2 == k {
                        assert(entry_in_row(row0, item_action(gv, trow@, items@[m1])));
                        assert(items@[m2] == it);
                    }
                }
            }
            k = k + 1;
        }
        let mut grow: Vec<Option<usize>> = Vec::new();
        let mut b: usize = 0;
        while b < g.rules.len()
            invariant
                gv == g@,
                n_t == gv.n_t,
                gv.n_t + gv.n_nt() <= usize::MAX,
                trow@ == trv[i as int],
                trow@.len() == n_cols(gv),
                b <= gv.n_nt(),
                grow@.len() == b,
                forall|b2: int| 0 <= b2 < b ==> #[trigger] grow@[b2] == trv[i as int][gv.n_t + b2],
            decreases gv.n_nt() - b,
        {
            grow.push(trow[n_t + b]);
            b = b + 1;
        }
        let ghost a0 = action@;
        let ghost g0 = gt@;
        action.push(row);
        gt.push(grow);
        proof {
            assert(action_view(action@) =~= action_view(a0).push(row@));
            assert(table_view(gt@) =~= table_view(g0).push(grow@));
            assert forall|c: int| 0 <= c <= gv.n_t && #[trigger] action_view(action@)[i as int][c] is Some implies wants(gv, ccv, trv, i as int, c, action_view(action@)[i as int][c]->0) by {
                let k2 = choose|k2: int| 0 <= k2 < k && #[trigger] item_action(gv, trow@, items@[k2]) == Some((c, row@[c]->0));
            }
            assert forall|c: int, a: Action| #[trigger] wants(gv, ccv, trv, i as int, c, a) implies action_view(action@)[i as int][c] == Some(a) by {
                let k2 = choose|k2: int| 0 <= k2 < ccv[i as int].len() && #[trigger] item_action(gv, trv[i as int], ccv[i as int][k2]) == Some((c, a));
                assert(item_action(gv, trow@, items@[k2]) == Some((c, a)));
            }
            assert forall|c: int, a1: Action, a2: Action|
                #[trigger] wants(gv, ccv, trv, i as int, c, a1) && #[trigger] wants(gv, ccv, trv, i as int, c, a2) implies a1 == a2 by {
                let k1 = choose|k2: int| 0 <= k2 < ccv[i as int].len() && #[trigger] item_action(gv, trv[i as int], ccv[i as int][k2]) == Some((c, a1));
                let k2 = choose|k2: int| 0 <= k2 < ccv[i as int].len() && #[trigger] item_action(gv, trv[i as int], ccv[i as int][k2]) == Some((c, a2));
                assert(item_action(gv, trow@, items@[k1]) == Some((c, a1)));
                assert(item_action(gv, trow@, items@[k2]) == Some((c, a2)));
            }
            assert(row_conflict_free(gv, ccv, trv, i as int));
        }
        i = i + 1;
    }
    Ok((action, gt))
}

/// Upper bound on the steps a recognizer takes before it gives up.
pub const STEP_LIMIT: usize = 4294967295;

/// The LR(1) tables of a grammar, with what they were built from.
pub struct Lr1Tables {
    /// The terminals of the grammar, in column order.
    pub terminals: Vec<Terminal>,
    /// The augmented indexed grammar.
    pub grammar: Grammar,
    /// FIRST sets of the augmented grammar.
    pub first: Vec<Vec<bool>>,
    /// The canonical collection; the index of an item set is its state.
    pub states: Vec<Vec<Item>>,
    /// `transfer[i][col]`: the state reached from `i` on the column's symbol.
    pub transfer: Vec<Vec<Option<usize>>>,
    /// `action[i][c]`: the entry for state `i` and terminal (or end of input) `c`.
    pub action: Vec<Vec<Option<Action>>>,
    /// `goto[i][b]`: the state reached from `i` after reducing to non-terminal `b`.
    pub goto: Vec<Vec<Option<usize>>>,
}

/// The tables are correct for the augmented grammar `g` built from `cfg`.
pub open spec fn lr_basis(
    cfg: crate::grammar::CfgV,
    g: GrammarV,
    f: Seq<Seq<bool>>,
    cc: Seq<Seq<Item>>,
    tr: Seq<Seq<Option<usize>>>,
) -> bool {
    &&& exists|gi: GrammarV| compiled(cfg, gi) && g == augment(gi)
    &&& is_first(g, f)
    &&& is_collection(g, f, cc, tr)
}

/// `e` names the first conflict, states and their items taken in order, of a
/// canonical collection of `cfg`, with both competing entries.
pub open spec fn lr_conflict(cfg: crate::grammar::CfgV, e: Error) -> bool {
    match e {
        Error::ShiftReduceConflict { state, terminal, first, second } => exists|g: GrammarV, f: Seq<Seq<bool>>, cc: Seq<Seq<Item>>, tr: Seq<Seq<Option<usize>>>|
            lr_basis(cfg, g, f, cc, tr) && first_conflict(g, cc, tr, state as int, terminal as int, first, second, true),
        Error::ReduceReduceConflict { state, terminal, first, second } => exists|g: GrammarV, f: Seq<Seq<bool>>, cc: Seq<Seq<Item>>, tr: Seq<Seq<Option<usize>>>|
            lr_basis(cfg, g, f, cc, tr) && first_conflict(g, cc, tr, state as int, terminal as int, first, second, false),
        _ => false,
    }
}

impl Lr1Tables {
    /// The tables hold a conflict-free ACTION table and the GOTO table for `cfg`.
    pub open spec fn valid_for(&self, cfg: crate::grammar::CfgV) -> bool {
        &&& terminals_view(self.terminals@) == cfg.ts
        &&& self.grammar@.n_t == cfg.ts.len()
        &&& lr_basis(cfg, self.grammar@, matrix_view(self.first@), cc_view(self.states@), table_view(self.transfer@))
        &&& conflict_free(self.grammar@, cc_view(self.states@), table_view(self.transfer@))
        &&& action_ok(self.grammar@, cc_view(self.states@), table_view(self.transfer@), action_view(self.action@))
        &&& goto_ok(self.grammar@, table_view(self.transfer@), table_view(self.goto@))
    }
}

/// Builds the canonical collection of `cfg` and its ACTION and GOTO tables.
pub fn build_action_and_goto_table(cfg: &CFG) -> (r: Result<Lr1Tables, Error>)
    ensures
        (r == Err::<Lr1Tables, Error>(Error::GrammarMalformed)) <==> !compilable(cfg@),
        r is Ok ==> r->Ok_0.valid_for(cfg@),
        r is Err ==> r->Err_0 == Error::GrammarMalformed || lr_conflict(cfg@, r->Err_0),
{
    let gi = match compile(cfg) {
        Some(gi) => gi,
        None => return Err(Error::GrammarMalformed),
    };
    let g = augmented(&gi);
    let f = first(&g);
    let (states, transfer) = build_cc(&g, &f);
    proof {
        assert(lr_basis(cfg@, g@, matrix_view(f@), cc_view(states@), table_view(transfer@)));
    }
    match fill_tables(&g, &states, &transfer) {
        Ok((action, goto)) => {
            let mut terminals: Vec<Terminal> = Vec::new();
            let mut k: usize = 0;
            while k < cfg.terminals.len()
                invariant
                    k <= cfg.terminals@.len(),
                    terminals@.len() == k,
                    forall|j: int| 0 <= j < k ==> #[trigger] terminals@[j]@ == cfg.terminals@[j]@,
                decreases cfg.terminals@.len() - k,
            {
                terminals.push(cfg.terminals[k].duplicate());
                k = k + 1;
            }
            assert(terminals_view(terminals@) =~= terminals_view(cfg.terminals@));
            Ok(Lr1Tables { terminals, grammar: g, first: f, states, transfer, action, goto })
        },
        Err(e) => {
            proof {
                match e {
                    Error::ShiftReduceConflict { state, terminal, first, second } => {
                        assert(lr_basis(cfg@, g@, matrix_view(f@), cc_view(states@), table_view(transfer@))
                            && first_conflict(g@, cc_view(states@), table_view(transfer@), state as int, terminal as int, first, second, true));
                    },
                    Error::ReduceReduceConflict { state, terminal, first, second } => {
                        assert(lr_basis(cfg@, g@, matrix_view(f@), cc_view(states@), table_view(transfer@))
                            && first_conflict(g@, cc_view(states@), table_view(transfer@), state as int, terminal as int, first, second, false));
                    },
                    _ => {},
                }
            }
            Err(e)
        },
    }
}

/// The outcome of one step of the shift/reduce recognizer.
pub enum LrStep {
    Accept,
    Reject(int, int),
    Fault,
    Next(Seq<usize>, int),
}

/// The column of the token at `pos`: end of input past the last token.
pub open spec fn cur_col(input: Seq<usize>, pos: int, eof: int) -> int {
    if 0 <= pos < input.len() {
        input[pos] as int
    } else {
        eof
    }
}

pub open spec fn cell<T>(m: Seq<Seq<Option<T>>>, i: int, c: int) -> Option<T> {
    if 0 <= i < m.len() && 0 <= c < m[i].len() {
        m[i][c]
    } else {
        None
    }
}

/// One step of the recognizer: the stack holds states, the top last.
pub open spec fn lr_step(
    g: GrammarV,
    act: Seq<Seq<Option<Action>>>,
    gt: Seq<Seq<Option<usize>>>,
    stack: Seq<usize>,
    input: Seq<usize>,
    pos: int,
) -> LrStep {
    if stack.len() == 0 {
        LrStep::Fault
    } else {
        let s = stack.last() as int;
        match cell(act, s, cur_col(input, pos, g.n_t as int)) {
            None => LrStep::Reject(pos, s),
            Some(Action::Accept) => LrStep::Accept,
            Some(Action::Shift(j)) => LrStep::Next(stack.push(j), pos + 1),
            Some(Action::Reduce(a, p)) => {
                if a < g.n_nt() && p < g.rules[a as int].len() && g.rules[a as int][p as int].len() < stack.len() {
                    let rest = stack.subrange(0, stack.len() - g.rules[a as int][p as int].len());
                    match cell(gt, rest.last() as int, a as int) {
                        Some(j) => LrStep::Next(rest.push(j), pos),
                        None => LrStep::Fault,
                    }
                } else {
                    LrStep::Fault
                }
            },
        }
    }
}

/// At most `fuel` steps of the recognizer; `Next` when the steps ran out.
pub open spec fn lr_run(
    g: GrammarV,
    act: Seq<Seq<Option<Action>>>,
    gt: Seq<Seq<Option<usize>>>,
    stack: Seq<usize>,
    input: Seq<usize>,
    pos: int,
    fuel: nat,
) -> LrStep
    decreases fuel,
{
    if fuel == 0 {
        LrStep::Next(stack, pos)
    } else {
        match lr_step(g, act, gt, stack, input, pos) {
            LrStep::Next(st, p) => lr_run(g, act, gt, st, input, p, (fuel - 1) as nat),
            other => other,
        }
    }
}

/// The column of token `t` among terminals `ts`; one past end of input when unknown.
pub open spec fn token_col(ts: Seq<Seq<char>>, t: Seq<char>) -> int {
    if ts.contains(t) {
        choose|i: int| first_index(ts, t, i)
    } else {
        ts.len() + 1int
    }
}

pub open spec fn token_cols(ts: Seq<Seq<char>>, tokens: Seq<Terminal>) -> Seq<usize> {
    tokens.map_values(|t: Terminal| token_col(ts, t@) as usize)
}

/// What the recognizer answers on tables `t` and token columns `input`.
pub open spec fn lr_verdict(
    g: GrammarV,
    act: Seq<Seq<Option<Action>>>,
    gt: Seq<Seq<Option<usize>>>,
    input: Seq<usize>,
) -> Result<(), Error> {
    match lr_run(g, act, gt, seq![0usize], input, 0, STEP_LIMIT as nat) {
        LrStep::Accept => Ok(()),
        LrStep::Reject(pos, s) => Err(Error::ParseReject { position: pos as usize, state: s as usize }),
        LrStep::Fault => Err(Error::Internal),
        LrStep::Next(_, _) => Err(Error::StepLimit),
    }
}

/// The columns of `tokens` among `terminals`.
pub fn token_columns(terminals: &Vec<Terminal>, tokens: &[Terminal]) -> (r: Vec<usize>)
    requires
        terminals@.len() + 2 <= usize::MAX,
    ensures
        r@ == token_cols(terminals_view(terminals@), tokens@),
{
    let ghost ts = terminals_view(terminals@);
    let mut r: Vec<usize> = Vec::new();
    let mut k: usize = 0;
    while k < tokens.len()
        invariant
            ts == terminals_view(terminals@),
            terminals@.len() + 2 <= usize::MAX,
            k <= tokens@.len(),
            r@.len() == k,
            forall|j: int| 0 <= j < k ==> #[trigger] r@[j] == token_col(ts, tokens@[j]@) as usize,
        decreases tokens@.len() - k,
    {
        let c = match find_terminal(terminals, &tokens[k]) {
            Some(i) => {
                proof {
                    let i2 = choose|i2: int| first_index(ts, tokens@[k as int]@, i2);
                    lemma_first_index_unique(ts, tokens@[k as int]@, i as int, i2);
                }
                i
            },
            None => terminals.len() + 1,
        };
        r.push(c);
        k = k + 1;
    }
    assert(r@ =~= token_cols(ts, tokens@));
    r
}

impl Lr1Tables {
    /// Runs the shift/reduce recognizer on `tokens`.
    pub fn recognize(&self, tokens: &[Terminal]) -> (r: Result<(), Error>)
        requires
            self.terminals@.len() + 2 <= usize::MAX,
            self.grammar.n_terminals == self.terminals@.len(),
        ensures
            r == lr_verdict(
                self.grammar@,
                action_view(self.action@),
                table_view(self.goto@),
                token_cols(terminals_view(self.terminals@), tokens@),
            ),
    {
        let input = token_columns(&self.terminals, tokens);
        let ghost g = self.grammar@;
        let ghost act = action_view(self.action@);
        let ghost gt = table_view(self.goto@);
        let eof = self.grammar.n_terminals;
        let mut stack: Vec<usize> = Vec::new();
        stack.push(0);
        let mut pos: usize = 0;
        let mut fuel: usize = STEP_LIMIT;
        loop
            invariant
                g == self.grammar@,
                act == action_view(self.action@),
                gt == table_view(self.goto@),
                eof == g.n_t,
                input@ == token_cols(terminals_view(self.terminals@), tokens@),
                pos + fuel <= STEP_LIMIT,
                lr_run(g, act, gt, stack@, input@, pos as int, fuel as nat) == lr_run(g, act, gt, seq![0usize], input@, 0, STEP_LIMIT as nat),
            decreases fuel,
        {
            if fuel == 0 {
                return Err(Error::StepLimit);
            }
            let ghost st0 = stack@;
            let ghost p0 = pos as int;
            let ghost step = lr_step(g, act, gt, st0, input@, p0);
            assert(lr_run(g, act, gt, st0, input@, p0, fuel as nat) == match step {
                LrStep::Next(st, p) => lr_run(g, act, gt, st, input@, p, (fuel - 1) as nat),
                other => other,
            });
            if stack.len() == 0 {
                return Err(Error::Internal);
            }
            let s = stack[stack.len() - 1];
            let c = if pos < input.len() {
                input[pos]
            } else {
                eof
            };
            assert(c as int == cur_col(input@, p0, g.n_t as int));
            let entry = if s < self.action.len() && c < self.action[s].len() {
                self.action[s][c]
            } else {
                None
            };
            assert(entry == cell(act, s as int, c as int));
            match entry {
                None => {
                    return Err(Error::ParseReject { position: pos, state: s });
                },
                Some(Action::Accept) => {
                    return Ok(());
                },
                Some(Action::Shift(j)) => {
                    stack.push(j);
                    pos = pos + 1;
                },
                Some(Action::Reduce(a, p)) => {
                    if !(a < self.grammar.rules.len() && p < self.grammar.rules[a].len() && self.grammar.rules[a][p].len() < stack.len()) {
                        return Err(Error::Internal);
                    }
                    let k = self.grammar.rules[a][p].len();
                    let keep = stack.len() - k;
                    stack.truncate(keep);
                    assert(stack@ =~= st0.subrange(0, st0.len() - g.rules[a as int][p as int].len()));
                    let top = stack[stack.len() - 1];
                    let next = if top < self.goto.len() && a < self.goto[top].len() {
                        self.goto[top][a]
                    } else {
                        None
                    };
                    assert(next == cell(gt, top as int, a as int));
                    match next {
                        Some(j) => {
                            stack.push(j);
                        },
                        None => {
                            return Err(Error::Internal);
                        },
                    }
                },
            }
            fuel = fuel - 1;
        }
    }
}

/// `r` is what the recognizer answers on `tokens` with tables built for `cfg`.
pub open spec fn lr_parse_result(cfg: crate::grammar::CfgV, tokens: Seq<Terminal>, r: Result<(), Error>) -> bool {
    exists|t: Lr1Tables|
        #[trigger] t.valid_for(cfg) && r == lr_verdict(
            t.grammar@,
            action_view(t.action@),
            table_view(t.goto@),
            token_cols(cfg.ts, tokens),
        )
}

/// Builds the LR(1) tables of `cfg` and recognizes `tokens` with them.
pub fn parse(tokens: &[Terminal], cfg: &CFG) -> (r: Result<(), Error>)
    ensures
        (r == Err::<(), Error>(Error::GrammarMalformed)) <==> !compilable(cfg@),
        r is Err && lr_conflict(cfg@, r->Err_0) || r == Err::<(), Error>(Error::GrammarMalformed)
            || lr_parse_result(cfg@, tokens@, r),
{
    match build_action_and_goto_table(cfg) {
        Ok(t) => {
            let r = t.recognize(tokens);
            assert(t.valid_for(cfg@));
            assert(lr_parse_result(cfg@, tokens@, r));
            r
        },
        Err(e) => Err(e),
    }
}

} // verus!
