//! FIRST, FOLLOW and PREDICT sets of an indexed grammar, as boolean matrices:
//! one row per non-terminal (or production), one column per terminal, then
//! end of input, then the empty string.
use vstd::prelude::*;
use crate::indexed::{Grammar, GrammarV, Sym};

verus! {

pub open spec fn matrix_view(m: Seq<Vec<bool>>) -> Seq<Seq<bool>> {
    m.map_values(|r: Vec<bool>| r@)
}

/// Column `c` belongs to FIRST of symbol `s`, given FIRST sets `f` of the non-terminals.
pub open spec fn sym_has(g: GrammarV, f: Seq<Seq<bool>>, s: Sym, c: int) -> bool {
    match s {
        Sym::T(i) => c == i,
        Sym::N(a) => f[a as int][c],
        Sym::Eps => c == g.eps(),
    }
}

/// The first `k` symbols of `rhs` all derive the empty string.
pub open spec fn nullable_prefix(g: GrammarV, f: Seq<Seq<bool>>, rhs: Seq<Sym>, k: int) -> bool {
    forall|m: int| 0 <= m < k ==> sym_has(g, f, #[trigger] rhs[m], g.eps() as int)
}

/// Column `c` belongs to FIRST of the sequence `rhs`.
pub open spec fn seq_has(g: GrammarV, f: Seq<Seq<bool>>, rhs: Seq<Sym>, c: int) -> bool {
    if c == g.eps() {
        nullable_prefix(g, f, rhs, rhs.len() as int)
    } else {
        exists|k: int|
            0 <= k < rhs.len() && nullable_prefix(g, f, rhs, k) && #[trigger] sym_has(
                g,
                f,
                rhs[k],
                c,
            )
    }
}

/// Every non-terminal on `rhs` exists.
pub open spec fn syms_in(g: GrammarV, rhs: Seq<Sym>) -> bool {
    forall|k: int| 0 <= k < rhs.len() ==> (#[trigger] rhs[k] is N ==> rhs[k]->N_0 < g.n_nt())
}

/// One row of `width` columns per non-terminal.
pub open spec fn shaped(g: GrammarV, f: Seq<Seq<bool>>) -> bool {
    &&& f.len() == g.n_nt()
    &&& forall|a: int| 0 <= a < f.len() ==> (#[trigger] f[a]).len() == g.width()
}

/// Every row of `f1` is contained in the same row of `f2`.
pub open spec fn le(g: GrammarV, f1: Seq<Seq<bool>>, f2: Seq<Seq<bool>>) -> bool {
    forall|a: int, c: int| 0 <= a < g.n_nt() && 0 <= c < g.width() && #[trigger] f1[a][c] ==> f2[a][c]
}

/// `f` is closed under the FIRST rules: FIRST of each right-hand side is in
/// FIRST of its left-hand side.
pub open spec fn first_closed(g: GrammarV, f: Seq<Seq<bool>>) -> bool {
    &&& shaped(g, f)
    &&& forall|a: int, p: int, c: int|
        0 <= a < g.n_nt() && 0 <= p < g.rules[a].len() && 0 <= c < g.width() && #[trigger] seq_has(
            g,
            f,
            g.rules[a][p],
            c,
        ) ==> f[a][c]
}

/// `f` is the FIRST relation: the least assignment closed under the FIRST rules.
pub open spec fn is_first(g: GrammarV, f: Seq<Seq<bool>>) -> bool {
    &&& first_closed(g, f)
    &&& forall|f2: Seq<Seq<bool>>| #[trigger] first_closed(g, f2) ==> le(g, f, f2)
}

/// Number of unset cells of a row.
pub open spec fn row_false(r: Seq<bool>) -> nat
    decreases r.len(),
{
    if r.len() == 0 {
        0
    } else {
        row_false(r.drop_last()) + if r.last() {
            0nat
        } else {
            1nat
        }
    }
}

/// Number of unset cells of a matrix.
pub open spec fn mat_false(m: Seq<Seq<bool>>) -> nat
    decreases m.len(),
{
    if m.len() == 0 {
        0
    } else {
        mat_false(m.drop_last()) + row_false(m.last())
    }
}

pub proof fn lemma_row_set(r: Seq<bool>, c: int)
    requires
        0 <= c < r.len(),
        !r[c],
    ensures
        row_false(r.update(c, true)) + 1 == row_false(r),
    decreases r.len(),
{
    if c == r.len() - 1 {
        assert(r.update(c, true).drop_last() =~= r.drop_last());
    } else {
        assert(r.update(c, true).drop_last() =~= r.drop_last().update(c, true));
        lemma_row_set(r.drop_last(), c);
    }
}

pub proof fn lemma_mat_update(m: Seq<Seq<bool>>, a: int, r: Seq<bool>)
    requires
        0 <= a < m.len(),
    ensures
        mat_false(m.update(a, r)) + row_false(m[a]) == mat_false(m) + row_false(r),
    decreases m.len(),
{
    if a == m.len() - 1 {
        assert(m.update(a, r).drop_last() =~= m.drop_last());
    } else {
        assert(m.update(a, r).drop_last() =~= m.drop_last().update(a, r));
        lemma_mat_update(m.drop_last(), a, r);
    }
}

pub proof fn lemma_nullable_prefix_mono(g: GrammarV, f: Seq<Seq<bool>>, rhs: Seq<Sym>, j: int, k: int)
    requires
        0 <= j <= k,
        nullable_prefix(g, f, rhs, k),
    ensures
        nullable_prefix(g, f, rhs, j),
{
    assert forall|m: int| 0 <= m < j implies sym_has(g, f, #[trigger] rhs[m], g.eps() as int) by {
        assert(sym_has(g, f, rhs[m], g.eps() as int));
    }
}

/// FIRST of a sequence grows with the FIRST sets it is computed from.
pub proof fn lemma_seq_has_mono(
    g: GrammarV,
    f1: Seq<Seq<bool>>,
    f2: Seq<Seq<bool>>,
    rhs: Seq<Sym>,
    c: int,
)
    requires
        le(g, f1, f2),
        syms_in(g, rhs),
        0 <= c < g.width(),
        seq_has(g, f1, rhs, c),
    ensures
        seq_has(g, f2, rhs, c),
{
    assert forall|m: int| 0 <= m < rhs.len() && sym_has(g, f1, #[trigger] rhs[m], g.eps() as int) implies sym_has(
        g,
        f2,
        rhs[m],
        g.eps() as int,
    ) by {
        if rhs[m] is N {
            assert(f1[rhs[m]->N_0 as int][g.eps() as int]);
        }
    }
    if c != g.eps() {
        let k = choose|k: int|
            0 <= k < rhs.len() && nullable_prefix(g, f1, rhs, k) && #[trigger] sym_has(
                g,
                f1,
                rhs[k],
                c,
            );
        if rhs[k] is N {
            assert(f1[rhs[k]->N_0 as int][c]);
        }
        assert(sym_has(g, f2, rhs[k], c));
        assert(nullable_prefix(g, f2, rhs, k));
    }
}

fn sym_has_exec(g: &Grammar, f: &Vec<Vec<bool>>, s: Sym, c: usize) -> (r: bool)
    requires
        g@.wf(),
        shaped(g@, matrix_view(f@)),
        s is N ==> s->N_0 < g@.n_nt(),
        c < g@.width(),
    ensures
        r == sym_has(g@, matrix_view(f@), s, c as int),
{
    match s {
        Sym::T(i) => i == c,
        Sym::N(a) => {
            assert(matrix_view(f@)[a as int].len() == g@.width());
            f[a][c]
        },
        Sym::Eps => c == g.n_terminals + 1,
    }
}

/// FIRST of `rhs[from..]`, one column each.
pub fn seq_first_row(g: &Grammar, f: &Vec<Vec<bool>>, rhs: &Vec<Sym>, from: usize) -> (row: Vec<bool>)
    requires
        g@.wf(),
        shaped(g@, matrix_view(f@)),
        syms_in(g@, rhs@),
        from <= rhs@.len(),
    ensures
        row@.len() == g@.width(),
        forall|c: int|
            0 <= c < g@.width() ==> #[trigger] row@[c] == seq_has(
                g@,
                matrix_view(f@),
                rhs@.subrange(from as int, rhs@.len() as int),
                c,
            ),
{
    let ghost gv = g@;
    let ghost fv = matrix_view(f@);
    let ghost sub = rhs@.subrange(from as int, rhs@.len() as int);
    let width = g.n_terminals + 2;
    let eps = g.n_terminals + 1;
    let mut row: Vec<bool> = Vec::new();
    let mut c: usize = 0;
    while c < width
        invariant
            c <= width,
            width == gv.width(),
            row@.len() == c,
            forall|c2: int| 0 <= c2 < c ==> !row@[c2],
        decreases width - c,
    {
        row.push(false);
        c = c + 1;
    }
    let mut k: usize = from;
    let mut nullable = true;
    while k < rhs.len() && nullable
        invariant
            gv == g@,
            fv == matrix_view(f@),
            gv.wf(),
            shaped(gv, fv),
            syms_in(gv, rhs@),
            sub == rhs@.subrange(from as int, rhs@.len() as int),
            from <= k <= rhs@.len(),
            width == gv.width(),
            eps == gv.eps(),
            row@.len() == width,
            nullable == nullable_prefix(gv, fv, sub, k - from),
            !row@[eps as int],
            forall|c2: int|
                0 <= c2 < width && c2 != eps ==> (#[trigger] row@[c2] <==> exists|m: int|
                    0 <= m < k - from && nullable_prefix(gv, fv, sub, m) && #[trigger] sym_has(
                        gv,
                        fv,
                        sub[m],
                        c2,
                    )),
        decreases rhs@.len() - k,
    {
        let s = rhs[k];
        let ghost j = k - from;
        assert(sub[j] == s);
        let ghost row0 = row@;
        let mut c: usize = 0;
        while c < eps
            invariant
                gv == g@,
                fv == matrix_view(f@),
                gv.wf(),
                shaped(gv, fv),
                s is N ==> s->N_0 < gv.n_nt(),
                c <= eps,
                eps == gv.eps(),
                width == gv.width(),
                row@.len() == width,
                row@[eps as int] == row0[eps as int],
                forall|c2: int| 0 <= c2 < c ==> #[trigger] row@[c2] == (row0[c2] || sym_has(gv, fv, s, c2)),
                forall|c2: int| c <= c2 < width ==> #[trigger] row@[c2] == row0[c2],
            decreases eps - c,
        {
            if sym_has_exec(g, f, s, c) {
                row.set(c, true);
            }
            c = c + 1;
        }
        nullable = sym_has_exec(g, f, s, eps);
        k = k + 1;
        proof {
            assert forall|c2: int|
                0 <= c2 < width && c2 != eps implies (#[trigger] row@[c2] <==> exists|m: int|
                    0 <= m < k - from && nullable_prefix(gv, fv, sub, m) && #[trigger] sym_has(
                        gv,
                        fv,
                        sub[m],
                        c2,
                    )) by {
                if row@[c2] && !row0[c2] {
                    assert(sym_has(gv, fv, sub[j], c2));
                }
                if exists|m: int|
                    0 <= m < k - from && nullable_prefix(gv, fv, sub, m) && #[trigger] sym_has(
                        gv,
                        fv,
                        sub[m],
                        c2,
                    ) {
                    let m = choose|m: int|
                        0 <= m < k - from && nullable_prefix(gv, fv, sub, m) && #[trigger] sym_has(
                            gv,
                            fv,
                            sub[m],
                            c2,
                        );
                    if m < j {
                        assert(row0[c2]);
                    } else {
                        assert(m == j);
                    }
                }
            }
            assert(nullable == nullable_prefix(gv, fv, sub, k - from)) by {
                if nullable {
                    assert forall|m: int| 0 <= m < k - from implies sym_has(
                        gv,
                        fv,
                        #[trigger] sub[m],
                        gv.eps() as int,
                    ) by {
                        if m < j {
                            assert(nullable_prefix(gv, fv, sub, j));
                        }
                    }
                }
            }
        }
    }
    proof {
        if !nullable {
            assert forall|m: int| k - from <= m <= sub.len() implies !nullable_prefix(gv, fv, sub, m) by {
                if nullable_prefix(gv, fv, sub, m) {
                    lemma_nullable_prefix_mono(gv, fv, sub, k - from, m);
                }
            }
        } else {
            assert(k - from == sub.len());
        }
    }
    if nullable {
        row.set(eps, true);
    }
    proof {
        assert forall|c: int| 0 <= c < gv.width() implies #[trigger] row@[c] == seq_has(gv, fv, sub, c) by {
            if c != eps {
                if seq_has(gv, fv, sub, c) {
                    let m = choose|m: int|
                        0 <= m < sub.len() && nullable_prefix(gv, fv, sub, m) && #[trigger] sym_has(
                            gv,
                            fv,
                            sub[m],
                            c,
                        );
                    if m >= k - from {
                        assert(!nullable_prefix(gv, fv, sub, m));
                    }
                }
            }
        }
    }
    row
}

/// Sets in `dst` every column set in `src`; says whether any was new.
fn merge_into(dst: &mut Vec<bool>, src: &Vec<bool>) -> (changed: bool)
    requires
        old(dst)@.len() == src@.len(),
    ensures
        final(dst)@.len() == src@.len(),
        forall|c: int| 0 <= c < src@.len() ==> #[trigger] final(dst)@[c] == (old(dst)@[c] || src@[c]),
        changed ==> row_false(final(dst)@) < row_false(old(dst)@),
        !changed ==> final(dst)@ == old(dst)@,
{
    let ghost d0 = dst@;
    let mut changed = false;
    let mut c: usize = 0;
    while c < src.len()
        invariant
            c <= src@.len(),
            dst@.len() == src@.len(),
            d0.len() == src@.len(),
            forall|c2: int| 0 <= c2 < c ==> #[trigger] dst@[c2] == (d0[c2] || src@[c2]),
            forall|c2: int| c <= c2 < src@.len() ==> #[trigger] dst@[c2] == d0[c2],
            changed ==> row_false(dst@) < row_false(d0),
            !changed ==> dst@ == d0,
        decreases src@.len() - c,
    {
        if src[c] && !dst[c] {
            proof {
                lemma_row_set(dst@, c as int);
            }
            dst.set(c, true);
            changed = true;
        }
        c = c + 1;
    }
    changed
}

/// The FIRST sets of every non-terminal: `r[a][c]` says whether column `c`
/// (a terminal, or the empty string) can begin a string derived from `a`.
pub fn first(g: &Grammar) -> (r: Vec<Vec<bool>>)
    requires
        g@.wf(),
    ensures
        is_first(g@, matrix_view(r@)),
{
    let ghost gv = g@;
    let width = g.n_terminals + 2;
    let mut f: Vec<Vec<bool>> = Vec::new();
    let mut a: usize = 0;
    while a < g.rules.len()
        invariant
            a <= g.rules@.len(),
            width == gv.width(),
            gv == g@,
            f@.len() == a,
            forall|a2: int| 0 <= a2 < a ==> (#[trigger] f@[a2])@.len() == width,
            forall|a2: int, c: int| 0 <= a2 < a && 0 <= c < width ==> !(#[trigger] f@[a2]@[c]),
        decreases g.rules@.len() - a,
    {
        let mut row: Vec<bool> = Vec::new();
        let mut c: usize = 0;
        while c < width
            invariant
                c <= width,
                row@.len() == c,
                forall|c2: int| 0 <= c2 < c ==> !row@[c2],
            decreases width - c,
        {
            row.push(false);
            c = c + 1;
        }
        f.push(row);
        a = a + 1;
    }
    proof {
        assert forall|f2: Seq<Seq<bool>>| #[trigger] first_closed(gv, f2) implies le(gv, matrix_view(f@), f2) by {
        }
    }
    loop
        invariant
            gv == g@,
            gv.wf(),
            shaped(gv, matrix_view(f@)),
            forall|f2: Seq<Seq<bool>>| #[trigger] first_closed(gv, f2) ==> le(gv, matrix_view(f@), f2),
        decreases mat_false(matrix_view(f@)),
    {
        let ghost f0 = matrix_view(f@);
        let mut changed = false;
        let mut a: usize = 0;
        while a < g.rules.len()
            invariant
                gv == g@,
                gv.wf(),
                a <= gv.n_nt(),
                shaped(gv, matrix_view(f@)),
                forall|f2: Seq<Seq<bool>>| #[trigger] first_closed(gv, f2) ==> le(gv, matrix_view(f@), f2),
                changed ==> mat_false(matrix_view(f@)) < mat_false(f0),
                !changed ==> matrix_view(f@) == f0,
                !changed ==> forall|a2: int, p: int, c: int|
                    0 <= a2 < a && 0 <= p < gv.rules[a2].len() && 0 <= c < gv.width() && #[trigger] seq_has(
                        gv,
                        f0,
                        gv.rules[a2][p],
                        c,
                    ) ==> f0[a2][c],
            decreases gv.n_nt() - a,
        {
            let mut p: usize = 0;
            while p < g.rules[a].len()
                invariant
                    gv == g@,
                    gv.wf(),
                    a < gv.n_nt(),
                    p <= gv.rules[a as int].len(),
                    shaped(gv, matrix_view(f@)),
                    forall|f2: Seq<Seq<bool>>| #[trigger] first_closed(gv, f2) ==> le(gv, matrix_view(f@), f2),
                    changed ==> mat_false(matrix_view(f@)) < mat_false(f0),
                    !changed ==> matrix_view(f@) == f0,
                    !changed ==> forall|a2: int, p2: int, c: int|
                        0 <= a2 < a && 0 <= p2 < gv.rules[a2].len() && 0 <= c < gv.width() && #[trigger] seq_has(
                            gv,
                            f0,
                            gv.rules[a2][p2],
                            c,
                        ) ==> f0[a2][c],
                    !changed ==> forall|p2: int, c: int|
                        0 <= p2 < p && 0 <= c < gv.width() && #[trigger] seq_has(
                            gv,
                            f0,
                            gv.rules[a as int][p2],
                            c,
                        ) ==> f0[a as int][c],
                decreases gv.rules[a as int].len() - p,
            {
                let ghost fb = matrix_view(f@);
                let rhs = &g.rules[a][p];
                assert(rhs@ == gv.rules[a as int][p as int]);
                assert(syms_in(gv, rhs@)) by {
                    assert forall|k: int| 0 <= k < rhs@.len() implies (#[trigger] rhs@[k] is N ==> rhs@[k]->N_0 < gv.n_nt()) by {
                        assert(gv.sym_ok(gv.rules[a as int][p as int][k]));
                    }
                }
                let row = seq_first_row(g, &f, rhs, 0);
                assert(rhs@.subrange(0, rhs@.len() as int) =~= rhs@);
                let ghost old_row = f@[a as int]@;
                assert(fb[a as int].len() == gv.width());
                let ch = merge_into(&mut f[a], &row);
                proof {
                    lemma_mat_update(fb, a as int, f@[a as int]@);
                    assert(matrix_view(f@) =~= fb.update(a as int, f@[a as int]@));
                    assert forall|f2: Seq<Seq<bool>>| #[trigger] first_closed(gv, f2) implies le(gv, matrix_view(f@), f2) by {
                        assert forall|a2: int, c: int|
                            0 <= a2 < gv.n_nt() && 0 <= c < gv.width() && #[trigger] matrix_view(f@)[a2][c] implies f2[a2][c] by {
                            if a2 == a && !fb[a2][c] {
                                assert(row@[c]);
                                lemma_seq_has_mono(gv, fb, f2, rhs@, c);
                            }
                        }
                    }
                    if !changed && !ch {
                        assert forall|c: int|
                            0 <= c < gv.width() && #[trigger] seq_has(gv, f0, gv.rules[a as int][p as int], c) implies f0[a as int][c] by {
                            assert(row@[c]);
                        }
                    }
                }
                changed = changed || ch;
                p = p + 1;
            }
            a = a + 1;
        }
        if !changed {
            return f;
        }
    }
}

/// Column `c` may follow what `rhs[from..]` ends with, in a production of `a`:
/// it begins `rhs[from..]`, or that suffix derives the empty string and `c`
/// follows `a`.
pub open spec fn trailer_has(g: GrammarV, f: Seq<Seq<bool>>, fo: Seq<Seq<bool>>, a: int, rhs: Seq<Sym>, from: int, c: int) -> bool {
    let sub = rhs.subrange(from, rhs.len() as int);
    c != g.eps() && (seq_has(g, f, sub, c) || (seq_has(g, f, sub, g.eps() as int) && fo[a][c]))
}

/// `fo` is closed under the FOLLOW rules, given FIRST sets `f`.
pub open spec fn follow_closed(g: GrammarV, f: Seq<Seq<bool>>, fo: Seq<Seq<bool>>) -> bool {
    &&& shaped(g, fo)
    &&& fo[g.start as int][g.eof() as int]
    &&& forall|a: int, p: int, k: int, c: int|
        0 <= a < g.n_nt() && 0 <= p < g.rules[a].len() && 0 <= k < g.rules[a][p].len() && (
        #[trigger] g.rules[a][p][k]) is N && 0 <= c < g.width() && #[trigger] trailer_has(
            g,
            f,
            fo,
            a,
            g.rules[a][p],
            k + 1,
            c,
        ) ==> fo[g.rules[a][p][k]->N_0 as int][c]
}

/// `fo` is the FOLLOW relation: the least assignment closed under the FOLLOW
/// rules; it never holds the empty string.
pub open spec fn is_follow(g: GrammarV, f: Seq<Seq<bool>>, fo: Seq<Seq<bool>>) -> bool {
    &&& follow_closed(g, f, fo)
    &&& forall|fo2: Seq<Seq<bool>>| #[trigger] follow_closed(g, f, fo2) ==> le(g, fo, fo2)
    &&& forall|a: int| 0 <= a < g.n_nt() ==> !(#[trigger] fo[a][g.eps() as int])
}

/// Column `c` is in PREDICT of production `p` of `a`.
pub open spec fn predict_has(g: GrammarV, f: Seq<Seq<bool>>, fo: Seq<Seq<bool>>, a: int, p: int, c: int) -> bool {
    trailer_has(g, f, fo, a, g.rules[a][p], 0, c)
}

/// FIRST of `rhs[from..]` without the empty string, and FOLLOW of `a` where
/// that suffix derives the empty string.
fn trailer_row(g: &Grammar, f: &Vec<Vec<bool>>, fo: &Vec<Vec<bool>>, a: usize, rhs: &Vec<Sym>, from: usize) -> (row: Vec<bool>)
    requires
        g@.wf(),
        shaped(g@, matrix_view(f@)),
        shaped(g@, matrix_view(fo@)),
        a < g@.n_nt(),
        !matrix_view(fo@)[a as int][g@.eps() as int],
        syms_in(g@, rhs@),
        from <= rhs@.len(),
    ensures
        row@.len() == g@.width(),
        forall|c: int|
            0 <= c < g@.width() ==> #[trigger] row@[c] == trailer_has(
                g@,
                matrix_view(f@),
                matrix_view(fo@),
                a as int,
                rhs@,
                from as int,
                c,
            ),
{
    let ghost gv = g@;
    let ghost fov = matrix_view(fo@);
    let mut row = seq_first_row(g, f, rhs, from);
    let eps = g.n_terminals + 1;
    let nullable = row[eps];
    row.set(eps, false);
    if nullable {
        assert(fov[a as int].len() == gv.width());
        let mut c: usize = 0;
        while c < eps
            invariant
                gv == g@,
                fov == matrix_view(fo@),
                a < gv.n_nt(),
                eps == gv.eps(),
                c <= eps,
                from <= rhs@.len(),
                shaped(gv, fov),
                row@.len() == gv.width(),
                fov[a as int].len() == gv.width(),
                !row@[eps as int],
                forall|c2: int| 0 <= c2 < gv.width() ==> #[trigger] row@[c2] == (c2 != eps && (seq_has(
                    gv,
                    matrix_view(f@),
                    rhs@.subrange(from as int, rhs@.len() as int),
                    c2,
                ) || (c2 < c && fov[a as int][c2]))),
            decreases eps - c,
        {
            if fo[a][c] {
                row.set(c, true);
            }
            c = c + 1;
        }
    }
    row
}

fn false_matrix(rows: usize, width: usize) -> (m: Vec<Vec<bool>>)
    ensures
        m@.len() == rows,
        forall|a: int| 0 <= a < rows ==> (#[trigger] m@[a])@.len() == width,
        forall|a: int, c: int| 0 <= a < rows && 0 <= c < width ==> !(#[trigger] m@[a]@[c]),
{
    let mut m: Vec<Vec<bool>> = Vec::new();
    let mut a: usize = 0;
    while a < rows
        invariant
            a <= rows,
            m@.len() == a,
            forall|a2: int| 0 <= a2 < a ==> (#[trigger] m@[a2])@.len() == width,
            forall|a2: int, c: int| 0 <= a2 < a && 0 <= c < width ==> !(#[trigger] m@[a2]@[c]),
        decreases rows - a,
    {
        let mut row: Vec<bool> = Vec::new();
        let mut c: usize = 0;
        while c < width
            invariant
                c <= width,
                row@.len() == c,
                forall|c2: int| 0 <= c2 < c ==> !row@[c2],
            decreases width - c,
        {
            row.push(false);
            c = c + 1;
        }
        m.push(row);
        a = a + 1;
    }
    m
}

/// The FOLLOW sets of every non-terminal, given the FIRST sets `f`.
pub fn follow(g: &Grammar, f: &Vec<Vec<bool>>) -> (r: Vec<Vec<bool>>)
    requires
        g@.wf(),
        shaped(g@, matrix_view(f@)),
    ensures
        is_follow(g@, matrix_view(f@), matrix_view(r@)),
{
    let ghost gv = g@;
    let ghost fv = matrix_view(f@);
    let eps = g.n_terminals + 1;
    let mut fo = false_matrix(g.rules.len(), g.n_terminals + 2);
    assert(matrix_view(fo@)[g.start as int].len() == gv.width());
    fo[g.start].set(g.n_terminals, true);
    proof {
        assert forall|fo2: Seq<Seq<bool>>| #[trigger] follow_closed(gv, fv, fo2) implies le(gv, matrix_view(fo@), fo2) by {
            assert forall|a: int, c: int| 0 <= a < gv.n_nt() && 0 <= c < gv.width() && #[trigger] matrix_view(fo@)[a][c] implies fo2[a][c] by {
                if !(a == gv.start && c == gv.eof()) {
                    assert(!fo@[a]@[c]);
                }
            }
        }
        assert(shaped(gv, matrix_view(fo@)));
        assert forall|a: int| 0 <= a < gv.n_nt() implies !(#[trigger] matrix_view(fo@)[a][gv.eps() as int]) by {
            assert(!fo@[a]@[gv.eps() as int]) by {
                if a != gv.start {
                }
            }
        }
    }
    loop
        invariant
            gv == g@,
            fv == matrix_view(f@),
            gv.wf(),
            shaped(gv, fv),
            eps == gv.eps(),
            shaped(gv, matrix_view(fo@)),
            matrix_view(fo@)[gv.start as int][gv.eof() as int],
            forall|a: int| 0 <= a < gv.n_nt() ==> !(#[trigger] matrix_view(fo@)[a][gv.eps() as int]),
            forall|fo2: Seq<Seq<bool>>| #[trigger] follow_closed(gv, fv, fo2) ==> le(gv, matrix_view(fo@), fo2),
        decreases mat_false(matrix_view(fo@)),
    {
        let ghost f0 = matrix_view(fo@);
        let mut changed = false;
        let mut a: usize = 0;
        while a < g.rules.len()
            invariant
                gv == g@,
                fv == matrix_view(f@),
                gv.wf(),
                shaped(gv, fv),
                eps == gv.eps(),
                a <= gv.n_nt(),
                shaped(gv, matrix_view(fo@)),
                matrix_view(fo@)[gv.start as int][gv.eof() as int],
                forall|a2: int| 0 <= a2 < gv.n_nt() ==> !(#[trigger] matrix_view(fo@)[a2][gv.eps() as int]),
                forall|fo2: Seq<Seq<bool>>| #[trigger] follow_closed(gv, fv, fo2) ==> le(gv, matrix_view(fo@), fo2),
                changed ==> mat_false(matrix_view(fo@)) < mat_false(f0),
                !changed ==> matrix_view(fo@) == f0,
                !changed ==> forall|a2: int, p: int, k: int, c: int|
                    0 <= a2 < a && 0 <= p < gv.rules[a2].len() && 0 <= k < gv.rules[a2][p].len() && (
                    #[trigger] gv.rules[a2][p][k]) is N && 0 <= c < gv.width() && #[trigger] trailer_has(gv, fv, f0, a2, gv.rules[a2][p], k + 1, c)
                        ==> f0[gv.rules[a2][p][k]->N_0 as int][c],
            decreases gv.n_nt() - a,
        {
            let mut p: usize = 0;
            while p < g.rules[a].len()
                invariant
                    gv == g@,
                    fv == matrix_view(f@),
                    gv.wf(),
                    shaped(gv, fv),
                    eps == gv.eps(),
                    a < gv.n_nt(),
                    p <= gv.rules[a as int].len(),
                    shaped(gv, matrix_view(fo@)),
                    matrix_view(fo@)[gv.start as int][gv.eof() as int],
                    forall|a2: int| 0 <= a2 < gv.n_nt() ==> !(#[trigger] matrix_view(fo@)[a2][gv.eps() as int]),
                    forall|fo2: Seq<Seq<bool>>| #[trigger] follow_closed(gv, fv, fo2) ==> le(gv, matrix_view(fo@), fo2),
                    changed ==> mat_false(matrix_view(fo@)) < mat_false(f0),
                    !changed ==> matrix_view(fo@) == f0,
                    !changed ==> forall|a2: int, p2: int, k: int, c: int|
                        0 <= a2 < a && 0 <= p2 < gv.rules[a2].len() && 0 <= k < gv.rules[a2][p2].len() && (
                        #[trigger] gv.rules[a2][p2][k]) is N && 0 <= c < gv.width() && #[trigger] trailer_has(gv, fv, f0, a2, gv.rules[a2][p2], k + 1, c)
                            ==> f0[gv.rules[a2][p2][k]->N_0 as int][c],
                    !changed ==> forall|p2: int, k: int, c: int|
                        0 <= p2 < p && 0 <= k < gv.rules[a as int][p2].len() && (
                        #[trigger] gv.rules[a as int][p2][k]) is N && 0 <= c < gv.width() && #[trigger] trailer_has(gv, fv, f0, a as int, gv.rules[a as int][p2], k + 1, c)
                            ==> f0[gv.rules[a as int][p2][k]->N_0 as int][c],
                decreases gv.rules[a as int].len() - p,
            {
                let rhs = &g.rules[a][p];
                assert(rhs@ == gv.rules[a as int][p as int]);
                assert(syms_in(gv, rhs@)) by {
                    assert forall|k: int| 0 <= k < rhs@.len() implies (#[trigger] rhs@[k] is N ==> rhs@[k]->N_0 < gv.n_nt()) by {
                        assert(gv.sym_ok(gv.rules[a as int][p as int][k]));
                    }
                }
                let mut k: usize = 0;
                while k < rhs.len()
                    invariant
                        gv == g@,
                        fv == matrix_view(f@),
                        gv.wf(),
                        shaped(gv, fv),
                        eps == gv.eps(),
                        a < gv.n_nt(),
                        p < gv.rules[a as int].len(),
                        rhs@ == gv.rules[a as int][p as int],
                        syms_in(gv, rhs@),
                        k <= rhs@.len(),
                        shaped(gv, matrix_view(fo@)),
                        matrix_view(fo@)[gv.start as int][gv.eof() as int],
                        forall|a2: int| 0 <= a2 < gv.n_nt() ==> !(#[trigger] matrix_view(fo@)[a2][gv.eps() as int]),
                        forall|fo2: Seq<Seq<bool>>| #[trigger] follow_closed(gv, fv, fo2) ==> le(gv, matrix_view(fo@), fo2),
                        changed ==> mat_false(matrix_view(fo@)) < mat_false(f0),
                        !changed ==> matrix_view(fo@) == f0,
                        !changed ==> forall|a2: int, p2: int, k2: int, c: int|
                            0 <= a2 < a && 0 <= p2 < gv.rules[a2].len() && 0 <= k2 < gv.rules[a2][p2].len() && (
                            #[trigger] gv.rules[a2][p2][k2]) is N && 0 <= c < gv.width() && #[trigger] trailer_has(gv, fv, f0, a2, gv.rules[a2][p2], k2 + 1, c)
                                ==> f0[gv.rules[a2][p2][k2]->N_0 as int][c],
                        !changed ==> forall|p2: int, k2: int, c: int|
                            0 <= p2 < p && 0 <= k2 < gv.rules[a as int][p2].len() && (
                            #[trigger] gv.rules[a as int][p2][k2]) is N && 0 <= c < gv.width() && #[trigger] trailer_has(gv, fv, f0, a as int, gv.rules[a as int][p2], k2 + 1, c)
                                ==> f0[gv.rules[a as int][p2][k2]->N_0 as int][c],
                        !changed ==> forall|k2: int, c: int|
                            0 <= k2 < k && (#[trigger] gv.rules[a as int][p as int][k2]) is N && 0 <= c < gv.width() && #[trigger] trailer_has(gv, fv, f0, a as int, gv.rules[a as int][p as int], k2 + 1, c)
                                ==> f0[gv.rules[a as int][p as int][k2]->N_0 as int][c],
                    decreases rhs@.len() - k,
                {
                    if let Sym::N(b) = rhs[k] {
                        let ghost fb = matrix_view(fo@);
                        assert(rhs@[k as int] is N ==> rhs@[k as int]->N_0 < gv.n_nt());
                        let row = trailer_row(g, f, &fo, a, rhs, k + 1);
                        assert(fb[b as int].len() == gv.width());
                        let ch = merge_into(&mut fo[b], &row);
                        proof {
                            lemma_mat_update(fb, b as int, fo@[b as int]@);
                            assert(matrix_view(fo@) =~= fb.update(b as int, fo@[b as int]@));
                            assert forall|fo2: Seq<Seq<bool>>| #[trigger] follow_closed(gv, fv, fo2) implies le(gv, matrix_view(fo@), fo2) by {
                                assert forall|a2: int, c: int|
                                    0 <= a2 < gv.n_nt() && 0 <= c < gv.width() && #[trigger] matrix_view(fo@)[a2][c] implies fo2[a2][c] by {
                                    if a2 == b && !fb[a2][c] {
                                        assert(row@[c]);
                                        assert(trailer_has(gv, fv, fb, a as int, rhs@, k + 1, c));
                                        if !seq_has(gv, fv, rhs@.subrange(k + 1, rhs@.len() as int), c) {
                                            assert(fb[a as int][c]);
                                        }
                                        assert(trailer_has(gv, fv, fo2, a as int, gv.rules[a as int][p as int], k + 1, c));
                                        assert(gv.rules[a as int][p as int][k as int] is N);
                                    }
                                }
                            }
                            assert forall|a2: int| 0 <= a2 < gv.n_nt() implies !(#[trigger] matrix_view(fo@)[a2][gv.eps() as int]) by {
                                assert(!fb[a2][gv.eps() as int]);
                                if a2 == b {
                                    assert(!row@[gv.eps() as int]);
                                }
                            }
                            if !changed && !ch {
                                assert forall|c: int|
                                    0 <= c < gv.width() && #[trigger] trailer_has(gv, fv, f0, a as int, gv.rules[a as int][p as int], k + 1, c) implies f0[b as int][c] by {
                                    assert(row@[c]);
                                }
                            }
                        }
                        changed = changed || ch;
                    }
                    k = k + 1;
                }
                p = p + 1;
            }
            a = a + 1;
        }
        if !changed {
            return fo;
        }
    }
}

/// PREDICT of every production: `r[a][p][c]` says whether column `c` selects
/// production `p` of `a`.
pub fn predict(g: &Grammar, f: &Vec<Vec<bool>>, fo: &Vec<Vec<bool>>) -> (r: Vec<Vec<Vec<bool>>>)
    requires
        g@.wf(),
        shaped(g@, matrix_view(f@)),
        is_follow(g@, matrix_view(f@), matrix_view(fo@)),
    ensures
        r@.len() == g@.n_nt(),
        forall|a: int| 0 <= a < g@.n_nt() ==> (#[trigger] r@[a])@.len() == g@.rules[a].len(),
        forall|a: int, p: int| 0 <= a < g@.n_nt() && 0 <= p < g@.rules[a].len() ==> (#[trigger] r@[a]@[p])@.len() == g@.width(),
        forall|a: int, p: int, c: int|
            0 <= a < g@.n_nt() && 0 <= p < g@.rules[a].len() && 0 <= c < g@.width() ==> #[trigger] r@[a]@[p]@[c]
                == predict_has(g@, matrix_view(f@), matrix_view(fo@), a, p, c),
{
    let ghost gv = g@;
    let mut r: Vec<Vec<Vec<bool>>> = Vec::new();
    let mut a: usize = 0;
    while a < g.rules.len()
        invariant
            gv == g@,
            gv.wf(),
            shaped(gv, matrix_view(f@)),
            is_follow(gv, matrix_view(f@), matrix_view(fo@)),
            a <= gv.n_nt(),
            r@.len() == a,
            forall|a2: int| 0 <= a2 < a ==> (#[trigger] r@[a2])@.len() == gv.rules[a2].len(),
            forall|a2: int, p: int| 0 <= a2 < a && 0 <= p < gv.rules[a2].len() ==> (#[trigger] r@[a2]@[p])@.len() == gv.width(),
            forall|a2: int, p: int, c: int|
                0 <= a2 < a && 0 <= p < gv.rules[a2].len() && 0 <= c < gv.width() ==> #[trigger] r@[a2]@[p]@[c]
                    == predict_has(gv, matrix_view(f@), matrix_view(fo@), a2, p, c),
        decreases gv.n_nt() - a,
    {
        let mut rows: Vec<Vec<bool>> = Vec::new();
        let mut p: usize = 0;
        while p < g.rules[a].len()
            invariant
                gv == g@,
                gv.wf(),
                shaped(gv, matrix_view(f@)),
                is_follow(gv, matrix_view(f@), matrix_view(fo@)),
                a < gv.n_nt(),
                p <= gv.rules[a as int].len(),
                rows@.len() == p,
                forall|p2: int| 0 <= p2 < p ==> (#[trigger] rows@[p2])@.len() == gv.width(),
                forall|p2: int, c: int| 0 <= p2 < p && 0 <= c < gv.width() ==> #[trigger] rows@[p2]@[c]
                    == predict_has(gv, matrix_view(f@), matrix_view(fo@), a as int, p2, c),
            decreases gv.rules[a as int].len() - p,
        {
            let rhs = &g.rules[a][p];
            assert(rhs@ == gv.rules[a as int][p as int]);
            assert(syms_in(gv, rhs@)) by {
                assert forall|k: int| 0 <= k < rhs@.len() implies (#[trigger] rhs@[k] is N ==> rhs@[k]->N_0 < gv.n_nt()) by {
                    assert(gv.sym_ok(gv.rules[a as int][p as int][k]));
                }
            }
            let row = trailer_row(g, f, fo, a, rhs, 0);
            rows.push(row);
            p = p + 1;
        }
        r.push(rows);
        a = a + 1;
    }
    r
}

/// The non-terminals that derive the empty string in a derivation tree of
/// depth at most `d`.
pub open spec fn nullable_within(g: GrammarV, d: nat) -> Seq<bool>
    decreases d,
{
    if d == 0 {
        Seq::new(g.n_nt(), |a: int| false)
    } else {
        let prev = nullable_within(g, (d - 1) as nat);
        Seq::new(
            g.n_nt(),
            |a: int|
                exists|p: int| #![trigger g.rules[a][p]] 0 <= p < g.rules[a].len() && rhs_nullable_in(prev, g.rules[a][p]),
        )
    }
}

/// Every symbol of `rhs` is the empty string or a non-terminal marked in `prev`.
pub open spec fn rhs_nullable_in(prev: Seq<bool>, rhs: Seq<Sym>) -> bool {
    forall|k: int|
        0 <= k < rhs.len() ==> match #[trigger] rhs[k] {
            Sym::Eps => true,
            Sym::T(_) => false,
            Sym::N(b) => prev[b as int],
        }
}

/// Non-terminal `a` derives the empty string in a derivation tree of depth at
/// most `d`: some production of `a` has only symbols that do within `d - 1`.
pub open spec fn derives_empty(g: GrammarV, a: int, d: nat) -> bool {
    nullable_within(g, d)[a]
}

pub open spec fn sym_derives_empty(g: GrammarV, s: Sym, d: nat) -> bool {
    match s {
        Sym::Eps => true,
        Sym::T(_) => false,
        Sym::N(b) => derives_empty(g, b as int, d),
    }
}

proof fn lemma_derives_empty_deeper(g: GrammarV, a: int, d: nat, e: nat)
    requires
        g.wf(),
        0 <= a < g.n_nt(),
        derives_empty(g, a, d),
        d <= e,
    ensures
        derives_empty(g, a, e),
    decreases d,
{
    let prev = nullable_within(g, (d - 1) as nat);
    let next = nullable_within(g, (e - 1) as nat);
    let p = choose|p: int| #![trigger g.rules[a][p]] 0 <= p < g.rules[a].len() && rhs_nullable_in(prev, g.rules[a][p]);
    let rhs = g.rules[a][p];
    assert forall|k: int| 0 <= k < rhs.len() implies match #[trigger] rhs[k] {
        Sym::Eps => true,
        Sym::T(_) => false,
        Sym::N(b) => next[b as int],
    } by {
        if let Sym::N(b) = rhs[k] {
            assert(g.sym_ok(g.rules[a][p][k]));
            lemma_derives_empty_deeper(g, b as int, (d - 1) as nat, (e - 1) as nat);
        }
    }
    assert(rhs_nullable_in(next, g.rules[a][p]));
}

/// The assignment that holds every terminal, and the empty string exactly
/// where a non-terminal derives it.
spec fn deriving_assignment(g: GrammarV) -> Seq<Seq<bool>> {
    Seq::new(
        g.n_nt(),
        |a: int| Seq::new(g.width(), |c: int| c != g.eps() || exists|d: nat| derives_empty(g, a, d)),
    )
}

proof fn lemma_common_depth(g: GrammarV, rhs: Seq<Sym>, k: int) -> (d: nat)
    requires
        g.wf(),
        forall|m: int| 0 <= m < rhs.len() ==> g.sym_ok(#[trigger] rhs[m]),
        0 <= k <= rhs.len(),
        nullable_prefix(g, deriving_assignment(g), rhs, k),
    ensures
        forall|m: int| 0 <= m < k ==> sym_derives_empty(g, #[trigger] rhs[m], d),
    decreases k,
{
    if k == 0 {
        0
    } else {
        lemma_nullable_prefix_mono(g, deriving_assignment(g), rhs, k - 1, k);
        let d0 = lemma_common_depth(g, rhs, k - 1);
        let s = rhs[k - 1];
        assert(sym_has(g, deriving_assignment(g), s, g.eps() as int));
        let d1: nat = match s {
            Sym::N(b) => {
                assert(deriving_assignment(g)[b as int][g.eps() as int]);
                choose|d: nat| derives_empty(g, b as int, d)
            },
            _ => 0,
        };
        let d = if d0 >= d1 {
            d0
        } else {
            d1
        };
        assert forall|m: int| 0 <= m < k implies sym_derives_empty(g, #[trigger] rhs[m], d) by {
            if let Sym::N(b) = rhs[m] {
                assert(g.sym_ok(rhs[m]));
                if m < k - 1 {
                    lemma_derives_empty_deeper(g, b as int, d0, d);
                } else {
                    lemma_derives_empty_deeper(g, b as int, d1, d);
                }
            } else if m == k - 1 {
                if let Sym::T(i) = s {
                    assert(g.sym_ok(rhs[k - 1]));
                }
            }
        }
        d
    }
}

proof fn lemma_deriving_assignment_closed(g: GrammarV)
    requires
        g.wf(),
    ensures
        first_closed(g, deriving_assignment(g)),
{
    let f2 = deriving_assignment(g);
    assert forall|a: int, p: int, c: int|
        0 <= a < g.n_nt() && 0 <= p < g.rules[a].len() && 0 <= c < g.width() && #[trigger] seq_has(g, f2, g.rules[a][p], c)
            implies f2[a][c] by {
        if c == g.eps() {
            let rhs = g.rules[a][p];
            assert forall|m: int| 0 <= m < rhs.len() implies g.sym_ok(#[trigger] rhs[m]) by {
                assert(g.sym_ok(g.rules[a][p][m]));
            }
            let d = lemma_common_depth(g, rhs, rhs.len() as int);
            let prev = nullable_within(g, d);
            assert forall|k: int| 0 <= k < rhs.len() implies match #[trigger] rhs[k] {
                Sym::Eps => true,
                Sym::T(_) => false,
                Sym::N(b) => prev[b as int],
            } by {
                assert(sym_derives_empty(g, rhs[k], d));
            }
            assert(rhs_nullable_in(prev, g.rules[a][p]));
            assert(nullable_within(g, ((d + 1) as nat - 1) as nat) == prev);
            assert(derives_empty(g, a, d + 1));
        }
    }
}

/// Where the empty string is in FIRST of a non-terminal, some production of
/// that non-terminal derives the empty string.
pub proof fn lemma_first_empty_derivable(g: GrammarV, f: Seq<Seq<bool>>, a: int)
    requires
        g.wf(),
        is_first(g, f),
        0 <= a < g.n_nt(),
        f[a][g.eps() as int],
    ensures
        exists|d: nat| derives_empty(g, a, d),
{
    lemma_deriving_assignment_closed(g);
    assert(le(g, f, deriving_assignment(g)));
    assert(deriving_assignment(g)[a][g.eps() as int]);
}

/// A grammar has one FIRST relation.
pub proof fn lemma_first_unique(g: GrammarV, f1: Seq<Seq<bool>>, f2: Seq<Seq<bool>>)
    requires
        is_first(g, f1),
        is_first(g, f2),
    ensures
        f1 == f2,
{
    assert(le(g, f1, f2));
    assert(le(g, f2, f1));
    assert forall|a: int| 0 <= a < f1.len() implies #[trigger] f1[a] == f2[a] by {
        assert(f1[a] =~= f2[a]);
    }
    assert(f1 =~= f2);
}

/// Given FIRST, a grammar has one FOLLOW relation.
pub proof fn lemma_follow_unique(g: GrammarV, f: Seq<Seq<bool>>, fo1: Seq<Seq<bool>>, fo2: Seq<Seq<bool>>)
    requires
        is_follow(g, f, fo1),
        is_follow(g, f, fo2),
    ensures
        fo1 == fo2,
{
    assert(le(g, fo1, fo2));
    assert(le(g, fo2, fo1));
    assert forall|a: int| 0 <= a < fo1.len() implies #[trigger] fo1[a] == fo2[a] by {
        assert(fo1[a] =~= fo2[a]);
    }
    assert(fo1 =~= fo2);
}

/// PREDICT holds terminals and end of input only, never the empty string.
pub proof fn lemma_predict_terminals(g: GrammarV, f: Seq<Seq<bool>>, fo: Seq<Seq<bool>>, a: int, p: int, c: int)
    requires
        0 <= c < g.width(),
        predict_has(g, f, fo, a, p, c),
    ensures
        c != g.eps(),
        c <= g.eof(),
{
}

} // verus!
