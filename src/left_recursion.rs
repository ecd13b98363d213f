//! Left-recursion elimination (Paull's algorithm): substitute the productions
//! of earlier non-terminals, then remove direct left recursion by forking.
use vstd::prelude::*;
use crate::grammar::{
    BlockV, CFG, CFGWithoutLeftRecursion, CfgV, Element, ElementV, Error, NonTerminal, ProdBlock,
    Production, ProductionV, blocks_view, elements_view, fork_mark, productions_view,
};

verus! {

/// The right-hand side of `p` begins with non-terminal `n`.
pub open spec fn starts_with(p: ProductionV, n: Seq<char>) -> bool {
    p.right.len() > 0 && p.right[0] == ElementV::NT(n)
}

/// `p` with a leading `bj.left` replaced by each right-hand side of `bj`.
pub open spec fn subst_prod(bj: BlockV, p: ProductionV) -> Seq<ProductionV> {
    if starts_with(p, bj.left) {
        bj.prods.map_values(|d: ProductionV| ProductionV { left: p.left, right: d.right + p.right.drop_first() })
    } else {
        seq![p]
    }
}

/// `subst_prod` over each production of `ps`, in order.
pub open spec fn subst_prods(bj: BlockV, ps: Seq<ProductionV>) -> Seq<ProductionV>
    decreases ps.len(),
{
    if ps.len() == 0 {
        Seq::<ProductionV>::empty()
    } else {
        subst_prods(bj, ps.drop_last()) + subst_prod(bj, ps.last())
    }
}

/// Block `b` after substituting each block of `done`, first to last.
pub open spec fn subst_all(done: Seq<BlockV>, b: BlockV) -> BlockV
    decreases done.len(),
{
    if done.len() == 0 {
        b
    } else {
        let b2 = subst_all(done.drop_last(), b);
        BlockV { left: b2.left, prods: subst_prods(done.last(), b2.prods) }
    }
}

/// The non-recursive productions of `a`, each followed by the fork `f`.
pub open spec fn base_prods(ps: Seq<ProductionV>, a: Seq<char>, f: Seq<char>) -> Seq<ProductionV>
    decreases ps.len(),
{
    if ps.len() == 0 {
        Seq::<ProductionV>::empty()
    } else {
        let rest = base_prods(ps.drop_last(), a, f);
        if starts_with(ps.last(), a) {
            rest
        } else {
            rest.push(ProductionV { left: a, right: ps.last().right.push(ElementV::NT(f)) })
        }
    }
}

/// The recursive productions `a -> a β` of `ps`, as `f -> β f`.
pub open spec fn tail_prods(ps: Seq<ProductionV>, a: Seq<char>, f: Seq<char>) -> Seq<ProductionV>
    decreases ps.len(),
{
    if ps.len() == 0 {
        Seq::<ProductionV>::empty()
    } else {
        let rest = tail_prods(ps.drop_last(), a, f);
        if starts_with(ps.last(), a) {
            rest.push(ProductionV { left: f, right: ps.last().right.drop_first().push(ElementV::NT(f)) })
        } else {
            rest
        }
    }
}

pub open spec fn fork_of(a: Seq<char>) -> Seq<char> {
    a.push(fork_mark())
}

/// Direct left-recursion elimination on one block: the block itself when no
/// production is left-recursive; `None` when all are; otherwise the rewritten
/// block and the block of its fork, which ends with an empty production.
pub open spec fn direct_elim(b: BlockV) -> Option<(BlockV, Option<BlockV>)> {
    let f = fork_of(b.left);
    if forall|i: int| 0 <= i < b.prods.len() ==> !starts_with(#[trigger] b.prods[i], b.left) {
        Some((b, None))
    } else if forall|i: int| 0 <= i < b.prods.len() ==> starts_with(#[trigger] b.prods[i], b.left) {
        None
    } else {
        Some(
            (
                BlockV { left: b.left, prods: base_prods(b.prods, b.left, f) },
                Some(
                    BlockV {
                        left: f,
                        prods: tail_prods(b.prods, b.left, f).push(
                            ProductionV { left: f, right: seq![ElementV::Empty] },
                        ),
                    },
                ),
            ),
        )
    }
}

/// The first `i` blocks after Paull's algorithm, and the forks made so far.
pub open spec fn paull(blocks: Seq<BlockV>, i: nat) -> Option<(Seq<BlockV>, Seq<BlockV>)>
    decreases i,
{
    if i == 0 {
        Some((Seq::<BlockV>::empty(), Seq::<BlockV>::empty()))
    } else {
        match paull(blocks, (i - 1) as nat) {
            None => None,
            Some((done, forks)) => match direct_elim(subst_all(done, blocks[i - 1])) {
                None => None,
                Some((l, r)) => Some(
                    (
                        done.push(l),
                        match r {
                            Some(x) => forks.push(x),
                            None => forks,
                        },
                    ),
                ),
            },
        }
    }
}

/// The grammar without left recursion: the processed blocks in their order,
/// then the forks in the order they were made, each fork appended to the
/// non-terminals.
pub open spec fn eliminated(cfg: CfgV) -> Option<CfgV> {
    match paull(cfg.blocks, cfg.blocks.len()) {
        None => None,
        Some((done, forks)) => Some(
            CfgV {
                start: cfg.start,
                nts: cfg.nts + forks.map_values(|b: BlockV| b.left),
                ts: cfg.ts,
                blocks: done + forks,
            },
        ),
    }
}

proof fn lemma_paull_none(blocks: Seq<BlockV>, i: nat, j: nat)
    requires
        i <= j,
        paull(blocks, i) is None,
    ensures
        paull(blocks, j) is None,
    decreases j - i,
{
    if i < j {
        lemma_paull_none(blocks, i, (j - 1) as nat);
    }
}

/// The processed blocks of `paull(blocks, i)`.
pub open spec fn paull_done(blocks: Seq<BlockV>, i: nat) -> Seq<BlockV> {
    match paull(blocks, i) {
        Some((done, _)) => done,
        None => Seq::<BlockV>::empty(),
    }
}

/// The rewritten block of `direct_elim(b)`.
pub open spec fn elim_base(b: BlockV) -> BlockV {
    match direct_elim(b) {
        Some((l, _)) => l,
        None => b,
    }
}

/// No production of `ps` begins with one of the first `m` names of `nts`, and
/// none has an empty right-hand side.
pub open spec fn avoids_first(nts: Seq<Seq<char>>, m: int, ps: Seq<ProductionV>) -> bool {
    forall|p: int|
        0 <= p < ps.len() ==> (#[trigger] ps[p]).right.len() > 0 && forall|k: int|
            0 <= k < m && k < nts.len() ==> !starts_with(ps[p], #[trigger] nts[k])
}

proof fn lemma_avoids_concat(nts: Seq<Seq<char>>, m: int, a: Seq<ProductionV>, b: Seq<ProductionV>)
    requires
        avoids_first(nts, m, a),
        avoids_first(nts, m, b),
    ensures
        avoids_first(nts, m, a + b),
{
    assert forall|p: int| 0 <= p < (a + b).len() implies (#[trigger] (a + b)[p]).right.len() > 0 && forall|k: int|
        0 <= k < m && k < nts.len() ==> !starts_with((a + b)[p], #[trigger] nts[k]) by {
        if p < a.len() {
            assert((a + b)[p] == a[p]);
        } else {
            assert((a + b)[p] == b[p - a.len()]);
        }
    }
}

/// Substituting the block of `nts[m]`, whose productions begin with none of
/// `nts[..m + 1]`, into productions that begin with none of `nts[..m]` leaves
/// productions that begin with none of `nts[..m + 1]`.
proof fn lemma_subst_prods_avoids(nts: Seq<Seq<char>>, m: int, bj: BlockV, ps: Seq<ProductionV>)
    requires
        0 <= m < nts.len(),
        bj.left == nts[m],
        avoids_first(nts, m + 1, bj.prods),
        avoids_first(nts, m, ps),
    ensures
        avoids_first(nts, m + 1, subst_prods(bj, ps)),
    decreases ps.len(),
{
    if ps.len() > 0 {
        let init = ps.drop_last();
        assert(avoids_first(nts, m, init)) by {
            assert forall|p: int| 0 <= p < init.len() implies (#[trigger] init[p]).right.len() > 0 && forall|k: int|
                0 <= k < m && k < nts.len() ==> !starts_with(init[p], #[trigger] nts[k]) by {
                assert(init[p] == ps[p]);
            }
        }
        lemma_subst_prods_avoids(nts, m, bj, init);
        let last = ps.last();
        assert(last == ps[ps.len() - 1]);
        let out = subst_prod(bj, last);
        assert(avoids_first(nts, m + 1, out)) by {
            if starts_with(last, bj.left) {
                assert forall|p: int| 0 <= p < out.len() implies (#[trigger] out[p]).right.len() > 0 && forall|k: int|
                    0 <= k < m + 1 && k < nts.len() ==> !starts_with(out[p], #[trigger] nts[k]) by {
                    let d = bj.prods[p];
                    assert(out[p].right == d.right + last.right.drop_first());
                    assert(d.right.len() > 0);
                    assert(out[p].right[0] == d.right[0]);
                    assert forall|k: int| 0 <= k < m + 1 && k < nts.len() implies !starts_with(out[p], #[trigger] nts[k]) by {
                        assert(!starts_with(d, nts[k]));
                    }
                }
            } else {
                assert forall|p: int| 0 <= p < out.len() implies (#[trigger] out[p]).right.len() > 0 && forall|k: int|
                    0 <= k < m + 1 && k < nts.len() ==> !starts_with(out[p], #[trigger] nts[k]) by {
                    assert(out[p] == last);
                    assert forall|k: int| 0 <= k < m + 1 && k < nts.len() implies !starts_with(out[p], #[trigger] nts[k]) by {
                        if k == m {
                        } else {
                            assert(!starts_with(ps[ps.len() - 1], nts[k]));
                        }
                    }
                }
            }
        }
        lemma_avoids_concat(nts, m + 1, subst_prods(bj, init), out);
    }
}

/// A processed block `j` belongs to `nts[j]` and its productions begin with
/// none of `nts[..j + 1]`.
pub open spec fn processed_ok(nts: Seq<Seq<char>>, done: Seq<BlockV>) -> bool {
    forall|j: int|
        0 <= j < done.len() ==> (#[trigger] done[j]).left == nts[j] && avoids_first(nts, j + 1, done[j].prods)
}

proof fn lemma_subst_all_avoids(nts: Seq<Seq<char>>, done: Seq<BlockV>, b: BlockV)
    requires
        done.len() <= nts.len(),
        processed_ok(nts, done),
        avoids_first(nts, 0, b.prods),
    ensures
        subst_all(done, b).left == b.left,
        avoids_first(nts, done.len() as int, subst_all(done, b).prods),
    decreases done.len(),
{
    if done.len() > 0 {
        let init = done.drop_last();
        assert(processed_ok(nts, init)) by {
            assert forall|j: int| 0 <= j < init.len() implies (#[trigger] init[j]).left == nts[j] && avoids_first(nts, j + 1, init[j].prods) by {
                assert(init[j] == done[j]);
            }
        }
        lemma_subst_all_avoids(nts, init, b);
        let m = done.len() - 1;
        assert(done.last() == done[m]);
        lemma_subst_prods_avoids(nts, m, done.last(), subst_all(init, b).prods);
    }
}

proof fn lemma_base_prods_avoid(nts: Seq<Seq<char>>, i: int, ps: Seq<ProductionV>, f: Seq<char>)
    requires
        0 <= i < nts.len(),
        avoids_first(nts, i, ps),
    ensures
        avoids_first(nts, i + 1, base_prods(ps, nts[i], f)),
    decreases ps.len(),
{
    if ps.len() > 0 {
        let init = ps.drop_last();
        assert(avoids_first(nts, i, init)) by {
            assert forall|p: int| 0 <= p < init.len() implies (#[trigger] init[p]).right.len() > 0 && forall|k: int|
                0 <= k < i && k < nts.len() ==> !starts_with(init[p], #[trigger] nts[k]) by {
                assert(init[p] == ps[p]);
            }
        }
        lemma_base_prods_avoid(nts, i, init, f);
        let last = ps.last();
        assert(last == ps[ps.len() - 1]);
        if !starts_with(last, nts[i]) {
            let np = ProductionV { left: nts[i], right: last.right.push(ElementV::NT(f)) };
            let rest = base_prods(init, nts[i], f);
            assert(np.right[0] == last.right[0]);
            assert forall|p: int| 0 <= p < rest.push(np).len() implies (#[trigger] rest.push(np)[p]).right.len() > 0 && forall|k: int|
                0 <= k < i + 1 && k < nts.len() ==> !starts_with(rest.push(np)[p], #[trigger] nts[k]) by {
                if p < rest.len() {
                    assert(rest.push(np)[p] == rest[p]);
                } else {
                    assert forall|k: int| 0 <= k < i + 1 && k < nts.len() implies !starts_with(np, #[trigger] nts[k]) by {
                        if k < i {
                            assert(!starts_with(ps[ps.len() - 1], nts[k]));
                        }
                    }
                }
            }
        }
    }
}

proof fn lemma_paull_ordered(cfg: CfgV, i: nat)
    requires
        i <= cfg.blocks.len(),
        cfg.blocks.len() == cfg.nts.len(),
        forall|a: int| 0 <= a < cfg.blocks.len() ==> (#[trigger] cfg.blocks[a]).left == cfg.nts[a],
        forall|a: int| 0 <= a < cfg.blocks.len() ==> avoids_first(cfg.nts, 0, (#[trigger] cfg.blocks[a]).prods),
        paull(cfg.blocks, i) is Some,
    ensures
        paull_done(cfg.blocks, i).len() == i,
        processed_ok(cfg.nts, paull_done(cfg.blocks, i)),
    decreases i,
{
    if i > 0 {
        let j = i - 1;
        lemma_paull_ordered(cfg, j as nat);
        let done = paull_done(cfg.blocks, j as nat);
        let b = cfg.blocks[j];
        lemma_subst_all_avoids(cfg.nts, done, b);
        let sb = subst_all(done, b);
        let l = elim_base(sb);
        assert(avoids_first(cfg.nts, j + 1, l.prods)) by {
            if forall|q: int| 0 <= q < sb.prods.len() ==> !starts_with(#[trigger] sb.prods[q], sb.left) {
                assert forall|p: int| 0 <= p < l.prods.len() implies (#[trigger] l.prods[p]).right.len() > 0 && forall|k: int|
                    0 <= k < j + 1 && k < cfg.nts.len() ==> !starts_with(l.prods[p], #[trigger] cfg.nts[k]) by {
                    assert(!starts_with(sb.prods[p], sb.left));
                }
            } else {
                lemma_base_prods_avoid(cfg.nts, j, sb.prods, fork_of(sb.left));
            }
        }
        let done2 = paull_done(cfg.blocks, i);
        assert(done2 == done.push(l));
        assert forall|j2: int| 0 <= j2 < done2.len() implies (#[trigger] done2[j2]).left == cfg.nts[j2] && avoids_first(cfg.nts, j2 + 1, done2[j2].prods) by {
            if j2 < j {
                assert(done2[j2] == done[j2]);
            }
        }
    }
}

/// Each block belongs to the non-terminal at its position, and no right-hand
/// side is empty.
pub open spec fn aligned(cfg: CfgV) -> bool {
    &&& cfg.blocks.len() == cfg.nts.len()
    &&& forall|a: int| 0 <= a < cfg.blocks.len() ==> (#[trigger] cfg.blocks[a]).left == cfg.nts[a]
    &&& forall|a: int, p: int|
        0 <= a < cfg.blocks.len() && 0 <= p < cfg.blocks[a].prods.len() ==> (#[trigger] cfg.blocks[a].prods[p]).right.len() > 0
}

/// No production of the `i`-th of the first `n` non-terminals begins with the `k`-th, `k <= i`.
pub open spec fn first_symbols_ordered(e: CfgV, n: int) -> bool {
    forall|i: int, p: int, k: int|
        0 <= k <= i < n && 0 <= p < e.blocks[i].prods.len() ==> !(#[trigger] starts_with(e.blocks[i].prods[p], e.nts[k]))
}

/// Left-recursion elimination orders first symbols: in the result, no
/// production of the `i`-th declared non-terminal begins with the `k`-th for
/// any `k <= i`, so none of them is left-recursive through first symbols.
pub proof fn lemma_eliminated_ordered(cfg: CfgV)
    requires
        aligned(cfg),
        eliminated(cfg) is Some,
    ensures
        first_symbols_ordered(eliminated(cfg)->0, cfg.nts.len() as int),
{
    assert forall|a: int| 0 <= a < cfg.blocks.len() implies avoids_first(cfg.nts, 0, (#[trigger] cfg.blocks[a]).prods) by {
        assert forall|p: int| 0 <= p < cfg.blocks[a].prods.len() implies (#[trigger] cfg.blocks[a].prods[p]).right.len() > 0 && forall|k: int|
            0 <= k < 0 && k < cfg.nts.len() ==> !starts_with(cfg.blocks[a].prods[p], #[trigger] cfg.nts[k]) by {
        }
    }
    lemma_paull_ordered(cfg, cfg.blocks.len());
    let e = eliminated(cfg)->0;
    let done = paull_done(cfg.blocks, cfg.blocks.len());
    assert forall|i: int, p: int, k: int|
        0 <= k <= i < cfg.nts.len() && 0 <= p < e.blocks[i].prods.len() implies !(#[trigger] starts_with(e.blocks[i].prods[p], e.nts[k])) by {
        assert(e.blocks[i] == done[i]);
        assert(e.nts[k] == cfg.nts[k]);
        assert(avoids_first(cfg.nts, i + 1, done[i].prods));
        assert(!starts_with(done[i].prods[p], cfg.nts[k]));
    }
}

/// `a` followed by `b[from..]`.
fn join_elements(a: &Vec<Element>, b: &Vec<Element>, from: usize) -> (r: Vec<Element>)
    requires
        from <= b@.len(),
    ensures
        elements_view(r@) == elements_view(a@) + elements_view(b@).subrange(from as int, b@.len() as int),
{
    let mut r: Vec<Element> = Vec::new();
    let mut i: usize = 0;
    while i < a.len()
        invariant
            i <= a@.len(),
            r@.len() == i,
            forall|k: int| 0 <= k < i ==> #[trigger] r@[k]@ == a@[k]@,
        decreases a@.len() - i,
    {
        r.push(a[i].duplicate());
        i = i + 1;
    }
    assert(elements_view(r@) =~= elements_view(a@) + elements_view(b@).subrange(from as int, from as int));
    let mut j: usize = from;
    while j < b.len()
        invariant
            from <= j <= b@.len(),
            r@.len() == a@.len() + j - from,
            forall|k: int| 0 <= k < a@.len() ==> #[trigger] r@[k]@ == a@[k]@,
            forall|k: int| a@.len() <= k < r@.len() ==> #[trigger] r@[k]@ == b@[k - a@.len() + from]@,
        decreases b@.len() - j,
    {
        r.push(b[j].duplicate());
        j = j + 1;
    }
    assert(elements_view(r@) =~= elements_view(a@) + elements_view(b@).subrange(from as int, b@.len() as int));
    r
}

/// The productions that `prod` becomes when the productions of `lhs` are
/// substituted for a leading `lhs.left`.
pub fn replace_prod(lhs: &ProdBlock, prod: Production) -> (r: Vec<Production>)
    ensures
        productions_view(r@) == subst_prod(lhs@, prod@),
{
    let mut ret: Vec<Production> = Vec::new();
    if prod.right.len() > 0 && prod.right[0].is_non_terminal(&lhs.left) {
        let mut i: usize = 0;
        while i < lhs.productions.len()
            invariant
                i <= lhs@.prods.len(),
                starts_with(prod@, lhs@.left),
                ret@.len() == i,
                forall|k: int| 0 <= k < i ==> #[trigger] ret@[k]@ == subst_prod(lhs@, prod@)[k],
            decreases lhs@.prods.len() - i,
        {
            let right = join_elements(&lhs.productions[i].right, &prod.right, 1);
            proof {
                assert(elements_view(prod.right@).subrange(1, prod.right@.len() as int) =~= prod@.right.drop_first());
            }
            ret.push(Production::new(prod.left.duplicate(), right));
            i = i + 1;
        }
        assert(productions_view(ret@) =~= subst_prod(lhs@, prod@));
        ret
    } else {
        ret.push(prod);
        proof {
            assert(productions_view(ret@) =~= seq![prod@]);
        }
        ret
    }
}

/// Block `rhs` with the productions of `lhs` substituted for a leading `lhs.left`.
pub fn replace_pb(lhs: &ProdBlock, rhs: ProdBlock) -> (r: ProdBlock)
    ensures
        r@ == (BlockV { left: rhs@.left, prods: subst_prods(lhs@, rhs@.prods) }),
{
    let mut productions: Vec<Production> = Vec::new();
    let mut i: usize = 0;
    while i < rhs.productions.len()
        invariant
            i <= rhs@.prods.len(),
            productions_view(productions@) == subst_prods(lhs@, rhs@.prods.take(i as int)),
        decreases rhs@.prods.len() - i,
    {
        let replaced = replace_prod(lhs, rhs.productions[i].duplicate());
        let ghost before = productions_view(productions@);
        let mut k: usize = 0;
        let mut replaced = replaced;
        let mut extra: Vec<Production> = Vec::new();
        std::mem::swap(&mut extra, &mut replaced);
        let ghost ex = productions_view(extra@);
        productions.append(&mut extra);
        proof {
            assert(productions_view(productions@) =~= before + ex);
            assert(rhs@.prods.take(i + 1).drop_last() =~= rhs@.prods.take(i as int));
            assert(rhs@.prods.take(i + 1).last() == rhs@.prods[i as int]);
        }
        i = i + 1;
    }
    proof {
        assert(rhs@.prods.take(i as int) =~= rhs@.prods);
    }
    ProdBlock::new(rhs.left, productions)
}

/// Block `rhs` after substituting each block of `lhs`, first to last.
pub fn replace_multi(lhs: &[ProdBlock], rhs: ProdBlock) -> (r: ProdBlock)
    ensures
        r@ == subst_all(blocks_view(lhs@), rhs@),
{
    let mut acc = rhs;
    let mut i: usize = 0;
    while i < lhs.len()
        invariant
            i <= lhs@.len(),
            acc@ == subst_all(blocks_view(lhs@).take(i as int), rhs@),
        decreases lhs@.len() - i,
    {
        proof {
            assert(blocks_view(lhs@).take(i + 1).drop_last() =~= blocks_view(lhs@).take(i as int));
        }
        acc = replace_pb(&lhs[i], acc);
        i = i + 1;
    }
    proof {
        assert(blocks_view(lhs@).take(i as int) =~= blocks_view(lhs@));
    }
    acc
}

/// Removes direct left recursion from one block: `A -> A β | α` becomes
/// `A -> α A'` and `A' -> β A' | ε`, where `A'` is the fork of `A`.
pub fn eliminate_direct_left_recursion(block: ProdBlock) -> (r: Result<(ProdBlock, Option<ProdBlock>), Error>)
    ensures
        match direct_elim(block@) {
            None => r == Err::<(ProdBlock, Option<ProdBlock>), Error>(Error::AllLeftRecursive),
            Some((l, o)) => r is Ok && r->Ok_0.0@ == l && match o {
                None => r->Ok_0.1 is None,
                Some(x) => r->Ok_0.1 is Some && r->Ok_0.1->Some_0@ == x,
            },
        },
{
    let ghost b = block@;
    let ghost a = block@.left;
    let mut any_rec = false;
    let mut any_base = false;
    let mut k: usize = 0;
    while k < block.productions.len()
        invariant
            b == block@,
            a == b.left,
            k <= b.prods.len(),
            any_rec == exists|i: int| 0 <= i < k && starts_with(#[trigger] b.prods[i], a),
            any_base == exists|i: int| 0 <= i < k && !starts_with(#[trigger] b.prods[i], a),
        decreases b.prods.len() - k,
    {
        let p = &block.productions[k];
        assert(p@ == b.prods[k as int]);
        if p.right.len() > 0 && p.right[0].is_non_terminal(&block.left) {
            any_rec = true;
        } else {
            any_base = true;
        }
        k = k + 1;
    }
    if !any_rec {
        return Ok((block, None));
    }
    if !any_base {
        return Err(Error::AllLeftRecursive);
    }
    let left = block.left.duplicate();
    let fork = left.fork();
    let ghost f = fork_of(a);
    let empty: Vec<Element> = Vec::new();
    let mut base: Vec<Production> = Vec::new();
    let mut tail: Vec<Production> = Vec::new();
    let mut k: usize = 0;
    while k < block.productions.len()
        invariant
            b == block@,
            a == b.left,
            left@ == a,
            fork@ == f,
            f == fork_of(a),
            empty@.len() == 0,
            k <= b.prods.len(),
            productions_view(base@) == base_prods(b.prods.take(k as int), a, f),
            productions_view(tail@) == tail_prods(b.prods.take(k as int), a, f),
        decreases b.prods.len() - k,
    {
        let p = &block.productions[k];
        assert(p@ == b.prods[k as int]);
        assert(b.prods.take(k + 1).drop_last() =~= b.prods.take(k as int));
        assert(b.prods.take(k + 1).last() == b.prods[k as int]);
        let ghost base0 = productions_view(base@);
        let ghost tail0 = productions_view(tail@);
        if p.right.len() > 0 && p.right[0].is_non_terminal(&block.left) {
            let mut right = join_elements(&empty, &p.right, 1);
            right.push(Element::NT(fork.duplicate()));
            let np = Production::new(fork.duplicate(), right);
            tail.push(np);
            proof {
                assert(elements_view(empty@) =~= Seq::<ElementV>::empty());
                assert(np@.right =~= p@.right.drop_first().push(ElementV::NT(f)));
                assert(productions_view(tail@) =~= tail0.push(np@));
                assert(productions_view(base@) =~= base0);
            }
        } else {
            let mut right = join_elements(&p.right, &empty, 0);
            right.push(Element::NT(fork.duplicate()));
            let np = Production::new(left.duplicate(), right);
            base.push(np);
            proof {
                assert(elements_view(empty@).subrange(0, 0) =~= Seq::<ElementV>::empty());
                assert(np@.right =~= p@.right.push(ElementV::NT(f)));
                assert(productions_view(base@) =~= base0.push(np@));
                assert(productions_view(tail@) =~= tail0);
            }
        }
        k = k + 1;
    }
    assert(b.prods.take(k as int) =~= b.prods);
    let mut eps_right: Vec<Element> = Vec::new();
    eps_right.push(Element::Empty);
    let eps_prod = Production::new(fork.duplicate(), eps_right);
    let ghost tail0 = productions_view(tail@);
    tail.push(eps_prod);
    proof {
        assert(elements_view(eps_right@) =~= seq![ElementV::Empty]);
        assert(productions_view(tail@) =~= tail0.push(eps_prod@));
    }
    Ok((ProdBlock::new(left, base), Some(ProdBlock::new(fork, tail))))
}

/// Removes direct and indirect left recursion from `cfg`, taking its
/// non-terminals in their declared order.
pub fn eliminate_left_recursion(cfg: CFG) -> (r: Result<CFGWithoutLeftRecursion, Error>)
    ensures
        match eliminated(cfg@) {
            None => r == Err::<CFGWithoutLeftRecursion, Error>(Error::AllLeftRecursive),
            Some(e) => r is Ok && r->Ok_0@ == e,
        },
        r is Ok && aligned(cfg@) ==> first_symbols_ordered(r->Ok_0@, cfg@.nts.len() as int),
{
    let ghost c = cfg@;
    let mut done: Vec<ProdBlock> = Vec::new();
    let mut forks: Vec<ProdBlock> = Vec::new();
    let mut i: usize = 0;
    while i < cfg.productions.len()
        invariant
            c == cfg@,
            i <= c.blocks.len(),
            paull(c.blocks, i as nat) == Some((blocks_view(done@), blocks_view(forks@))),
        decreases c.blocks.len() - i,
    {
        let b = replace_multi(done.as_slice(), cfg.productions[i].duplicate());
        match eliminate_direct_left_recursion(b) {
            Err(e) => {
                proof {
                    assert(paull(c.blocks, (i + 1) as nat) is None);
                    lemma_paull_none(c.blocks, (i + 1) as nat, c.blocks.len());
                }
                return Err(e);
            },
            Ok((l, r)) => {
                let ghost d0 = done@;
                let ghost f0 = forks@;
                done.push(l);
                assert(blocks_view(done@) =~= blocks_view(d0).push(l@));
                match r {
                    Some(x) => {
                        forks.push(x);
                        assert(blocks_view(forks@) =~= blocks_view(f0).push(x@));
                    },
                    None => {},
                }
            },
        }
        i = i + 1;
    }
    let CFG { start, non_terminals, terminals, productions: _ } = cfg;
    let mut non_terminals = non_terminals;
    let ghost n0 = non_terminals@;
    let mut k: usize = 0;
    while k < forks.len()
        invariant
            k <= forks@.len(),
            non_terminals@.len() == n0.len() + k,
            forall|j: int| 0 <= j < n0.len() ==> #[trigger] non_terminals@[j] == n0[j],
            forall|j: int| 0 <= j < k ==> #[trigger] non_terminals@[n0.len() + j]@ == forks@[j]@.left,
        decreases forks@.len() - k,
    {
        non_terminals.push(forks[k].left.duplicate());
        k = k + 1;
    }
    let ghost done0 = done@;
    let ghost forks0 = forks@;
    done.append(&mut forks);
    let result = CFG { start, non_terminals, terminals, productions: done };
    proof {
        assert(c.blocks.len() == i);
        assert forall|m: int| n0.len() <= m < result@.nts.len() implies #[trigger] result@.nts[m] == blocks_view(forks0)[m - n0.len()].left by {
            let j = m - n0.len();
            assert(non_terminals@[n0.len() + j]@ == forks0[j]@.left);
        }
        assert(result@.nts =~= c.nts + blocks_view(forks0).map_values(|b: BlockV| b.left));
        assert(result@.blocks =~= blocks_view(done0) + blocks_view(forks0));
        if aligned(c) {
            lemma_eliminated_ordered(c);
        }
    }
    Ok(CFGWithoutLeftRecursion::from_cfg(result))
}

} // verus!
