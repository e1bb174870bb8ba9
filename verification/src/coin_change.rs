//! Coin-change search for a breakdown of a stack height into spacer SKUs:
//! a dynamic program over heights that remembers, for each height, the SKU
//! by which it was first reached from the lowest possible height.

use vstd::prelude::*;

use crate::solver::{breakdown_total, lemma_breakdown_total_concat};
use crate::spacer::{is_stack_sum, stack_height, valid_picks, Spacer, SpacerCatalog};

verus! {

/// `d` is the height of a SKU that adds something to a stack.
pub open spec fn is_sku_step(skus: Seq<Spacer>, d: int) -> bool {
    exists|k: int| 0 <= k < skus.len() && #[trigger] skus[k].height_mm == d && d > 0
}

/// Stack height `p` becomes `j` by adding one SKU.
pub open spec fn pred_step(skus: Seq<Spacer>, p: int, j: int) -> bool {
    0 <= p && is_stack_sum(skus, p) && is_sku_step(skus, j - p)
}

/// `p` is the lowest stack height from which one SKU reaches `j`.
pub open spec fn is_first_pred(skus: Seq<Spacer>, j: int, p: int) -> bool {
    &&& 0 <= p < j
    &&& pred_step(skus, p, j)
    &&& forall|q: int| 0 <= q < p ==> !#[trigger] pred_step(skus, q, j)
}

/// The lowest stack height from which one SKU reaches `j`.
pub open spec fn first_pred(skus: Seq<Spacer>, j: int) -> int {
    choose|p: int| is_first_pred(skus, j, p)
}

/// SKU heights met walking down from `j` to 0, always stepping to the
/// lowest stack height that reaches the current one.
pub open spec fn dp_chain(skus: Seq<Spacer>, j: int) -> Seq<int>
    decreases j,
{
    if j <= 0 {
        seq![]
    } else {
        let p = first_pred(skus, j);
        if 0 <= p < j {
            seq![j - p] + dp_chain(skus, p)
        } else {
            seq![]
        }
    }
}

/// Number of occurrences of `x` in `s`.
pub open spec fn occurrences(s: Seq<int>, x: int) -> nat
    decreases s.len(),
{
    if s.len() == 0 {
        0
    } else {
        (if s[0] == x {
            1nat
        } else {
            0nat
        }) + occurrences(s.drop_first(), x)
    }
}

/// `(Spacer { h }, count of h in chain)` for each height `h` from `top` down
/// to 1 that occurs in `chain`.
pub open spec fn tally_desc(chain: Seq<int>, top: int) -> Seq<(Spacer, u16)>
    decreases top,
{
    if top <= 0 {
        seq![]
    } else {
        let c = occurrences(chain, top);
        (if c > 0 {
            seq![(Spacer { height_mm: top as u16 }, c as u16)]
        } else {
            seq![]
        }) + tally_desc(chain, top - 1)
    }
}

/// The breakdown the coin-change search gives for a reachable `total`.
pub open spec fn coin_change_of(skus: Seq<Spacer>, total: int) -> Seq<(Spacer, u16)> {
    tally_desc(dp_chain(skus, total), total)
}

/// A positive stack height is one SKU above a lower stack height.
proof fn lemma_stack_sum_has_pred(skus: Seq<Spacer>, picks: Seq<int>)
    requires
        valid_picks(skus, picks),
        stack_height(skus, picks) > 0,
    ensures
        exists|p: int| #[trigger] pred_step(skus, p, stack_height(skus, picks)),
    decreases picks.len(),
{
    let rest = picks.drop_last();
    let k = picks.last();
    assert(valid_picks(skus, rest)) by {
        assert forall|q: int| 0 <= q < rest.len() implies 0 <= #[trigger] rest[q] < skus.len() by {
            assert(rest[q] == picks[q]);
        }
    }
    assert(0 <= k < skus.len()) by {
        assert(picks[picks.len() - 1] == k);
    }
    let p = stack_height(skus, rest);
    if skus[k].height_mm == 0 {
        lemma_stack_sum_has_pred(skus, rest);
    } else {
        crate::spacer::lemma_stack_height_nonneg(skus, rest);
        assert(is_stack_sum(skus, p));
        assert(is_sku_step(skus, stack_height(skus, picks) - p));
        assert(pred_step(skus, p, stack_height(skus, picks)));
    }
}

/// For a positive height `j`: `j` is a stack height exactly when some lower
/// stack height reaches it with one SKU.
proof fn lemma_stack_sum_iff_pred(skus: Seq<Spacer>, j: int)
    requires
        j > 0,
    ensures
        is_stack_sum(skus, j) <==> exists|p: int| #[trigger] pred_step(skus, p, j),
{
    if is_stack_sum(skus, j) {
        let picks = choose|picks: Seq<int>|
            valid_picks(skus, picks) && #[trigger] stack_height(skus, picks) == j;
        lemma_stack_sum_has_pred(skus, picks);
    }
    if exists|p: int| #[trigger] pred_step(skus, p, j) {
        let p = choose|p: int| #[trigger] pred_step(skus, p, j);
        let k = choose|k: int| 0 <= k < skus.len() && #[trigger] skus[k].height_mm == j - p && j - p > 0;
        crate::spacer::lemma_stack_sum_step(skus, p, k);
    }
}

/// Below `p`, if some stack height reaches `j` in one SKU, a lowest one does.
proof fn lemma_first_pred_exists(skus: Seq<Spacer>, j: int, p: int)
    requires
        pred_step(skus, p, j),
    ensures
        is_first_pred(skus, j, first_pred(skus, j)),
    decreases p,
{
    if forall|q: int| 0 <= q < p ==> !#[trigger] pred_step(skus, q, j) {
        assert(is_first_pred(skus, j, p));
    } else {
        let q = choose|q: int| 0 <= q < p && #[trigger] pred_step(skus, q, j);
        lemma_first_pred_exists(skus, j, q);
    }
}

/// A lowest stack height reaching `j` in one SKU is the one `first_pred` names.
pub proof fn lemma_first_pred_unique(skus: Seq<Spacer>, j: int, p: int)
    requires
        is_first_pred(skus, j, p),
    ensures
        first_pred(skus, j) == p,
{
    lemma_first_pred_exists(skus, j, p);
    let f = first_pred(skus, j);
    if f < p {
        assert(pred_step(skus, f, j));
    } else if p < f {
        assert(pred_step(skus, p, j));
    }
}

/// Facts about the chain of a stack height: its heights are positive SKU
/// heights no larger than `j`, they add up to `j`, and there are at most `j`.
pub proof fn lemma_dp_chain_facts(skus: Seq<Spacer>, j: int)
    requires
        j >= 0,
        is_stack_sum(skus, j),
    ensures
        seq_sum(dp_chain(skus, j)) == j,
        dp_chain(skus, j).len() <= j,
        forall|q: int|
            0 <= q < dp_chain(skus, j).len() ==> 1 <= #[trigger] dp_chain(skus, j)[q] <= j
                && is_sku_step(skus, dp_chain(skus, j)[q]),
    decreases j,
{
    if j > 0 {
        lemma_stack_sum_iff_pred(skus, j);
        let p0 = choose|p: int| #[trigger] pred_step(skus, p, j);
        lemma_first_pred_exists(skus, j, p0);
        let p = first_pred(skus, j);
        lemma_dp_chain_facts(skus, p);
        let c = dp_chain(skus, j);
        let rest = dp_chain(skus, p);
        assert(c == seq![j - p] + rest);
        assert(c.drop_first() =~= rest);
        assert forall|q: int| 0 <= q < c.len() implies 1 <= #[trigger] c[q] <= j && is_sku_step(
            skus,
            c[q],
        ) by {
            if q > 0 {
                assert(c[q] == rest[q - 1]);
            }
        }
    }
}

/// Sum of a sequence of integers.
pub open spec fn seq_sum(s: Seq<int>) -> int
    decreases s.len(),
{
    if s.len() == 0 {
        0
    } else {
        s[0] + seq_sum(s.drop_first())
    }
}

/// `sum over x in 1..=top of x * occurrences(chain, x)`.
pub open spec fn weighted_count(chain: Seq<int>, top: int) -> int
    decreases top,
{
    if top <= 0 {
        0
    } else {
        top * occurrences(chain, top) + weighted_count(chain, top - 1)
    }
}

pub proof fn lemma_tally_total(chain: Seq<int>, top: int)
    requires
        forall|x: int| 1 <= x <= top ==> occurrences(chain, x) <= u16::MAX,
        top <= u16::MAX,
    ensures
        breakdown_total(tally_desc(chain, top)) == weighted_count(chain, top),
    decreases top,
{
    if top > 0 {
        lemma_tally_total(chain, top - 1);
        let c = occurrences(chain, top);
        let head: Seq<(Spacer, u16)> = if c > 0 {
            seq![(Spacer { height_mm: top as u16 }, c as u16)]
        } else {
            seq![]
        };
        lemma_breakdown_total_concat(head, tally_desc(chain, top - 1));
        if c > 0 {
            assert(head.drop_first() =~= Seq::<(Spacer, u16)>::empty());
            assert(breakdown_total(head.drop_first()) == 0);
            assert(head[0].0.height_mm == top);
            assert(head[0].1 == c);
            assert(breakdown_total(head) == top * c);
        } else {
            assert(top * c == 0) by (nonlinear_arith)
                requires
                    c == 0,
            ;
        }
    }
}

proof fn lemma_weighted_count_front(e: int, rest: Seq<int>, top: int)
    ensures
        weighted_count(seq![e] + rest, top) == weighted_count(rest, top) + if 1 <= e <= top {
            e
        } else {
            0
        },
    decreases top,
{
    let s = seq![e] + rest;
    assert(s.drop_first() =~= rest);
    if top > 0 {
        lemma_weighted_count_front(e, rest, top - 1);
        let o = occurrences(rest, top);
        if e == top {
            assert(occurrences(s, top) == o + 1);
            assert(top * (o + 1) == top * o + top) by (nonlinear_arith);
        } else {
            assert(occurrences(s, top) == o);
        }
    }
}

pub proof fn lemma_weighted_count_is_sum(chain: Seq<int>, top: int)
    requires
        forall|q: int| 0 <= q < chain.len() ==> 1 <= #[trigger] chain[q] <= top,
    ensures
        weighted_count(chain, top) == seq_sum(chain),
    decreases chain.len(),
{
    if chain.len() == 0 {
        lemma_weighted_count_empty(chain, top);
    } else {
        let rest = chain.drop_first();
        assert(chain =~= seq![chain[0]] + rest);
        assert forall|q: int| 0 <= q < rest.len() implies 1 <= #[trigger] rest[q] <= top by {
            assert(rest[q] == chain[q + 1]);
        }
        lemma_weighted_count_is_sum(rest, top);
        lemma_weighted_count_front(chain[0], rest, top);
    }
}

proof fn lemma_weighted_count_empty(chain: Seq<int>, top: int)
    requires
        chain.len() == 0,
    ensures
        weighted_count(chain, top) == 0,
    decreases top,
{
    if top > 0 {
        lemma_weighted_count_empty(chain, top - 1);
        assert(top * 0 == 0);
    }
}

proof fn lemma_occurrences_push(s: Seq<int>, v: int, x: int)
    ensures
        occurrences(s.push(v), x) == occurrences(s, x) + if v == x {
            1nat
        } else {
            0nat
        },
    decreases s.len(),
{
    if s.len() > 0 {
        assert(s.push(v).drop_first() =~= s.drop_first().push(v));
        lemma_occurrences_push(s.drop_first(), v, x);
    } else {
        assert(s.push(v).drop_first() =~= s);
    }
}

pub proof fn lemma_occurrences_bound(s: Seq<int>, x: int)
    ensures
        occurrences(s, x) <= s.len(),
    decreases s.len(),
{
    if s.len() > 0 {
        lemma_occurrences_bound(s.drop_first(), x);
    }
}

/// Coin-change search for a breakdown of `total_mm` into the catalog's
/// SKUs. Returns `None` if `total_mm` isn't reachable.
pub fn coin_change_breakdown(catalog: &SpacerCatalog, total_mm: u16) -> (res: Option<
    Vec<(Spacer, u16)>,
>)
    ensures
        res is None <==> !is_stack_sum(catalog.spacers@, total_mm as int),
        res matches Some(v) ==> v@ == coin_change_of(catalog.spacers@, total_mm as int),
{
    let ghost skus = catalog.spacers@;
    let n: usize = total_mm as usize;
    let m = catalog.spacers.len();
    let mut prev: Vec<Option<Spacer>> = Vec::new();
    let mut reached: Vec<bool> = Vec::new();
    let mut z: usize = 0;
    while z <= n
        invariant
            n == total_mm,
            z <= n + 1,
            prev.len() == z,
            reached.len() == z,
            forall|j: int| 0 <= j < z ==> !reached[j],
        decreases n + 1 - z,
    {
        prev.push(None);
        reached.push(false);
        z += 1;
    }
    reached.set(0, true);

    let mut i: usize = 0;
    while i <= n
        invariant
            skus == catalog.spacers@,
            m == skus.len(),
            n == total_mm,
            i <= n + 1,
            prev.len() == n + 1,
            reached.len() == n + 1,
            forall|j: int|
                0 <= j <= n ==> (reached[j] <==> (j == 0 || exists|p: int|
                    p < i && #[trigger] pred_step(skus, p, j))),
            forall|j: int|
                0 < j <= n && reached[j] ==> (prev[j] is Some && is_first_pred(
                    skus,
                    j,
                    j - prev[j]->0.height_mm,
                )),
        decreases n + 1 - i,
    {
        proof {
            if i > 0 {
                lemma_stack_sum_iff_pred(skus, i as int);
            }
            crate::spacer::lemma_stack_sum_zero(skus);
            assert(reached[i as int] <==> is_stack_sum(skus, i as int));
        }
        if reached[i] {
            let mut k: usize = 0;
            while k < m
                invariant
                    skus == catalog.spacers@,
                    m == skus.len(),
                    n == total_mm,
                    i <= n,
                    k <= m,
                    is_stack_sum(skus, i as int),
                    prev.len() == n + 1,
                    reached.len() == n + 1,
                    forall|j: int|
                        0 <= j <= n ==> (reached[j] <==> (j == 0 || (exists|p: int|
                            p < i && #[trigger] pred_step(skus, p, j)) || (exists|kk: int|
                            0 <= kk < k && #[trigger] skus[kk].height_mm > 0 && j == i
                                + skus[kk].height_mm))),
                    forall|j: int|
                        0 < j <= n && reached[j] ==> (prev[j] is Some && is_first_pred(
                            skus,
                            j,
                            j - prev[j]->0.height_mm,
                        )),
                decreases m - k,
            {
                let sku = catalog.spacers[k];
                let h = sku.height_mm as usize;
                if h != 0 {
                    let j = i + h;
                    if j <= n && !reached[j] {
                        proof {
                            assert(pred_step(skus, i as int, j as int)) by {
                                assert(skus[k as int].height_mm == j - i);
                            }
                            assert forall|q: int| 0 <= q < i implies !#[trigger] pred_step(
                                skus,
                                q,
                                j as int,
                            ) by {}
                            assert(is_first_pred(skus, j as int, i as int));
                        }
                        reached.set(j, true);
                        prev.set(j, Some(sku));
                    }
                }
                proof {
                    assert forall|j: int|
                        0 <= j <= n && (j == 0 || (exists|p: int|
                            p < i && #[trigger] pred_step(skus, p, j)) || (exists|kk: int|
                            0 <= kk < k + 1 && #[trigger] skus[kk].height_mm > 0 && j == i
                                + skus[kk].height_mm)) implies reached[j] by {
                        if !(j == 0 || (exists|p: int| p < i && #[trigger] pred_step(skus, p, j)) || (
                        exists|kk: int|
                            0 <= kk < k && #[trigger] skus[kk].height_mm > 0 && j == i
                                + skus[kk].height_mm)) {
                            let kk = choose|kk: int|
                                0 <= kk < k + 1 && #[trigger] skus[kk].height_mm > 0 && j == i
                                    + skus[kk].height_mm;
                            assert(kk == k);
                        }
                    }
                }
                k += 1;
            }
            proof {
                assert forall|j: int|
                    0 <= j <= n implies (reached[j] <==> (j == 0 || exists|p: int|
                        p < i + 1 && #[trigger] pred_step(skus, p, j))) by {
                    if exists|kk: int|
                        0 <= kk < m && #[trigger] skus[kk].height_mm > 0 && j == i
                            + skus[kk].height_mm {
                        let kk = choose|kk: int|
                            0 <= kk < m && #[trigger] skus[kk].height_mm > 0 && j == i
                                + skus[kk].height_mm;
                        assert(is_sku_step(skus, j - i));
                        assert(pred_step(skus, i as int, j));
                    }
                    if exists|p: int| p < i + 1 && #[trigger] pred_step(skus, p, j) {
                        let p = choose|p: int| p < i + 1 && #[trigger] pred_step(skus, p, j);
                        if p == i {
                            let kk = choose|kk: int|
                                0 <= kk < skus.len() && #[trigger] skus[kk].height_mm == j - p && j
                                    - p > 0;
                            assert(skus[kk].height_mm > 0 && j == i + skus[kk].height_mm);
                        }
                    }
                }
            }
        } else {
            proof {
                assert forall|j: int|
                    0 <= j <= n implies (reached[j] <==> (j == 0 || exists|p: int|
                        p < i + 1 && #[trigger] pred_step(skus, p, j))) by {
                    if exists|p: int| p < i + 1 && #[trigger] pred_step(skus, p, j) {
                        let p = choose|p: int| p < i + 1 && #[trigger] pred_step(skus, p, j);
                        assert(p != i);
                    }
                }
            }
        }
        i += 1;
    }
    proof {
        crate::spacer::lemma_stack_sum_zero(skus);
        if n > 0 {
            lemma_stack_sum_iff_pred(skus, n as int);
        }
        assert forall|j: int| 0 <= j <= n implies (reached[j] <==> is_stack_sum(skus, j)) by {
            if j > 0 {
                lemma_stack_sum_iff_pred(skus, j);
            }
        }
    }
    if !reached[n] {
        return None;
    }
    // Walk back from n collecting SKU counts by height.
    let mut counts: Vec<u16> = Vec::new();
    let mut z: usize = 0;
    while z <= n
        invariant
            n == total_mm,
            z <= n + 1,
            counts.len() == z,
            forall|x: int| 0 <= x < z ==> counts[x] == 0,
        decreases n + 1 - z,
    {
        counts.push(0);
        z += 1;
    }
    let ghost chain = dp_chain(skus, n as int);
    let ghost mut walked: Seq<int> = seq![];
    let mut cur: usize = n;
    proof {
        assert(walked + dp_chain(skus, cur as int) =~= chain);
    }
    while cur > 0
        invariant
            skus == catalog.spacers@,
            n == total_mm,
            cur <= n,
            prev.len() == n + 1,
            reached.len() == n + 1,
            counts.len() == n + 1,
            forall|j: int| 0 <= j <= n ==> (reached[j] <==> is_stack_sum(skus, j)),
            forall|j: int|
                0 < j <= n && reached[j] ==> (prev[j] is Some && is_first_pred(
                    skus,
                    j,
                    j - prev[j]->0.height_mm,
                )),
            reached[cur as int],
            chain == dp_chain(skus, n as int),
            walked + dp_chain(skus, cur as int) == chain,
            walked.len() + cur <= n,
            forall|x: int| 0 <= x <= n ==> counts[x] == occurrences(walked, x),
        decreases cur,
    {
        let sku = match prev[cur] {
            Some(sku) => sku,
            None => {
                return None;
            },
        };
        let h = sku.height_mm as usize;
        proof {
            let p = cur - h;
            lemma_first_pred_unique(skus, cur as int, p);
            assert(dp_chain(skus, cur as int) == seq![h as int] + dp_chain(skus, p));
            assert((walked.push(h as int)) + dp_chain(skus, p) =~= walked + dp_chain(
                skus,
                cur as int,
            ));
            lemma_occurrences_bound(walked, h as int);
            assert(pred_step(skus, p, cur as int));
        }
        counts.set(h, counts[h] + 1);
        proof {
            assert forall|x: int| 0 <= x <= n implies counts[x] == occurrences(
                walked.push(h as int),
                x,
            ) by {
                lemma_occurrences_push(walked, h as int, x);
            }
            walked = walked.push(h as int);
        }
        cur -= h;
    }
    proof {
        assert(walked =~= chain);
        lemma_dp_chain_facts(skus, n as int);
    }
    let mut out: Vec<(Spacer, u16)> = Vec::new();
    let mut h: usize = n;
    while h > 0
        invariant
            n == total_mm,
            h <= n,
            counts.len() == n + 1,
            forall|x: int| 0 <= x <= n ==> counts[x] == occurrences(chain, x),
            out@ + tally_desc(chain, h as int) == tally_desc(chain, n as int),
        decreases h,
    {
        let ghost before = out@;
        if counts[h] > 0 {
            out.push((Spacer { height_mm: h as u16 }, counts[h]));
        }
        proof {
            let c = occurrences(chain, h as int);
            let head: Seq<(Spacer, u16)> = if c > 0 {
                seq![(Spacer { height_mm: h as u16 }, c as u16)]
            } else {
                seq![]
            };
            assert(tally_desc(chain, h as int) == head + tally_desc(chain, h - 1));
            assert(out@ =~= before + head);
            assert(before + (head + tally_desc(chain, h - 1)) =~= out@ + tally_desc(chain, h - 1));
        }
        h -= 1;
    }
    proof {
        assert(out@ =~= out@ + tally_desc(chain, 0));
    }
    Some(out)
}


} // verus!
