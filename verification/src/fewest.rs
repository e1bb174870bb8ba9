//! The default catalog's breakdowns use the fewest spacers: no stack of
//! 3, 5, 10 and 20 mm spacers reaching a height has fewer spacers than the
//! breakdown the solver gives for it.

use vstd::prelude::*;

use crate::coin_change::{
    dp_chain, first_pred, is_first_pred, is_sku_step, lemma_dp_chain_facts,
    lemma_first_pred_unique, lemma_occurrences_bound, occurrences, pred_step, tally_desc,
};
use crate::solver::{
    breakdown_total, greedy_breakdown_of, greedy_fold, largest_first,
    lemma_breakdown_sums_to_total, lemma_spacer_count_concat, lemma_taller_or_equal_total,
    spacer_count, taller_or_equal,
};
use crate::spacer::{
    default_skus, is_stack_sum, lemma_stack_sum_step, lemma_stack_sum_zero, stack_height,
    valid_picks, Spacer,
};

verus! {

/// The heights no stack of default SKUs reaches: 1, 2, 4 and 7 mm.
spec fn default_gap(t: int) -> bool {
    t == 1 || t == 2 || t == 4 || t == 7
}

/// Fewest default SKUs stacking to `t` (for `t` a stack height): as few
/// 3 mm spacers as make the rest a multiple of 5, then 20, 10 and 5 mm
/// spacers for the rest, tallest first.
spec fn fewest_default(t: int) -> int {
    let threes = (2 * t) % 5;
    let rest = t - 3 * threes;
    threes + rest / 20 + (rest % 20) / 10 + (rest % 10) / 5
}

/// Lowest stack height one default SKU below `j`.
spec fn default_first_pred(j: int) -> int {
    if j >= 20 && !default_gap(j - 20) {
        j - 20
    } else if j >= 10 && !default_gap(j - 10) {
        j - 10
    } else if j >= 5 && !default_gap(j - 5) {
        j - 5
    } else {
        j - 3
    }
}

/// Spacers the tallest-first greedy pass takes over the default SKUs.
spec fn greedy_default_count(t: int) -> int {
    t / 20 + (t % 20) / 10 + (t % 10) / 5 + (t % 5) / 3
}

/// Twenty more millimeters take one more spacer, a 20 mm one.
proof fn lemma_fewest_shift(x: int, q: int)
    requires
        q >= 0,
    ensures
        fewest_default(x + 20 * q) == fewest_default(x) + q,
{
    let threes = (2 * x) % 5;
    let rest = x - 3 * threes;
    assert(2 * (x + 20 * q) == 5 * (8 * q) + 2 * x);
    vstd::arithmetic::div_mod::lemma_mod_multiples_vanish(8 * q, 2 * x, 5);
    let moved = x + 20 * q - 3 * threes;
    assert(moved == 20 * q + rest && moved == 10 * (2 * q) + rest && moved == rest + q * 20);
    vstd::arithmetic::div_mod::lemma_hoist_over_denominator(rest, q, 20);
    vstd::arithmetic::div_mod::lemma_mod_multiples_vanish(q, rest, 20);
    vstd::arithmetic::div_mod::lemma_mod_multiples_vanish(2 * q, rest, 10);
}

/// Below 20 mm, one more 3, 5 or 10 mm spacer adds at most one to the
/// fewest count (checked height by height).
proof fn lemma_fewest_step_below_20(s: int)
    requires
        0 <= s < 20,
    ensures
        fewest_default(s + 3) <= fewest_default(s) + 1,
        fewest_default(s + 5) <= fewest_default(s) + 1,
        fewest_default(s + 10) <= fewest_default(s) + 1,
{
    if s == 0 {
    } else if s == 1 {
    } else if s == 2 {
    } else if s == 3 {
    } else if s == 4 {
    } else if s == 5 {
    } else if s == 6 {
    } else if s == 7 {
    } else if s == 8 {
    } else if s == 9 {
    } else if s == 10 {
    } else if s == 11 {
    } else if s == 12 {
    } else if s == 13 {
    } else if s == 14 {
    } else if s == 15 {
    } else if s == 16 {
    } else if s == 17 {
    } else if s == 18 {
    } else {
        assert(s == 19);
    }
}

/// One more SKU on a stack adds at most one to the fewest count.
proof fn lemma_fewest_step(h: int, e: int)
    requires
        h >= 0,
        !default_gap(h),
        e == 3 || e == 5 || e == 10 || e == 20,
    ensures
        fewest_default(h + e) <= fewest_default(h) + 1,
        !default_gap(h + e),
{
    let q = h / 20;
    let s = h % 20;
    assert(h == s + 20 * q);
    lemma_fewest_shift(s, q);
    if e == 20 {
        lemma_fewest_shift(s, q + 1);
        assert(h + e == s + 20 * (q + 1));
    } else {
        lemma_fewest_step_below_20(s);
        lemma_fewest_shift(s + e, q);
        assert(h + e == (s + e) + 20 * q);
    }
}

/// The lowest predecessor is a stack height with one spacer fewer.
proof fn lemma_fewest_first_pred(j: int)
    requires
        j > 0,
        !default_gap(j),
    ensures
        0 <= default_first_pred(j) < j,
        !default_gap(default_first_pred(j)),
        fewest_default(default_first_pred(j)) + 1 <= fewest_default(j),
{
    if j >= 28 {
        assert(default_first_pred(j) == j - 20);
        lemma_fewest_shift(j - 20, 1);
    } else if j == 1 {
    } else if j == 2 {
    } else if j == 3 {
    } else if j == 4 {
    } else if j == 5 {
    } else if j == 6 {
    } else if j == 7 {
    } else if j == 8 {
    } else if j == 9 {
    } else if j == 10 {
    } else if j == 11 {
    } else if j == 12 {
    } else if j == 13 {
    } else if j == 14 {
    } else if j == 15 {
    } else if j == 16 {
    } else if j == 17 {
    } else if j == 18 {
    } else if j == 19 {
    } else if j == 20 {
    } else if j == 21 {
    } else if j == 22 {
    } else if j == 23 {
    } else if j == 24 {
    } else if j == 25 {
    } else if j == 26 {
    } else {
        assert(j == 27);
    }
}

/// When the greedy pass leaves nothing over, it takes the fewest spacers.
proof fn lemma_fewest_greedy(t: int)
    requires
        t >= 0,
        (t % 5) % 3 == 0,
    ensures
        greedy_default_count(t) <= fewest_default(t),
        !default_gap(t),
{
    let q = t / 20;
    let s = t % 20;
    assert(t == s + 20 * q);
    lemma_fewest_shift(s, q);
    vstd::arithmetic::div_mod::lemma_mod_mod(t, 10, 2);
    vstd::arithmetic::div_mod::lemma_mod_mod(t, 5, 4);
    assert(greedy_default_count(t) == q + greedy_default_count(s));
    if s == 0 {
    } else if s == 1 {
    } else if s == 2 {
    } else if s == 3 {
    } else if s == 4 {
    } else if s == 5 {
    } else if s == 6 {
    } else if s == 7 {
    } else if s == 8 {
    } else if s == 9 {
    } else if s == 10 {
    } else if s == 11 {
    } else if s == 12 {
    } else if s == 13 {
    } else if s == 14 {
    } else if s == 15 {
    } else if s == 16 {
    } else if s == 17 {
    } else if s == 18 {
    } else {
        assert(s == 19);
    }
}

// ---------------------------------------------------------------------------
// Stack heights of the default SKUs.

proof fn lemma_default_sku_step(d: int)
    ensures
        is_sku_step(default_skus(), d) <==> (d == 3 || d == 5 || d == 10 || d == 20),
{
    let skus = default_skus();
    assert(skus[0].height_mm == 3 && skus[1].height_mm == 5 && skus[2].height_mm == 10
        && skus[3].height_mm == 20);
}

proof fn lemma_default_reaches(t: int)
    requires
        t >= 0,
        !default_gap(t),
    ensures
        is_stack_sum(default_skus(), t),
    decreases t,
{
    let skus = default_skus();
    assert(skus[0].height_mm == 3 && skus[1].height_mm == 5);
    if t == 0 {
        lemma_stack_sum_zero(skus);
    } else if t == 5 || t == 10 {
        lemma_default_reaches(t - 5);
        lemma_stack_sum_step(skus, t - 5, 1);
    } else {
        lemma_default_reaches(t - 3);
        lemma_stack_sum_step(skus, t - 3, 0);
    }
}

/// A stack of default SKUs has a height outside the gaps, and at least as
/// many spacers as the fewest count of its height.
proof fn lemma_default_picks(picks: Seq<int>)
    requires
        valid_picks(default_skus(), picks),
    ensures
        stack_height(default_skus(), picks) >= 0,
        !default_gap(stack_height(default_skus(), picks)),
        fewest_default(stack_height(default_skus(), picks)) <= picks.len(),
    decreases picks.len(),
{
    let skus = default_skus();
    if picks.len() > 0 {
        let rest = picks.drop_last();
        let k = picks.last();
        assert(valid_picks(skus, rest)) by {
            assert forall|p: int| 0 <= p < rest.len() implies 0 <= #[trigger] rest[p] < skus.len() by {
                assert(rest[p] == picks[p]);
            }
        }
        assert(0 <= k < skus.len()) by {
            assert(picks[picks.len() - 1] == k);
        }
        lemma_default_picks(rest);
        let e = skus[k].height_mm as int;
        assert(e == 3 || e == 5 || e == 10 || e == 20);
        lemma_fewest_step(stack_height(skus, rest), e);
    }
}

proof fn lemma_default_stack_sum_iff(t: int)
    ensures
        is_stack_sum(default_skus(), t) <==> (t >= 0 && !default_gap(t)),
{
    let skus = default_skus();
    if is_stack_sum(skus, t) {
        let picks = choose|picks: Seq<int>|
            valid_picks(skus, picks) && #[trigger] stack_height(skus, picks) == t;
        lemma_default_picks(picks);
    }
    if t >= 0 && !default_gap(t) {
        lemma_default_reaches(t);
    }
}

// ---------------------------------------------------------------------------
// The coin-change chain of the default SKUs.

proof fn lemma_default_first_pred(j: int)
    requires
        j > 0,
        !default_gap(j),
    ensures
        first_pred(default_skus(), j) == default_first_pred(j),
{
    let skus = default_skus();
    let p = default_first_pred(j);
    lemma_fewest_first_pred(j);
    lemma_default_stack_sum_iff(p);
    lemma_default_sku_step(j - p);
    assert forall|q: int| 0 <= q < p implies !#[trigger] pred_step(skus, q, j) by {
        lemma_default_sku_step(j - q);
        lemma_default_stack_sum_iff(q);
    }
    assert(is_first_pred(skus, j, p));
    lemma_first_pred_unique(skus, j, p);
}

proof fn lemma_default_chain_len(j: int)
    requires
        j >= 0,
        !default_gap(j),
    ensures
        dp_chain(default_skus(), j).len() <= fewest_default(j),
    decreases j,
{
    if j > 0 {
        lemma_default_first_pred(j);
        lemma_fewest_first_pred(j);
        let p = default_first_pred(j);
        lemma_default_chain_len(p);
        assert(dp_chain(default_skus(), j) == seq![j - p] + dp_chain(default_skus(), p));
    }
}

/// Number of entries of `chain` from 1 to `top`.
spec fn count_upto(chain: Seq<int>, top: int) -> int
    decreases top,
{
    if top <= 0 {
        0
    } else {
        occurrences(chain, top) + count_upto(chain, top - 1)
    }
}

proof fn lemma_tally_spacer_count(chain: Seq<int>, top: int)
    requires
        forall|x: int| 1 <= x <= top ==> occurrences(chain, x) <= u16::MAX,
        top <= u16::MAX,
    ensures
        spacer_count(tally_desc(chain, top)) == count_upto(chain, top),
    decreases top,
{
    if top > 0 {
        lemma_tally_spacer_count(chain, top - 1);
        let c = occurrences(chain, top);
        let head: Seq<(Spacer, u16)> = if c > 0 {
            seq![(Spacer { height_mm: top as u16 }, c as u16)]
        } else {
            seq![]
        };
        lemma_spacer_count_concat(head, tally_desc(chain, top - 1));
        if c > 0 {
            assert(head.drop_first() =~= Seq::<(Spacer, u16)>::empty());
            assert(spacer_count(head.drop_first()) == 0);
            assert(head[0].1 == c);
        }
    }
}

proof fn lemma_count_upto_front(e: int, rest: Seq<int>, top: int)
    ensures
        count_upto(seq![e] + rest, top) == count_upto(rest, top) + if 1 <= e <= top {
            1int
        } else {
            0int
        },
    decreases top,
{
    let s = seq![e] + rest;
    assert(s.drop_first() =~= rest);
    if top > 0 {
        lemma_count_upto_front(e, rest, top - 1);
    }
}

proof fn lemma_count_upto_empty(chain: Seq<int>, top: int)
    requires
        chain.len() == 0,
    ensures
        count_upto(chain, top) == 0,
    decreases top,
{
    if top > 0 {
        lemma_count_upto_empty(chain, top - 1);
    }
}

proof fn lemma_count_upto_len(chain: Seq<int>, top: int)
    requires
        forall|q: int| 0 <= q < chain.len() ==> 1 <= #[trigger] chain[q] <= top,
    ensures
        count_upto(chain, top) == chain.len(),
    decreases chain.len(),
{
    if chain.len() == 0 {
        lemma_count_upto_empty(chain, top);
    } else {
        let rest = chain.drop_first();
        assert(chain =~= seq![chain[0]] + rest);
        assert forall|q: int| 0 <= q < rest.len() implies 1 <= #[trigger] rest[q] <= top by {
            assert(rest[q] == chain[q + 1]);
        }
        lemma_count_upto_len(rest, top);
        lemma_count_upto_front(chain[0], rest, top);
    }
}

// ---------------------------------------------------------------------------
// The greedy pass over the default SKUs.

/// The default SKUs, tallest first.
spec fn default_tallest_first() -> Seq<Spacer> {
    seq![
        Spacer { height_mm: 20 },
        Spacer { height_mm: 10 },
        Spacer { height_mm: 5 },
        Spacer { height_mm: 3 },
    ]
}

proof fn lemma_default_largest_first()
    ensures
        largest_first(default_skus()) == default_tallest_first(),
{
    broadcast use vstd::seq_lib::group_to_multiset_ensures;
    broadcast use vstd::multiset::group_multiset_axioms;

    let skus = default_skus();
    let w = default_tallest_first();
    let leq = taller_or_equal();
    lemma_taller_or_equal_total();
    skus.lemma_sort_by_ensures(leq);
    let (a, b, c, d) = (
        Spacer { height_mm: 3 },
        Spacer { height_mm: 5 },
        Spacer { height_mm: 10 },
        Spacer { height_mm: 20 },
    );
    let none = Seq::<Spacer>::empty();
    assert(skus =~= none.push(a).push(b).push(c).push(d));
    assert(w =~= none.push(d).push(c).push(b).push(a));
    assert(skus.to_multiset() =~= w.to_multiset());
    assert(vstd::relations::sorted_by(w, leq));
    vstd::seq_lib::lemma_sorted_unique(w, skus.sort_by(leq), leq);
}

/// One greedy step: the first SKU is taken `r / h` times, and the pass goes
/// on with the remainder if there is one.
proof fn lemma_greedy_fold_head(order: Seq<Spacer>, r: int)
    requires
        order.len() > 0,
        order[0].height_mm > 0,
        0 <= r <= u16::MAX,
    ensures
        ({
            let h = order[0].height_mm as int;
            let next = greedy_fold(order.drop_first(), r % h);
            &&& greedy_fold(order, r).1 == if r % h == 0 {
                0
            } else {
                next.1
            }
            &&& spacer_count(greedy_fold(order, r).0) == r / h + if r % h == 0 {
                0
            } else {
                spacer_count(next.0)
            }
        }),
{
    let h = order[0].height_mm as int;
    let count = r / h;
    assert(r - count * h == r % h && 0 <= count <= r) by (nonlinear_arith)
        requires
            h > 0,
            r >= 0,
            count == r / h,
    ;
    let taken: Seq<(Spacer, u16)> = if count > 0 {
        seq![(order[0], count as u16)]
    } else {
        seq![]
    };
    assert(spacer_count(taken) == count) by {
        if count > 0 {
            assert(taken.drop_first() =~= Seq::<(Spacer, u16)>::empty());
            assert(spacer_count(taken.drop_first()) == 0);
            assert(taken[0].1 == count);
        }
    }
    if r % h != 0 {
        lemma_spacer_count_concat(taken, greedy_fold(order.drop_first(), r % h).0);
    }
}

proof fn lemma_greedy_default(t: int)
    requires
        0 <= t <= u16::MAX,
    ensures
        greedy_fold(default_tallest_first(), t).1 == (t % 5) % 3,
        (t % 5) % 3 == 0 ==> spacer_count(greedy_fold(default_tallest_first(), t).0)
            == greedy_default_count(t),
{
    let w = default_tallest_first();
    let w10 = w.drop_first();
    let w5 = w10.drop_first();
    let w3 = w5.drop_first();
    assert(w3.drop_first() =~= Seq::<Spacer>::empty());
    assert(w10 =~= seq![Spacer { height_mm: 10 }, Spacer { height_mm: 5 }, Spacer { height_mm: 3 }]);
    assert(w5 =~= seq![Spacer { height_mm: 5 }, Spacer { height_mm: 3 }]);
    assert(w3 =~= seq![Spacer { height_mm: 3 }]);
    vstd::arithmetic::div_mod::lemma_mod_mod(t, 10, 2);
    vstd::arithmetic::div_mod::lemma_mod_mod(t, 5, 4);
    vstd::arithmetic::div_mod::lemma_mod_mod(t, 5, 2);
    let r10 = t % 20;
    let r5 = t % 10;
    let r3 = t % 5;
    assert(r10 % 10 == r5 && r5 % 5 == r3);
    lemma_greedy_fold_head(w3, r3);
    lemma_greedy_fold_head(w5, r5);
    lemma_greedy_fold_head(w10, r10);
    lemma_greedy_fold_head(w, t);
}

// ---------------------------------------------------------------------------
// The law.

/// Law: with the default SKUs (3, 5, 10 and 20 mm), the breakdown of a
/// stack height adds up to that height and uses no more spacers than any
/// stack of those SKUs that reaches it: it uses the fewest spacers.
pub proof fn law_default_catalog_fewest_spacers(total: u16, picks: Seq<int>)
    requires
        valid_picks(default_skus(), picks),
        stack_height(default_skus(), picks) == total,
    ensures
        breakdown_total(greedy_breakdown_of(default_skus(), total as int)) == total,
        spacer_count(greedy_breakdown_of(default_skus(), total as int)) <= picks.len(),
{
    let skus = default_skus();
    let t = total as int;
    lemma_default_picks(picks);
    assert(is_stack_sum(skus, t));
    lemma_breakdown_sums_to_total(skus, total);
    lemma_default_largest_first();
    lemma_greedy_default(t);
    if (t % 5) % 3 == 0 {
        lemma_fewest_greedy(t);
    } else {
        let chain = dp_chain(skus, t);
        lemma_dp_chain_facts(skus, t);
        lemma_default_chain_len(t);
        assert forall|x: int| 1 <= x <= t implies occurrences(chain, x) <= u16::MAX by {
            lemma_occurrences_bound(chain, x);
        }
        lemma_tally_spacer_count(chain, t);
        lemma_count_upto_len(chain, t);
    }
}

} // verus!
