//! The spacer-stack side of the fit solver: spacer stacks, the solver's
//! catalog errors, and the breakdown of a stack height into spacer SKUs.

use vstd::prelude::*;

use crate::coin_change::{
    coin_change_breakdown, coin_change_of, dp_chain, is_sku_step, lemma_dp_chain_facts,
    lemma_occurrences_bound, lemma_tally_total, lemma_weighted_count_is_sum, occurrences,
    tally_desc,
};
use crate::spacer::{is_stack_sum, Spacer, SpacerCatalog};

verus! {

/// A spacer stack: a list of `(spacer_sku, count)` entries totaling the
/// `total_mm` height. The breakdown is one valid way to assemble the stack;
/// other equivalent breakdowns may exist.
#[derive(Debug, Clone)]
pub struct SpacerStack {
    pub total_mm: u16,
    /// Pairs of (spacer SKU, count).
    pub breakdown: Vec<(Spacer, u16)>,
}

/// Why the solver cannot search a cockpit.
#[derive(Debug, Clone, Copy, PartialEq, Eq, Structural)]
pub enum BuildError {
    /// The cockpit has no candidate stems.
    NoStems,
    /// The spacer catalog is empty.
    NoSpacers,
}

impl BuildError {
    /// Human-readable description of the error.
    pub fn message(&self) -> (msg: String)
        ensures
            msg@ == match self {
                BuildError::NoStems => "cockpit has no candidate stems"@,
                BuildError::NoSpacers => "spacer catalog is empty"@,
            },
    {
        match self {
            BuildError::NoStems => String::from_str("cockpit has no candidate stems"),
            BuildError::NoSpacers => String::from_str("spacer catalog is empty"),
        }
    }
}

/// The solver's check of the search space before it searches: a cockpit
/// needs at least one candidate stem, then a non-empty spacer catalog.
pub fn check_search_space(stem_count: usize, spacers: &SpacerCatalog) -> (res: Result<(), BuildError>)
    ensures
        res == if stem_count == 0 {
            Err(BuildError::NoStems)
        } else if spacers.spacers.len() == 0 {
            Err(BuildError::NoSpacers)
        } else {
            Ok(())
        },
{
    if stem_count == 0 {
        return Err(BuildError::NoStems);
    }
    if spacers.spacers.len() == 0 {
        return Err(BuildError::NoSpacers);
    }
    Ok(())
}

// ---------------------------------------------------------------------------
// Heights of breakdowns.

/// Total height of a breakdown: the sum of `sku.height_mm * count`.
pub open spec fn breakdown_total(b: Seq<(Spacer, u16)>) -> int
    decreases b.len(),
{
    if b.len() == 0 {
        0
    } else {
        b[0].0.height_mm * b[0].1 + breakdown_total(b.drop_first())
    }
}

pub proof fn lemma_breakdown_total_concat(a: Seq<(Spacer, u16)>, b: Seq<(Spacer, u16)>)
    ensures
        breakdown_total(a + b) == breakdown_total(a) + breakdown_total(b),
    decreases a.len(),
{
    if a.len() > 0 {
        assert((a + b).drop_first() =~= a.drop_first() + b);
        lemma_breakdown_total_concat(a.drop_first(), b);
    } else {
        assert(a + b =~= b);
    }
}

/// Number of spacers in a breakdown: the sum of the counts.
pub open spec fn spacer_count(b: Seq<(Spacer, u16)>) -> int
    decreases b.len(),
{
    if b.len() == 0 {
        0
    } else {
        b[0].1 + spacer_count(b.drop_first())
    }
}

pub proof fn lemma_spacer_count_concat(a: Seq<(Spacer, u16)>, b: Seq<(Spacer, u16)>)
    ensures
        spacer_count(a + b) == spacer_count(a) + spacer_count(b),
    decreases a.len(),
{
    if a.len() > 0 {
        assert((a + b).drop_first() =~= a.drop_first() + b);
        lemma_spacer_count_concat(a.drop_first(), b);
    } else {
        assert(a + b =~= b);
    }
}

// ---------------------------------------------------------------------------
// The greedy breakdown.

/// Orders SKUs tallest first.
pub open spec fn taller_or_equal() -> spec_fn(Spacer, Spacer) -> bool {
    |a: Spacer, b: Spacer| a.height_mm >= b.height_mm
}

/// The SKUs of `skus` sorted by height, tallest first.
pub open spec fn largest_first(skus: Seq<Spacer>) -> Seq<Spacer> {
    skus.sort_by(taller_or_equal())
}

/// Greedy breakdown of `remaining` over `skus` in order: each SKU of nonzero
/// height is taken as many times as it fits in what is left, stopping once
/// nothing is left. Returns the entries taken and the height left over.
pub open spec fn greedy_fold(skus: Seq<Spacer>, remaining: int) -> (Seq<(Spacer, u16)>, int)
    decreases skus.len(),
{
    if skus.len() == 0 {
        (seq![], remaining)
    } else {
        let sku = skus[0];
        let h = sku.height_mm as int;
        if h == 0 {
            greedy_fold(skus.drop_first(), remaining)
        } else {
            let count = remaining / h;
            let left = remaining - count * h;
            let taken: Seq<(Spacer, u16)> = if count > 0 {
                seq![(sku, count as u16)]
            } else {
                seq![]
            };
            if left == 0 {
                (taken, 0)
            } else {
                let rest = greedy_fold(skus.drop_first(), left);
                (taken + rest.0, rest.1)
            }
        }
    }
}

/// What [`greedy_breakdown`] returns: the greedy breakdown over the SKUs
/// tallest first; when it leaves something over and `total` is a stack
/// height, the coin-change breakdown instead.
pub open spec fn greedy_breakdown_of(skus: Seq<Spacer>, total: int) -> Seq<(Spacer, u16)> {
    let g = greedy_fold(largest_first(skus), total);
    if g.1 > 0 && is_stack_sum(skus, total) {
        coin_change_of(skus, total)
    } else {
        g.0
    }
}

/// Taller-or-equal orders SKUs totally.
pub proof fn lemma_taller_or_equal_total()
    ensures
        vstd::relations::total_ordering(taller_or_equal()),
{
    let leq = taller_or_equal();
    assert(vstd::relations::antisymmetric(leq)) by {
        assert forall|a: Spacer, b: Spacer| #[trigger] leq(a, b) && #[trigger] leq(b, a) implies a
            == b by {
            assert(a.height_mm == b.height_mm);
        }
    }
}

/// The catalog's SKUs, tallest first.
fn skus_largest_first(skus: &Vec<Spacer>) -> (sorted: Vec<Spacer>)
    ensures
        sorted@ == largest_first(skus@),
{
    let ghost leq = taller_or_equal();
    let mut sorted: Vec<Spacer> = Vec::new();
    let mut i: usize = 0;
    proof {
        assert(skus@.take(0) =~= sorted@);
    }
    while i < skus.len()
        invariant
            leq == taller_or_equal(),
            i <= skus.len(),
            vstd::relations::sorted_by(sorted@, leq),
            sorted@.to_multiset() == skus@.take(i as int).to_multiset(),
        decreases skus.len() - i,
    {
        let x = skus[i];
        // Insert before the first strictly shorter SKU, keeping order stable.
        let mut pos: usize = 0;
        while pos < sorted.len() && sorted[pos].height_mm >= x.height_mm
            invariant
                pos <= sorted.len(),
                forall|q: int| 0 <= q < pos ==> sorted@[q].height_mm >= x.height_mm,
            decreases sorted.len() - pos,
        {
            pos += 1;
        }
        let ghost before = sorted@;
        sorted.insert(pos, x);
        proof {
            broadcast use vstd::seq_lib::group_to_multiset_ensures;

            assert(sorted@ == before.insert(pos as int, x));
            assert forall|a: int, b: int| 0 <= a < b < sorted@.len() implies #[trigger] leq(
                sorted@[a],
                sorted@[b],
            ) by {
                if pos < before.len() {
                    assert(before[pos as int].height_mm < x.height_mm);
                }
                if a < pos && b == pos {
                } else if a == pos && b > pos {
                    assert(sorted@[b] == before[b - 1]);
                    assert(leq(before[pos as int], before[b - 1]) || b - 1 == pos);
                } else if a < pos && b > pos {
                    assert(sorted@[b] == before[b - 1]);
                    assert(leq(before[a], before[b - 1]));
                } else if b < pos {
                    assert(leq(before[a], before[b]));
                } else {
                    assert(sorted@[a] == before[a - 1]);
                    assert(sorted@[b] == before[b - 1]);
                    assert(leq(before[a - 1], before[b - 1]));
                }
            }
            assert(skus@.take(i + 1) =~= skus@.take(i as int).push(x));
        }
        i += 1;
    }
    proof {
        assert(skus@.take(skus.len() as int) =~= skus@);
        lemma_taller_or_equal_total();
        skus@.lemma_sort_by_ensures(leq);
        vstd::seq_lib::lemma_sorted_unique(sorted@, skus@.sort_by(leq), leq);
    }
    sorted
}

/// Greedy breakdown of `total_mm` into spacer SKUs from `catalog`, taking
/// the tallest first. When the greedy pass leaves a remainder, the
/// coin-change breakdown is used instead if `total_mm` is reachable.
pub fn greedy_breakdown(catalog: &SpacerCatalog, total_mm: u16) -> (bd: Vec<(Spacer, u16)>)
    ensures
        bd@ == greedy_breakdown_of(catalog.spacers@, total_mm as int),
{
    let mut remaining = total_mm;
    let skus = skus_largest_first(&catalog.spacers);
    let ghost goal = greedy_fold(skus@, total_mm as int);
    let mut out: Vec<(Spacer, u16)> = Vec::new();
    let mut done = false;
    let mut i: usize = 0;
    proof {
        assert(skus@.skip(0) =~= skus@);
    }
    while i < skus.len() && !done
        invariant
            i <= skus.len(),
            goal == greedy_fold(skus@, total_mm as int),
            !done ==> out@ + greedy_fold(skus@.skip(i as int), remaining as int).0 == goal.0,
            !done ==> greedy_fold(skus@.skip(i as int), remaining as int).1 == goal.1,
            done ==> out@ == goal.0 && remaining == goal.1,
        decreases skus.len() - i,
    {
        let sku = skus[i];
        let ghost rest = skus@.skip(i as int);
        proof {
            assert(rest[0] == sku);
            assert(rest.drop_first() =~= skus@.skip(i + 1));
        }
        if sku.height_mm != 0 {
            let count = remaining / sku.height_mm;
            proof {
                assert(count * sku.height_mm <= remaining) by (nonlinear_arith)
                    requires
                        sku.height_mm > 0,
                        count == remaining / sku.height_mm,
                ;
            }
            let ghost before = out@;
            let ghost r0 = remaining as int;
            if count > 0 {
                out.push((sku, count));
                remaining -= count * sku.height_mm;
            }
            proof {
                let taken: Seq<(Spacer, u16)> = if count > 0 {
                    seq![(sku, count)]
                } else {
                    seq![]
                };
                assert(out@ =~= before + taken);
                if count == 0 {
                    assert(count * sku.height_mm == 0) by (nonlinear_arith)
                        requires
                            count == 0,
                    ;
                }
                assert(remaining == r0 - count * sku.height_mm);
                if remaining != 0 {
                    let nxt = greedy_fold(skus@.skip(i + 1), remaining as int);
                    assert(greedy_fold(rest, r0) == (taken + nxt.0, nxt.1));
                    assert(before + (taken + nxt.0) =~= out@ + nxt.0);
                } else {
                    assert(greedy_fold(rest, r0) == (taken, 0int));
                }
            }
            if remaining == 0 {
                done = true;
            }
        }
        i += 1;
    }
    proof {
        if !done {
            assert(skus@.skip(i as int) =~= Seq::<Spacer>::empty());
            assert(out@ =~= out@ + Seq::<(Spacer, u16)>::empty());
        }
    }
    if remaining > 0 {
        if let Some(dp) = coin_change_breakdown(catalog, total_mm) {
            return dp;
        }
    }
    out
}


// ---------------------------------------------------------------------------
// Laws of the breakdowns.

/// Every entry of `b` is a SKU of `skus` with positive height, taken a
/// positive number of times.
pub open spec fn uses_catalog_skus(skus: Seq<Spacer>, b: Seq<(Spacer, u16)>) -> bool {
    forall|q: int|
        0 <= q < b.len() ==> #[trigger] b[q].1 > 0 && b[q].0.height_mm > 0 && skus.contains(
            b[q].0,
        )
}

proof fn lemma_uses_catalog_skus_concat(
    skus: Seq<Spacer>,
    a: Seq<(Spacer, u16)>,
    b: Seq<(Spacer, u16)>,
)
    requires
        uses_catalog_skus(skus, a),
        uses_catalog_skus(skus, b),
    ensures
        uses_catalog_skus(skus, a + b),
{
    assert forall|q: int| 0 <= q < (a + b).len() implies #[trigger] (a + b)[q].1 > 0 && (a
        + b)[q].0.height_mm > 0 && skus.contains((a + b)[q].0) by {
        if q < a.len() {
            assert((a + b)[q] == a[q]);
        } else {
            assert((a + b)[q] == b[q - a.len()]);
        }
    }
}

proof fn lemma_greedy_fold_facts(order: Seq<Spacer>, skus: Seq<Spacer>, remaining: int)
    requires
        0 <= remaining <= u16::MAX,
        forall|q: int| 0 <= q < order.len() ==> skus.contains(#[trigger] order[q]),
    ensures
        breakdown_total(greedy_fold(order, remaining).0) + greedy_fold(order, remaining).1
            == remaining,
        0 <= greedy_fold(order, remaining).1 <= remaining,
        uses_catalog_skus(skus, greedy_fold(order, remaining).0),
    decreases order.len(),
{
    if order.len() > 0 {
        let rest = order.drop_first();
        assert forall|q: int| 0 <= q < rest.len() implies skus.contains(#[trigger] rest[q]) by {
            assert(rest[q] == order[q + 1]);
        }
        let sku = order[0];
        assert(skus.contains(order[0]));
        let h = sku.height_mm as int;
        if h == 0 {
            lemma_greedy_fold_facts(rest, skus, remaining);
        } else {
            let count = remaining / h;
            let left = remaining - count * h;
            assert(0 <= count * h <= remaining && count <= remaining) by (nonlinear_arith)
                requires
                    h > 0,
                    remaining >= 0,
                    count == remaining / h,
            ;
            let taken: Seq<(Spacer, u16)> = if count > 0 {
                seq![(sku, count as u16)]
            } else {
                seq![]
            };
            assert(breakdown_total(taken) == count * h) by {
                if count > 0 {
                    assert(taken.drop_first() =~= Seq::<(Spacer, u16)>::empty());
                    assert(breakdown_total(taken.drop_first()) == 0);
                    assert(taken[0].1 == count);
                    assert(taken[0].0.height_mm == h);
                } else {
                    assert(count * h == 0) by (nonlinear_arith)
                        requires
                            count == 0,
                    ;
                }
            }
            assert(uses_catalog_skus(skus, taken));
            if left != 0 {
                lemma_greedy_fold_facts(rest, skus, left);
                let r = greedy_fold(rest, left);
                lemma_breakdown_total_concat(taken, r.0);
                lemma_uses_catalog_skus_concat(skus, taken, r.0);
            }
        }
    }
}

proof fn lemma_coin_change_facts(skus: Seq<Spacer>, total: int)
    requires
        0 <= total <= u16::MAX,
        is_stack_sum(skus, total),
    ensures
        breakdown_total(coin_change_of(skus, total)) == total,
        uses_catalog_skus(skus, coin_change_of(skus, total)),
{
    let chain = dp_chain(skus, total);
    lemma_dp_chain_facts(skus, total);
    assert forall|x: int| 1 <= x <= total implies occurrences(chain, x) <= u16::MAX by {
        lemma_occurrences_bound(chain, x);
    }
    lemma_tally_total(chain, total);
    lemma_weighted_count_is_sum(chain, total);
    lemma_tally_uses_chain_skus(skus, chain, total);
}

proof fn lemma_tally_uses_chain_skus(skus: Seq<Spacer>, chain: Seq<int>, top: int)
    requires
        top <= u16::MAX,
        forall|q: int| 0 <= q < chain.len() ==> is_sku_step(skus, #[trigger] chain[q]),
        forall|x: int| 1 <= x <= top ==> occurrences(chain, x) <= u16::MAX,
    ensures
        uses_catalog_skus(skus, tally_desc(chain, top)),
    decreases top,
{
    if top > 0 {
        lemma_tally_uses_chain_skus(skus, chain, top - 1);
        let c = occurrences(chain, top);
        let head: Seq<(Spacer, u16)> = if c > 0 {
            seq![(Spacer { height_mm: top as u16 }, c as u16)]
        } else {
            seq![]
        };
        if c > 0 {
            lemma_occurrence_in(chain, top);
            let q = choose|q: int| 0 <= q < chain.len() && chain[q] == top;
            assert(is_sku_step(skus, chain[q]));
            let k = choose|k: int| 0 <= k < skus.len() && #[trigger] skus[k].height_mm == top && top > 0;
            assert(skus[k] == Spacer { height_mm: top as u16 });
            assert(skus.contains(Spacer { height_mm: top as u16 }));
        }
        assert(uses_catalog_skus(skus, head));
        lemma_uses_catalog_skus_concat(skus, head, tally_desc(chain, top - 1));
    }
}

proof fn lemma_occurrence_in(s: Seq<int>, x: int)
    requires
        occurrences(s, x) > 0,
    ensures
        exists|q: int| 0 <= q < s.len() && s[q] == x,
    decreases s.len(),
{
    if s[0] != x {
        lemma_occurrence_in(s.drop_first(), x);
        let q = choose|q: int| 0 <= q < s.drop_first().len() && s.drop_first()[q] == x;
        assert(s[q + 1] == x);
    }
}

/// Law: the breakdown of any stack height adds up to that height, using
/// only catalog SKUs of positive height, each a positive number of times.
pub proof fn law_breakdown_sums_to_total(catalog: SpacerCatalog, total: u16)
    requires
        is_stack_sum(catalog.spacers@, total as int),
    ensures
        breakdown_total(greedy_breakdown_of(catalog.spacers@, total as int)) == total,
        uses_catalog_skus(catalog.spacers@, greedy_breakdown_of(catalog.spacers@, total as int)),
{
    lemma_breakdown_sums_to_total(catalog.spacers@, total);
}

/// The breakdown over `skus` of a stack height adds up to that height and
/// uses only SKUs of `skus` of positive height, each a positive number of
/// times.
pub proof fn lemma_breakdown_sums_to_total(skus: Seq<Spacer>, total: u16)
    requires
        is_stack_sum(skus, total as int),
    ensures
        breakdown_total(greedy_breakdown_of(skus, total as int)) == total,
        uses_catalog_skus(skus, greedy_breakdown_of(skus, total as int)),
{
    let order = largest_first(skus);
    lemma_taller_or_equal_total();
    skus.lemma_sort_by_ensures(taller_or_equal());
    assert forall|q: int| 0 <= q < order.len() implies skus.contains(#[trigger] order[q]) by {
        assert(order.contains(order[q]));
    }
    lemma_greedy_fold_facts(order, skus, total as int);
    if greedy_fold(order, total as int).1 > 0 {
        lemma_coin_change_facts(skus, total as int);
    }
}

/// Law: every total the catalog's reachable-totals enumeration lists breaks
/// down into SKUs adding up to it.
pub proof fn law_listed_totals_break_down(catalog: SpacerCatalog, total: u16)
    requires
        catalog.lists_total(total as int),
    ensures
        breakdown_total(greedy_breakdown_of(catalog.spacers@, total as int)) == total,
        uses_catalog_skus(catalog.spacers@, greedy_breakdown_of(catalog.spacers@, total as int)),
{
    law_breakdown_sums_to_total(catalog, total);
}


/// The entries of `b` are listed tallest first, no height twice.
pub open spec fn heights_decreasing(b: Seq<(Spacer, u16)>) -> bool {
    forall|i: int, j: int|
        #![trigger b[i], b[j]]
        0 <= i < j < b.len() ==> b[i].0.height_mm > b[j].0.height_mm
}

proof fn lemma_greedy_fold_decreasing(order: Seq<Spacer>, remaining: int)
    requires
        0 <= remaining <= u16::MAX,
    ensures
        heights_decreasing(greedy_fold(order, remaining).0),
        forall|q: int|
            0 <= q < greedy_fold(order, remaining).0.len() ==> #[trigger] greedy_fold(
                order,
                remaining,
            ).0[q].0.height_mm <= remaining,
    decreases order.len(),
{
    if order.len() > 0 {
        let sku = order[0];
        let h = sku.height_mm as int;
        if h == 0 {
            lemma_greedy_fold_decreasing(order.drop_first(), remaining);
        } else {
            let count = remaining / h;
            let left = remaining - count * h;
            assert(0 <= left < h && (count > 0 ==> h <= remaining)) by (nonlinear_arith)
                requires
                    h > 0,
                    remaining >= 0,
                    count == remaining / h,
                    left == remaining - count * h,
            ;
            let taken: Seq<(Spacer, u16)> = if count > 0 {
                seq![(sku, count as u16)]
            } else {
                seq![]
            };
            if left != 0 {
                lemma_greedy_fold_decreasing(order.drop_first(), left);
                let rest = greedy_fold(order.drop_first(), left).0;
                let all = taken + rest;
                assert(greedy_fold(order, remaining).0 == all);
                assert forall|q: int| 0 <= q < all.len() implies #[trigger] all[q].0.height_mm
                    <= remaining by {
                    if q >= taken.len() {
                        assert(all[q] == rest[q - taken.len()]);
                    }
                }
                assert forall|i: int, j: int| 0 <= i < j < all.len() implies #[trigger] all[i].0.height_mm
                    > #[trigger] all[j].0.height_mm by {
                    assert(all[j] == rest[j - taken.len()]);
                    if i >= taken.len() {
                        assert(all[i] == rest[i - taken.len()]);
                    }
                }
            }
        }
    }
}

proof fn lemma_tally_decreasing(chain: Seq<int>, top: int)
    requires
        top <= u16::MAX,
    ensures
        heights_decreasing(tally_desc(chain, top)),
        forall|q: int|
            0 <= q < tally_desc(chain, top).len() ==> #[trigger] tally_desc(
                chain,
                top,
            )[q].0.height_mm <= top,
    decreases top,
{
    if top > 0 {
        lemma_tally_decreasing(chain, top - 1);
        let c = occurrences(chain, top);
        let head: Seq<(Spacer, u16)> = if c > 0 {
            seq![(Spacer { height_mm: top as u16 }, c as u16)]
        } else {
            seq![]
        };
        let rest = tally_desc(chain, top - 1);
        let all = head + rest;
        assert(tally_desc(chain, top) == all);
        assert forall|q: int| 0 <= q < all.len() implies #[trigger] all[q].0.height_mm <= top by {
            if q >= head.len() {
                assert(all[q] == rest[q - head.len()]);
            }
        }
        assert forall|i: int, j: int| 0 <= i < j < all.len() implies #[trigger] all[i].0.height_mm
            > #[trigger] all[j].0.height_mm by {
            assert(all[j] == rest[j - head.len()]);
            if i >= head.len() {
                assert(all[i] == rest[i - head.len()]);
            }
        }
    }
}

/// Law: whatever the total, the breakdown lists catalog SKUs of positive
/// height, each a positive number of times, tallest first with no height
/// listed twice, and adds up to no more than the total.
pub proof fn law_breakdown_shape(catalog: SpacerCatalog, total: u16)
    ensures
        uses_catalog_skus(catalog.spacers@, greedy_breakdown_of(catalog.spacers@, total as int)),
        heights_decreasing(greedy_breakdown_of(catalog.spacers@, total as int)),
        breakdown_total(greedy_breakdown_of(catalog.spacers@, total as int)) <= total,
{
    let skus = catalog.spacers@;
    let order = largest_first(skus);
    lemma_taller_or_equal_total();
    skus.lemma_sort_by_ensures(taller_or_equal());
    assert forall|q: int| 0 <= q < order.len() implies skus.contains(#[trigger] order[q]) by {
        assert(order.contains(order[q]));
    }
    lemma_greedy_fold_facts(order, skus, total as int);
    lemma_greedy_fold_decreasing(order, total as int);
    if greedy_fold(order, total as int).1 > 0 && is_stack_sum(skus, total as int) {
        lemma_coin_change_facts(skus, total as int);
        lemma_tally_decreasing(dp_chain(skus, total as int), total as int);
    }
}

} // verus!
