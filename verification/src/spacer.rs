//! Spacer SKUs and the catalog of spacers a cockpit may stack.

use vstd::prelude::*;

verus! {

/// A spacer SKU: a single height in millimeters.
#[derive(Debug, Clone, Copy, PartialEq, Eq, Hash, Structural)]
pub struct Spacer {
    pub height_mm: u16,
}

/// A list of spacer SKUs the solver may combine, plus the maximum allowed
/// total stack height.
#[derive(Debug, Clone)]
pub struct SpacerCatalog {
    pub spacers: Vec<Spacer>,
    pub max_stack_mm: u16,
}

/// Height of the stack made of the SKUs `skus[picks[0]]`, `skus[picks[1]]`, ...
pub open spec fn stack_height(skus: Seq<Spacer>, picks: Seq<int>) -> int
    decreases picks.len(),
{
    if picks.len() == 0 {
        0
    } else {
        stack_height(skus, picks.drop_last()) + skus[picks.last()].height_mm
    }
}

/// Every pick names a SKU of `skus`.
pub open spec fn valid_picks(skus: Seq<Spacer>, picks: Seq<int>) -> bool {
    forall|p: int| 0 <= p < picks.len() ==> 0 <= #[trigger] picks[p] < skus.len()
}

/// `t` is the height of some stack of SKUs from `skus`, each SKU used any
/// number of times (a non-negative integer combination of the SKU heights).
pub open spec fn is_stack_sum(skus: Seq<Spacer>, t: int) -> bool {
    exists|picks: Seq<int>| valid_picks(skus, picks) && #[trigger] stack_height(skus, picks) == t
}


/// Every successor of total `v` that fits in `marks` is marked.
pub open spec fn successors_marked(skus: Seq<Spacer>, marks: Seq<bool>, v: int) -> bool {
    forall|j: int|
        0 <= j < skus.len() && v + #[trigger] skus[j].height_mm < marks.len() ==> marks[v
            + skus[j].height_mm]
}

proof fn lemma_successors_marked_grow(skus: Seq<Spacer>, marks: Seq<bool>, i: int, v: int)
    requires
        0 <= i < marks.len(),
        0 <= v,
        successors_marked(skus, marks, v),
    ensures
        successors_marked(skus, marks.update(i, true), v),
{
    let u = marks.update(i, true);
    assert forall|j: int|
        0 <= j < skus.len() && v + #[trigger] skus[j].height_mm < u.len() implies u[v
        + skus[j].height_mm] by {
        assert(marks[v + skus[j].height_mm]);
    }
}

/// Number of `true` entries of `s`.
pub open spec fn count_true(s: Seq<bool>) -> nat
    decreases s.len(),
{
    if s.len() == 0 {
        0
    } else {
        count_true(s.drop_last()) + if s.last() {
            1nat
        } else {
            0nat
        }
    }
}

proof fn lemma_count_true_bound(s: Seq<bool>)
    ensures
        count_true(s) <= s.len(),
    decreases s.len(),
{
    if s.len() > 0 {
        lemma_count_true_bound(s.drop_last());
    }
}

proof fn lemma_count_true_set(s: Seq<bool>, i: int)
    requires
        0 <= i < s.len(),
        !s[i],
    ensures
        count_true(s.update(i, true)) == count_true(s) + 1,
    decreases s.len(),
{
    let u = s.update(i, true);
    if i == s.len() - 1 {
        assert(u.drop_last() =~= s.drop_last());
    } else {
        assert(u.drop_last() =~= s.drop_last().update(i, true));
        lemma_count_true_set(s.drop_last(), i);
    }
}

/// Adding SKU `k` to a stack of height `s` gives another stack height.
pub proof fn lemma_stack_sum_step(skus: Seq<Spacer>, s: int, k: int)
    requires
        0 <= k < skus.len(),
        is_stack_sum(skus, s),
    ensures
        is_stack_sum(skus, s + skus[k].height_mm),
{
    let picks = choose|picks: Seq<int>|
        valid_picks(skus, picks) && #[trigger] stack_height(skus, picks) == s;
    let more = picks.push(k);
    assert(more.drop_last() =~= picks);
    assert(stack_height(skus, more) == s + skus[k].height_mm);
    assert(valid_picks(skus, more));
}

/// The empty stack has height 0.
pub proof fn lemma_stack_sum_zero(skus: Seq<Spacer>)
    ensures
        is_stack_sum(skus, 0),
{
    let none = Seq::<int>::empty();
    assert(stack_height(skus, none) == 0);
    assert(valid_picks(skus, none));
}

/// A marking that holds 0 and is closed under adding SKUs marks the height
/// of every stack made of `picks` that fits in it.
proof fn lemma_closed_marks_cover_picks(skus: Seq<Spacer>, marks: Seq<bool>, picks: Seq<int>)
    requires
        0 < marks.len() <= u16::MAX + 1,
        marks[0],
        forall|v: int| 0 <= v < marks.len() && marks[v] ==> successors_marked(skus, marks, v),
        valid_picks(skus, picks),
        stack_height(skus, picks) < marks.len(),
    ensures
        marks[stack_height(skus, picks)],
    decreases picks.len(),
{
    if picks.len() > 0 {
        let rest = picks.drop_last();
        let k = picks.last();
        assert(valid_picks(skus, rest)) by {
            assert forall|p: int| 0 <= p < rest.len() implies 0 <= #[trigger] rest[p] < skus.len() by {
                assert(rest[p] == picks[p]);
            }
        }
        assert(0 <= k < skus.len()) by {
            assert(picks[picks.len() - 1] == k);
        }
        lemma_stack_height_nonneg(skus, rest);
        lemma_closed_marks_cover_picks(skus, marks, rest);
        let p = stack_height(skus, rest);
        assert(successors_marked(skus, marks, p));
        assert(p + skus[k].height_mm == stack_height(skus, picks));
    }
}

pub proof fn lemma_stack_height_nonneg(skus: Seq<Spacer>, picks: Seq<int>)
    ensures
        stack_height(skus, picks) >= 0,
    decreases picks.len(),
{
    if picks.len() > 0 {
        lemma_stack_height_nonneg(skus, picks.drop_last());
    }
}

/// A marking that holds 0 and is closed under adding SKUs marks every stack
/// height that fits in it.
proof fn lemma_closed_marks_cover_sums(skus: Seq<Spacer>, marks: Seq<bool>, t: int)
    requires
        0 < marks.len() <= u16::MAX + 1,
        marks[0],
        forall|v: int| 0 <= v < marks.len() && marks[v] ==> successors_marked(skus, marks, v),
        0 <= t < marks.len(),
        is_stack_sum(skus, t),
    ensures
        marks[t],
{
    let picks = choose|picks: Seq<int>|
        valid_picks(skus, picks) && #[trigger] stack_height(skus, picks) == t;
    lemma_closed_marks_cover_picks(skus, marks, picks);
}

/// The SKUs of the default catalog: 3, 5, 10 and 20 mm.
pub open spec fn default_skus() -> Seq<Spacer> {
    seq![
        Spacer { height_mm: 3 },
        Spacer { height_mm: 5 },
        Spacer { height_mm: 10 },
        Spacer { height_mm: 20 },
    ]
}

impl SpacerCatalog {
    /// Whether `t` is among the reachable totals of this catalog: a stack
    /// height (a non-negative integer combination of the SKU heights) no
    /// higher than the maximum stack.
    pub open spec fn lists_total(self, t: int) -> bool {
        &&& 0 <= t <= self.max_stack_mm
        &&& is_stack_sum(self.spacers@, t)
    }

    /// Default catalog: 3, 5, 10, 20 mm SKUs, 60 mm max stack.
    pub fn default_set() -> (cat: Self)
        ensures
            cat.spacers@ == default_skus(),
            cat.max_stack_mm == 60,
    {
        Self {
            spacers: vec![
                Spacer { height_mm: 3 },
                Spacer { height_mm: 5 },
                Spacer { height_mm: 10 },
                Spacer { height_mm: 20 },
            ],
            max_stack_mm: 60,
        }
    }

    /// Enumerate every reachable total spacer height (in mm) up to the max,
    /// sorted ascending and deduplicated. Always includes 0 (no spacers).
    pub fn reachable_totals_mm(&self) -> (totals: Vec<u16>)
        ensures
            forall|i: int, j: int| 0 <= i < j < totals.len() ==> totals[i] < totals[j],
            forall|t: u16| totals@.contains(t) <==> self.lists_total(t as int),
    {
        let max = self.max_stack_mm;
        let n = self.spacers.len();
        let len: usize = max as usize + 1;
        let ghost skus = self.spacers@;

        // marks[t] records that total t has been reached.
        let mut marks: Vec<bool> = Vec::new();
        let mut i: usize = 0;
        while i < len
            invariant
                marks.len() == i,
                i <= len,
                forall|j: int| 0 <= j < i ==> !marks[j],
            decreases len - i,
        {
            marks.push(false);
            i += 1;
        }
        marks.set(0, true);
        proof {
            lemma_stack_sum_zero(skus);
        }
        let mut frontier: Vec<u16> = Vec::new();
        frontier.push(0);
        proof {
            assert(frontier@[0] == 0);
            assert forall|v: int| 0 <= v < len && marks[v] implies frontier@.contains(v as u16) by {
                assert(v == 0);
            }
        }

        // Depth-first walk over reachable sums.
        while frontier.len() > 0
            invariant
                skus == self.spacers@,
                n == skus.len(),
                max == self.max_stack_mm,
                len == max + 1,
                marks.len() == len,
                marks[0],
                forall|v: int| 0 <= v < len && marks[v] ==> self.lists_total(v),
                forall|q: int| 0 <= q < frontier.len() ==> frontier[q] < len && marks[frontier[q] as int],
                forall|v: int|
                    0 <= v < len && marks[v] ==> frontier@.contains(v as u16)
                        || successors_marked(skus, marks@, v),
            decreases 2 * (marks.len() - count_true(marks@)) + frontier.len(),
        {
            proof {
                lemma_count_true_bound(marks@);
            }
            let ghost measure0 = 2 * (marks.len() - count_true(marks@)) + frontier.len();
            let ghost frontier0 = frontier@;
            let s = frontier.pop().unwrap();
            proof {
                assert(frontier0 == frontier@.push(s));
                assert(frontier0.last() == s);
            }
            let mut k: usize = 0;
            while k < n
                invariant
                    skus == self.spacers@,
                    n == skus.len(),
                    max == self.max_stack_mm,
                    len == max + 1,
                    marks.len() == len,
                    marks[0],
                    s < len,
                    marks[s as int],
                    k <= n,
                    forall|v: int| 0 <= v < len && marks[v] ==> self.lists_total(v),
                    forall|q: int|
                        0 <= q < frontier.len() ==> frontier[q] < len && marks[frontier[q] as int],
                    forall|v: int|
                        0 <= v < len && marks[v] ==> v == s || frontier@.contains(v as u16)
                            || successors_marked(skus, marks@, v),
                    forall|j: int|
                        0 <= j < k && s + #[trigger] skus[j].height_mm < len ==> marks[s
                            + skus[j].height_mm],
                    count_true(marks@) <= marks.len(),
                    2 * (marks.len() - count_true(marks@)) + frontier.len() < measure0,
                decreases n - k,
            {
                let h = self.spacers[k].height_mm;
                // The running total in a wider type: a step past the
                // maximum stack is never taken.
                let next: u32 = s as u32 + h as u32;
                if next <= max as u32 && !marks[next as usize] {
                    let ghost old_marks = marks@;
                    let ghost old_frontier = frontier@;
                    proof {
                        let nx = next as int;
                        assert(nx == s + h);
                        assert(h > 0);
                        assert(self.lists_total(s as int));
                        lemma_stack_sum_step(skus, s as int, k as int);
                        lemma_count_true_set(marks@, nx);
                    }
                    marks.set(next as usize, true);
                    frontier.push(next as u16);
                    proof {
                        lemma_count_true_bound(marks@);
                        assert(marks@ == old_marks.update(next as int, true));
                        assert(frontier@ == old_frontier.push(next as u16));
                        assert forall|v: int|
                            0 <= v < len && marks[v] implies v == s || frontier@.contains(v as u16)
                            || successors_marked(skus, marks@, v) by {
                            if v == next as int {
                                assert(frontier@[frontier@.len() - 1] == next as u16);
                            } else if v != s {
                                assert(old_marks[v]);
                                if old_frontier.contains(v as u16) {
                                    let q = choose|q: int|
                                        0 <= q < old_frontier.len() && old_frontier[q] == v as u16;
                                    assert(frontier@[q] == v as u16);
                                } else {
                                    lemma_successors_marked_grow(skus, old_marks, next as int, v);
                                }
                            }
                        }
                    }
                }
                k += 1;
            }
            proof {
                assert(successors_marked(skus, marks@, s as int));
                assert forall|v: int|
                    0 <= v < len && marks[v] implies frontier@.contains(v as u16)
                    || successors_marked(skus, marks@, v) by {
                }
            }
        }
        proof {
            assert forall|v: int| 0 <= v < len && marks[v] implies successors_marked(
                skus,
                marks@,
                v,
            ) by {
                if frontier@.contains(v as u16) {
                    let q = choose|q: int| 0 <= q < frontier@.len() && frontier@[q] == v as u16;
                }
            }
            assert forall|t: int| 0 <= t < len && self.lists_total(t) implies marks[t] by {
                lemma_closed_marks_cover_sums(skus, marks@, t);
            }
        }

        // Collect the marked totals in ascending order.
        let mut totals: Vec<u16> = Vec::new();
        let mut t: usize = 0;
        while t < len
            invariant
                len == max + 1,
                marks.len() == len,
                t <= len,
                forall|v: int| 0 <= v < len ==> (marks[v] <==> self.lists_total(v)),
                forall|p: int, q: int| 0 <= p < q < totals.len() ==> totals[p] < totals[q],
                forall|p: int| 0 <= p < totals.len() ==> totals[p] < t,
                forall|v: u16| totals@.contains(v) <==> (v < t && marks[v as int]),
            decreases len - t,
        {
            if marks[t] {
                let ghost before = totals@;
                totals.push(t as u16);
                proof {
                    assert(totals@ == before.push(t as u16));
                    assert forall|v: u16| (v < t + 1 && marks[v as int]) implies totals@.contains(v) by {
                        if v == t {
                            assert(totals@[totals@.len() - 1] == v);
                        } else {
                            assert(before.contains(v));
                            let q = choose|q: int| 0 <= q < before.len() && before[q] == v;
                            assert(totals@[q] == v);
                        }
                    }
                    assert forall|v: u16| totals@.contains(v) implies (v < t + 1 && marks[v as int]) by {
                        let q = choose|q: int| 0 <= q < totals@.len() && totals@[q] == v;
                        if q < before.len() {
                            assert(before[q] == v);
                            assert(before.contains(v));
                        } else {
                            assert(v == t);
                        }
                    }
                }
            }
            t += 1;
        }
        totals
    }
}


/// Law: no spacers at all is always a reachable total.
pub proof fn law_zero_is_reachable(catalog: SpacerCatalog)
    ensures
        catalog.lists_total(0),
{
    lemma_stack_sum_zero(catalog.spacers@);
}

/// Law: the reachable totals are exactly the non-negative integer
/// combinations of the SKU heights that are no higher than the maximum stack.
pub proof fn law_reachable_totals_are_stack_sums(catalog: SpacerCatalog, t: int)
    ensures
        catalog.lists_total(t) <==> (0 <= t <= catalog.max_stack_mm && is_stack_sum(
            catalog.spacers@,
            t,
        )),
{
}

} // verus!
