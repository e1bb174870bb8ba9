//! Short human-readable descriptions of spacer catalogs and stacks.

use vstd::prelude::*;

use crate::solver::SpacerStack;
use crate::spacer::{Spacer, SpacerCatalog};

verus! {

/// The decimal digit character for `d` in `0..10`.
pub open spec fn digit_char(d: int) -> char {
    (d + 48) as char
}

/// Decimal representation of `n`, without leading zeros.
pub open spec fn decimal_text(n: nat) -> Seq<char>
    decreases n,
{
    if n < 10 {
        seq![digit_char(n as int)]
    } else {
        decimal_text(n / 10) + seq![digit_char((n % 10) as int)]
    }
}

fn push_digit(s: &mut String, d: u16)
    requires
        d < 10,
    ensures
        final(s)@ == old(s)@ + seq![digit_char(d as int)],
{
    match d {
        0 => {
            proof {
                reveal_strlit("0");
            }
            s.append("0");
        },
        1 => {
            proof {
                reveal_strlit("1");
            }
            s.append("1");
        },
        2 => {
            proof {
                reveal_strlit("2");
            }
            s.append("2");
        },
        3 => {
            proof {
                reveal_strlit("3");
            }
            s.append("3");
        },
        4 => {
            proof {
                reveal_strlit("4");
            }
            s.append("4");
        },
        5 => {
            proof {
                reveal_strlit("5");
            }
            s.append("5");
        },
        6 => {
            proof {
                reveal_strlit("6");
            }
            s.append("6");
        },
        7 => {
            proof {
                reveal_strlit("7");
            }
            s.append("7");
        },
        8 => {
            proof {
                reveal_strlit("8");
            }
            s.append("8");
        },
        _ => {
            proof {
                reveal_strlit("9");
            }
            s.append("9");
        },
    }
}

/// Appends the decimal representation of `n` to `s`.
fn push_decimal(s: &mut String, n: u64)
    ensures
        final(s)@ == old(s)@ + decimal_text(n as nat),
    decreases n,
{
    if n >= 10 {
        push_decimal(s, n / 10);
    }
    push_digit(s, (n % 10) as u16);
    proof {
        if n >= 10 {
            assert(old(s)@ + decimal_text((n / 10) as nat) + seq![digit_char((n % 10) as int)]
                =~= old(s)@ + decimal_text(n as nat));
        } else {
            assert(n % 10 == n);
        }
    }
}

/// `"<height> mm"` for one SKU.
pub open spec fn sku_text(sku: Spacer) -> Seq<char> {
    decimal_text(sku.height_mm as nat) + " mm"@
}

/// The first `k` SKUs' texts joined by `", "`.
pub open spec fn sku_list_text(skus: Seq<Spacer>, k: int) -> Seq<char>
    decreases k,
{
    if k <= 0 {
        seq![]
    } else if k == 1 {
        sku_text(skus[0])
    } else {
        sku_list_text(skus, k - 1) + ", "@ + sku_text(skus[k - 1])
    }
}

/// What [`spacer_sku_summary`] says of a catalog's SKUs.
pub open spec fn sku_summary_text(skus: Seq<Spacer>) -> Seq<char> {
    if skus.len() == 0 {
        "(none)"@
    } else {
        sku_list_text(skus, skus.len() as int)
    }
}

/// Lists the catalog's SKU heights, e.g. `"3 mm, 5 mm, 10 mm"`, or
/// `"(none)"` for an empty catalog.
pub fn spacer_sku_summary(s: &SpacerCatalog) -> (text: String)
    ensures
        text@ == sku_summary_text(s.spacers@),
{
    if s.spacers.len() == 0 {
        return String::from_str("(none)");
    }
    let mut text = String::new();
    let mut i: usize = 0;
    while i < s.spacers.len()
        invariant
            i <= s.spacers.len(),
            text@ == sku_list_text(s.spacers@, i as int),
        decreases s.spacers.len() - i,
    {
        let ghost before = text@;
        if i > 0 {
            text.append(", ");
        }
        push_decimal(&mut text, s.spacers[i].height_mm as u64);
        text.append(" mm");
        proof {
            if i > 0 {
                assert(text@ =~= sku_list_text(s.spacers@, i as int) + ", "@ + sku_text(
                    s.spacers@[i as int],
                ));
            } else {
                assert(before =~= Seq::<char>::empty());
                assert(text@ =~= sku_text(s.spacers@[0]));
            }
        }
        i += 1;
    }
    text
}

/// `"<count>× <height> mm"` for one breakdown entry.
pub open spec fn entry_text(entry: (Spacer, u16)) -> Seq<char> {
    decimal_text(entry.1 as nat) + "× "@ + decimal_text(entry.0.height_mm as nat) + " mm"@
}

/// The first `k` entries' texts joined by `" + "`.
pub open spec fn entry_list_text(entries: Seq<(Spacer, u16)>, k: int) -> Seq<char>
    decreases k,
{
    if k <= 0 {
        seq![]
    } else if k == 1 {
        entry_text(entries[0])
    } else {
        entry_list_text(entries, k - 1) + " + "@ + entry_text(entries[k - 1])
    }
}

/// What [`spacer_breakdown_text`] says of a stack.
pub open spec fn breakdown_text_of(total_mm: u16, entries: Seq<(Spacer, u16)>) -> Seq<char> {
    if total_mm == 0 {
        "(none)"@
    } else {
        entry_list_text(entries, entries.len() as int)
    }
}

/// Describes how a stack is assembled, e.g. `"1× 20 mm + 1× 10 mm"`, or
/// `"(none)"` for an empty stack.
pub fn spacer_breakdown_text(stack: &SpacerStack) -> (text: String)
    ensures
        text@ == breakdown_text_of(stack.total_mm, stack.breakdown@),
{
    if stack.total_mm == 0 {
        return String::from_str("(none)");
    }
    let mut text = String::new();
    let mut i: usize = 0;
    while i < stack.breakdown.len()
        invariant
            stack.total_mm != 0,
            i <= stack.breakdown.len(),
            text@ == entry_list_text(stack.breakdown@, i as int),
        decreases stack.breakdown.len() - i,
    {
        let ghost before = text@;
        let (sp, count) = stack.breakdown[i];
        if i > 0 {
            text.append(" + ");
        }
        push_decimal(&mut text, count as u64);
        text.append("× ");
        push_decimal(&mut text, sp.height_mm as u64);
        text.append(" mm");
        proof {
            if i > 0 {
                assert(text@ =~= entry_list_text(stack.breakdown@, i as int) + " + "@ + entry_text(
                    stack.breakdown@[i as int],
                ));
            } else {
                assert(before =~= Seq::<char>::empty());
                assert(text@ =~= entry_text(stack.breakdown@[0]));
            }
        }
        i += 1;
    }
    text
}

// ---------------------------------------------------------------------------
// Stem catalog summary.

/// Orders integers ascending.
pub open spec fn int_leq() -> spec_fn(i32, i32) -> bool {
    |a: i32, b: i32| a <= b
}

/// `s` without the repeats of adjacent equal elements.
pub open spec fn dedup_adjacent(s: Seq<i32>) -> Seq<i32>
    decreases s.len(),
{
    if s.len() <= 1 {
        s
    } else if s.last() == s[s.len() - 2] {
        dedup_adjacent(s.drop_last())
    } else {
        dedup_adjacent(s.drop_last()).push(s.last())
    }
}

/// The distinct values of `s`, ascending.
pub open spec fn distinct_ascending(s: Seq<i32>) -> Seq<i32> {
    dedup_adjacent(s.sort_by(int_leq()))
}

/// `v` in decimal, with a leading `-` when negative.
pub open spec fn int_text(v: int) -> Seq<char> {
    if v < 0 {
        "-"@ + decimal_text((-v) as nat)
    } else {
        decimal_text(v as nat)
    }
}

/// `v` in decimal with its sign always shown (`+0`, `+6`, `-17`).
pub open spec fn signed_text(v: int) -> Seq<char> {
    if v < 0 {
        "-"@ + decimal_text((-v) as nat)
    } else {
        "+"@ + decimal_text(v as nat)
    }
}

/// The first `k` angles as `"<signed angle>°"` joined by `"/"`.
pub open spec fn angle_list_text(angles: Seq<i32>, k: int) -> Seq<char>
    decreases k,
{
    if k <= 0 {
        seq![]
    } else if k == 1 {
        signed_text(angles[0] as int) + "°"@
    } else {
        angle_list_text(angles, k - 1) + "/"@ + signed_text(angles[k - 1] as int) + "°"@
    }
}

/// What [`stem_summary_text`] says of stems given as whole-millimeter
/// lengths and whole-degree angles.
pub open spec fn stem_summary_of(stems: Seq<(i32, i32)>) -> Seq<char> {
    if stems.len() == 0 {
        "(none)"@
    } else {
        let lengths = distinct_ascending(stems.map_values(|st: (i32, i32)| st.0));
        let angles = distinct_ascending(stems.map_values(|st: (i32, i32)| st.1));
        "lengths "@ + int_text(if lengths.len() > 0 { lengths[0] as int } else { 0 }) + "–"@
            + int_text(if lengths.len() > 0 { lengths.last() as int } else { 0 }) + " mm, angles "@
            + angle_list_text(angles, angles.len() as int)
    }
}

proof fn lemma_int_leq_total()
    ensures
        vstd::relations::total_ordering(int_leq()),
{
}

/// `v` sorted ascending.
fn sorted_ascending(v: &Vec<i32>) -> (sorted: Vec<i32>)
    ensures
        sorted@ == v@.sort_by(int_leq()),
{
    let ghost leq = int_leq();
    let mut sorted: Vec<i32> = Vec::new();
    let mut i: usize = 0;
    proof {
        assert(v@.take(0) =~= sorted@);
    }
    while i < v.len()
        invariant
            leq == int_leq(),
            i <= v.len(),
            vstd::relations::sorted_by(sorted@, leq),
            sorted@.to_multiset() == v@.take(i as int).to_multiset(),
        decreases v.len() - i,
    {
        let x = v[i];
        let mut pos: usize = 0;
        while pos < sorted.len() && sorted[pos] <= x
            invariant
                pos <= sorted.len(),
                forall|q: int| 0 <= q < pos ==> sorted@[q] <= x,
            decreases sorted.len() - pos,
        {
            pos += 1;
        }
        let ghost before = sorted@;
        sorted.insert(pos, x);
        proof {
            broadcast use vstd::seq_lib::group_to_multiset_ensures;

            assert(sorted@ == before.insert(pos as int, x));
            assert forall|a: int, b: int| 0 <= a < b < sorted@.len() implies #[trigger] leq(
                sorted@[a],
                sorted@[b],
            ) by {
                if pos < before.len() {
                    assert(before[pos as int] > x);
                }
                if a < pos && b == pos {
                } else if a == pos && b > pos {
                    assert(sorted@[b] == before[b - 1]);
                    assert(leq(before[pos as int], before[b - 1]) || b - 1 == pos);
                } else if a < pos && b > pos {
                    assert(sorted@[b] == before[b - 1]);
                    assert(leq(before[a], before[b - 1]));
                } else if b < pos {
                    assert(leq(before[a], before[b]));
                } else {
                    assert(sorted@[a] == before[a - 1]);
                    assert(sorted@[b] == before[b - 1]);
                    assert(leq(before[a - 1], before[b - 1]));
                }
            }
            assert(v@.take(i + 1) =~= v@.take(i as int).push(x));
        }
        i += 1;
    }
    proof {
        assert(v@.take(v.len() as int) =~= v@);
        lemma_int_leq_total();
        v@.lemma_sort_by_ensures(leq);
        vstd::seq_lib::lemma_sorted_unique(sorted@, v@.sort_by(leq), leq);
    }
    sorted
}

/// The distinct values of `v`, ascending (a sort followed by removing
/// adjacent repeats).
fn distinct_sorted(v: &Vec<i32>) -> (out: Vec<i32>)
    ensures
        out@ == distinct_ascending(v@),
{
    let sorted = sorted_ascending(v);
    let mut out: Vec<i32> = Vec::new();
    let mut i: usize = 0;
    while i < sorted.len()
        invariant
            i <= sorted.len(),
            out@ == dedup_adjacent(sorted@.take(i as int)),
        decreases sorted.len() - i,
    {
        let ghost t = sorted@.take(i + 1);
        proof {
            assert(t.drop_last() =~= sorted@.take(i as int));
            assert(t.last() == sorted@[i as int]);
            if i > 0 {
                assert(t[t.len() - 2] == sorted@[i - 1]);
            } else {
                assert(sorted@.take(0) =~= Seq::<i32>::empty());
                assert(dedup_adjacent(t) == t);
                assert(t =~= seq![sorted@[0]]);
            }
        }
        if i == 0 || sorted[i] != sorted[i - 1] {
            out.push(sorted[i]);
        }
        i += 1;
    }
    proof {
        assert(sorted@.take(sorted.len() as int) =~= sorted@);
    }
    out
}

/// Appends `v` in decimal, with a leading `-` when negative.
fn push_int(s: &mut String, v: i32)
    ensures
        final(s)@ == old(s)@ + int_text(v as int),
{
    if v < 0 {
        s.append("-");
        push_decimal(s, (-(v as i64)) as u64);
        proof {
            assert(final(s)@ =~= old(s)@ + ("-"@ + decimal_text((-v) as nat)));
        }
    } else {
        push_decimal(s, v as u64);
    }
}

/// Appends `v` in decimal with its sign always shown.
fn push_signed(s: &mut String, v: i32)
    ensures
        final(s)@ == old(s)@ + signed_text(v as int),
{
    if v < 0 {
        s.append("-");
        push_decimal(s, (-(v as i64)) as u64);
        proof {
            assert(final(s)@ =~= old(s)@ + ("-"@ + decimal_text((-v) as nat)));
        }
    } else {
        s.append("+");
        push_decimal(s, v as u64);
        proof {
            assert(final(s)@ =~= old(s)@ + ("+"@ + decimal_text(v as nat)));
        }
    }
}

/// Summarizes a stem catalog given as whole-millimeter lengths and
/// whole-degree angles, e.g. `"lengths 70–130 mm, angles -17°/-6°/+6°/+17°"`,
/// or `"(none)"` when there are no stems.
pub fn stem_summary_text(stems: &Vec<(i32, i32)>) -> (text: String)
    ensures
        text@ == stem_summary_of(stems@),
{
    if stems.len() == 0 {
        return String::from_str("(none)");
    }
    let mut lengths: Vec<i32> = Vec::new();
    let mut angles: Vec<i32> = Vec::new();
    let mut i: usize = 0;
    while i < stems.len()
        invariant
            i <= stems.len(),
            lengths@ == stems@.take(i as int).map_values(|st: (i32, i32)| st.0),
            angles@ == stems@.take(i as int).map_values(|st: (i32, i32)| st.1),
        decreases stems.len() - i,
    {
        lengths.push(stems[i].0);
        angles.push(stems[i].1);
        proof {
            assert(lengths@ =~= stems@.take(i + 1).map_values(|st: (i32, i32)| st.0));
            assert(angles@ =~= stems@.take(i + 1).map_values(|st: (i32, i32)| st.1));
        }
        i += 1;
    }
    proof {
        assert(stems@.take(stems.len() as int) =~= stems@);
    }
    let lengths = distinct_sorted(&lengths);
    let angles = distinct_sorted(&angles);
    let first = if lengths.len() > 0 {
        lengths[0]
    } else {
        0
    };
    let last = if lengths.len() > 0 {
        lengths[lengths.len() - 1]
    } else {
        0
    };
    let mut text = String::from_str("lengths ");
    push_int(&mut text, first);
    text.append("–");
    push_int(&mut text, last);
    text.append(" mm, angles ");
    let ghost head = text@;
    let mut k: usize = 0;
    while k < angles.len()
        invariant
            k <= angles.len(),
            text@ == head + angle_list_text(angles@, k as int),
        decreases angles.len() - k,
    {
        let ghost before = text@;
        if k > 0 {
            text.append("/");
        }
        push_signed(&mut text, angles[k]);
        text.append("°");
        proof {
            if k > 0 {
                assert(text@ =~= head + (angle_list_text(angles@, k as int) + "/"@ + signed_text(
                    angles@[k as int] as int,
                ) + "°"@));
            } else {
                assert(before =~= head + Seq::<char>::empty());
                assert(text@ =~= head + (signed_text(angles@[0] as int) + "°"@));
            }
        }
        k += 1;
    }
    proof {
        assert(text@ =~= "lengths "@ + int_text(first as int) + "–"@ + int_text(last as int)
            + " mm, angles "@ + angle_list_text(angles@, angles@.len() as int));
    }
    text
}

// ---------------------------------------------------------------------------
// Laws of the texts.

/// `pieces` with `sep` between each piece and the next.
pub open spec fn joined(pieces: Seq<Seq<char>>, sep: Seq<char>) -> Seq<char>
    decreases pieces.len(),
{
    if pieces.len() == 0 {
        seq![]
    } else if pieces.len() == 1 {
        pieces[0]
    } else {
        joined(pieces.drop_last(), sep) + sep + pieces.last()
    }
}

/// Value of a string of decimal digits, most significant first.
pub open spec fn digits_value(s: Seq<char>) -> int
    decreases s.len(),
{
    if s.len() == 0 {
        0
    } else {
        digits_value(s.drop_last()) * 10 + (s.last() as int - 48)
    }
}

/// Law: the decimal text of `n` is a non-empty string of the digits `0`
/// to `9` whose value is `n`, starting with `0` only when it is `"0"`.
pub proof fn law_decimal_text(n: nat)
    ensures
        decimal_text(n).len() >= 1,
        forall|i: int|
            0 <= i < decimal_text(n).len() ==> 48 <= #[trigger] decimal_text(n)[i] as int <= 57,
        digits_value(decimal_text(n)) == n,
        (decimal_text(n)[0] as int == 48) <==> n == 0,
        decimal_text(n)[0] as int == 48 ==> decimal_text(n).len() == 1,
    decreases n,
{
    if n >= 10 {
        law_decimal_text(n / 10);
        let pre = decimal_text(n / 10);
        let d = digit_char((n % 10) as int);
        let s = decimal_text(n);
        assert(s == pre + seq![d]);
        assert(d as int == (n % 10) + 48);
        assert(s.drop_last() =~= pre);
        assert(s.last() == d);
        assert(digits_value(s) == digits_value(pre) * 10 + (n % 10));
        assert(s[0] == pre[0]);
        assert forall|i: int| 0 <= i < s.len() implies 48 <= #[trigger] s[i] as int <= 57 by {
            if i < pre.len() {
                assert(s[i] == pre[i]);
            }
        }
    } else {
        let s = decimal_text(n);
        assert(s[0] as int == n + 48);
        assert(s.drop_last() =~= Seq::<char>::empty());
        assert(digits_value(s.drop_last()) == 0);
        assert(s.last() == s[0]);
    }
}

/// Law: the signed text of `v` is `-` for a negative `v` and `+`
/// otherwise, followed by the decimal digits of `|v|`.
pub proof fn law_signed_text(v: int)
    ensures
        signed_text(v).len() >= 2,
        signed_text(v)[0] == (if v < 0 { '-' } else { '+' }),
        forall|i: int|
            1 <= i < signed_text(v).len() ==> 48 <= #[trigger] signed_text(v)[i] as int <= 57,
        digits_value(signed_text(v).drop_first()) == if v < 0 { -v } else { v },
{
    let m: nat = if v < 0 { (-v) as nat } else { v as nat };
    law_decimal_text(m);
    let sign: Seq<char> = if v < 0 { "-"@ } else { "+"@ };
    lemma_sign_texts();
    assert(signed_text(v) == sign + decimal_text(m));
    assert(signed_text(v).drop_first() =~= decimal_text(m));
    assert forall|i: int| 1 <= i < signed_text(v).len() implies 48 <= #[trigger] signed_text(
        v,
    )[i] as int <= 57 by {
        assert(signed_text(v)[i] == decimal_text(m)[i - 1]);
    }
}

/// Law: the text of `v` is the decimal digits of `v` when it is not
/// negative, and `-` followed by the digits of `-v` when it is.
pub proof fn law_int_text(v: int)
    ensures
        v >= 0 ==> digits_value(int_text(v)) == v && forall|i: int|
            0 <= i < int_text(v).len() ==> 48 <= #[trigger] int_text(v)[i] as int <= 57,
        v < 0 ==> int_text(v)[0] == '-' && digits_value(int_text(v).drop_first()) == -v,
{
    lemma_sign_texts();
    if v >= 0 {
        law_decimal_text(v as nat);
    } else {
        law_decimal_text((-v) as nat);
        assert(int_text(v).drop_first() =~= decimal_text((-v) as nat));
    }
}

/// The one-character sign texts.
proof fn lemma_sign_texts()
    ensures
        "-"@ == seq!['-'],
        "+"@ == seq!['+'],
{
    reveal_strlit("-");
    reveal_strlit("+");
}

/// The text of one breakdown entry: its own count and its own height.
pub open spec fn entry_piece(e: (Spacer, u16)) -> Seq<char> {
    decimal_text(e.1 as nat) + "× "@ + decimal_text(e.0.height_mm as nat) + " mm"@
}

proof fn lemma_entry_list_joined(entries: Seq<(Spacer, u16)>, k: int)
    requires
        0 <= k <= entries.len(),
    ensures
        entry_list_text(entries, k) == joined(
            entries.take(k).map_values(|e: (Spacer, u16)| entry_piece(e)),
            " + "@,
        ),
    decreases k,
{
    let pieces = entries.take(k).map_values(|e: (Spacer, u16)| entry_piece(e));
    if k > 1 {
        lemma_entry_list_joined(entries, k - 1);
        assert(pieces.drop_last() =~= entries.take(k - 1).map_values(
            |e: (Spacer, u16)| entry_piece(e),
        ));
    }
}

/// Law: the text of a non-empty stack has one piece per breakdown entry,
/// in order, joined by `" + "`; the `i`-th piece is `"<count>× <height> mm"`
/// with the `i`-th entry's own count and height. An empty stack reads
/// `"(none)"`.
pub proof fn law_breakdown_text(total_mm: u16, entries: Seq<(Spacer, u16)>)
    ensures
        total_mm == 0 ==> breakdown_text_of(total_mm, entries) == "(none)"@,
        total_mm != 0 ==> breakdown_text_of(total_mm, entries) == joined(
            entries.map_values(|e: (Spacer, u16)| entry_piece(e)),
            " + "@,
        ),
{
    lemma_entry_list_joined(entries, entries.len() as int);
    assert(entries.take(entries.len() as int) =~= entries);
}

/// The text of one catalog SKU: its height in millimeters.
pub open spec fn sku_piece(sku: Spacer) -> Seq<char> {
    decimal_text(sku.height_mm as nat) + " mm"@
}

proof fn lemma_sku_list_joined(skus: Seq<Spacer>, k: int)
    requires
        0 <= k <= skus.len(),
    ensures
        sku_list_text(skus, k) == joined(skus.take(k).map_values(|s: Spacer| sku_piece(s)), ", "@),
    decreases k,
{
    let pieces = skus.take(k).map_values(|s: Spacer| sku_piece(s));
    if k > 1 {
        lemma_sku_list_joined(skus, k - 1);
        assert(pieces.drop_last() =~= skus.take(k - 1).map_values(|s: Spacer| sku_piece(s)));
    }
}

/// Law: the summary of a non-empty catalog names every SKU once, in
/// catalog order: one `"<height> mm"` piece per SKU, joined by `", "`. An
/// empty catalog reads `"(none)"`.
pub proof fn law_sku_summary(skus: Seq<Spacer>)
    ensures
        skus.len() == 0 ==> sku_summary_text(skus) == "(none)"@,
        skus.len() > 0 ==> sku_summary_text(skus) == joined(
            skus.map_values(|s: Spacer| sku_piece(s)),
            ", "@,
        ),
{
    lemma_sku_list_joined(skus, skus.len() as int);
    assert(skus.take(skus.len() as int) =~= skus);
}

/// The text of one stem angle: signed degrees.
pub open spec fn angle_piece(a: i32) -> Seq<char> {
    signed_text(a as int) + "°"@
}

proof fn lemma_angle_list_joined(angles: Seq<i32>, k: int)
    requires
        0 <= k <= angles.len(),
    ensures
        angle_list_text(angles, k) == joined(
            angles.take(k).map_values(|a: i32| angle_piece(a)),
            "/"@,
        ),
    decreases k,
{
    let pieces = angles.take(k).map_values(|a: i32| angle_piece(a));
    if k > 1 {
        lemma_angle_list_joined(angles, k - 1);
        assert(pieces.drop_last() =~= angles.take(k - 1).map_values(|a: i32| angle_piece(a)));
    }
}

/// Removing adjacent repeats from an ascending sequence leaves a strictly
/// ascending one with the same elements and the same last element.
proof fn lemma_dedup_sorted(s: Seq<i32>)
    requires
        forall|i: int, j: int| 0 <= i <= j < s.len() ==> s[i] <= s[j],
    ensures
        forall|i: int, j: int|
            #![trigger dedup_adjacent(s)[i], dedup_adjacent(s)[j]]
            0 <= i < j < dedup_adjacent(s).len() ==> dedup_adjacent(s)[i] < dedup_adjacent(s)[j],
        forall|a: i32| dedup_adjacent(s).contains(a) <==> s.contains(a),
        s.len() > 0 ==> dedup_adjacent(s).len() > 0 && dedup_adjacent(s).last() == s.last(),
    decreases s.len(),
{
    if s.len() > 1 {
        let p = s.drop_last();
        lemma_dedup_sorted(p);
        let d = dedup_adjacent(p);
        assert(p.last() == s[s.len() - 2]);
        assert forall|a: i32| s.contains(a) <==> (p.contains(a) || a == s.last()) by {
            if s.contains(a) {
                let i = choose|i: int| 0 <= i < s.len() && s[i] == a;
                if i < s.len() - 1 {
                    assert(p[i] == a);
                }
            }
            if p.contains(a) {
                let i = choose|i: int| 0 <= i < p.len() && p[i] == a;
                assert(s[i] == a);
            }
            assert(s[s.len() - 1] == s.last());
        }
        assert(p.contains(p.last())) by {
            assert(p[p.len() - 1] == p.last());
        }
        if s.last() != s[s.len() - 2] {
            let e = d.push(s.last());
            assert(dedup_adjacent(s) == e);
            assert forall|i: int, j: int| 0 <= i < j < e.len() implies #[trigger] e[i] < #[trigger] e[j] by {
                if j == e.len() - 1 {
                    assert(e[j] == s.last());
                    assert(d[d.len() - 1] == d.last());
                    if i < d.len() - 1 {
                        assert(d[i] < d[d.len() - 1]);
                    }
                    assert(s[s.len() - 2] <= s.last());
                } else {
                    assert(e[i] == d[i] && e[j] == d[j]);
                }
            }
            assert forall|a: i32| e.contains(a) <==> s.contains(a) by {
                if e.contains(a) {
                    let i = choose|i: int| 0 <= i < e.len() && e[i] == a;
                    if i < d.len() {
                        assert(d[i] == a);
                    }
                }
                if d.contains(a) {
                    let i = choose|i: int| 0 <= i < d.len() && d[i] == a;
                    assert(e[i] == a);
                }
                assert(e[e.len() - 1] == s.last());
            }
        }
    }
}

/// The distinct values of `s`, ascending, are strictly ascending and are
/// exactly the values of `s`.
proof fn lemma_distinct_ascending(s: Seq<i32>)
    ensures
        forall|i: int, j: int|
            #![trigger distinct_ascending(s)[i], distinct_ascending(s)[j]]
            0 <= i < j < distinct_ascending(s).len() ==> distinct_ascending(s)[i]
                < distinct_ascending(s)[j],
        forall|a: i32| distinct_ascending(s).contains(a) <==> s.contains(a),
{
    broadcast use vstd::seq_lib::group_to_multiset_ensures;

    let leq = int_leq();
    lemma_int_leq_total();
    s.lemma_sort_by_ensures(leq);
    let sorted = s.sort_by(leq);
    assert forall|i: int, j: int| 0 <= i <= j < sorted.len() implies sorted[i] <= sorted[j] by {
        if i < j {
            assert(leq(sorted[i], sorted[j]));
        }
    }
    lemma_dedup_sorted(sorted);
    assert forall|a: i32| sorted.contains(a) <==> s.contains(a) by {
        assert(sorted.contains(a) <==> sorted.to_multiset().count(a) > 0);
        assert(s.contains(a) <==> s.to_multiset().count(a) > 0);
    }
}

/// Law: the summary of a non-empty stem list reads
/// `"lengths <lo>–<hi> mm, angles <angles>"`, where `lo` and `hi` are the
/// shortest and longest stem lengths, and `<angles>` lists every distinct
/// angle of the stems exactly once, ascending, as signed degrees joined by
/// `"/"`. The returned triple is `(lo, hi, angles)`.
pub proof fn law_stem_summary(stems: Seq<(i32, i32)>) -> (parts: (i32, i32, Seq<i32>))
    requires
        stems.len() > 0,
    ensures
        exists|i: int| 0 <= i < stems.len() && stems[i].0 == parts.0,
        exists|i: int| 0 <= i < stems.len() && stems[i].0 == parts.1,
        forall|i: int| 0 <= i < stems.len() ==> parts.0 <= #[trigger] stems[i].0 <= parts.1,
        forall|i: int, j: int|
            #![trigger parts.2[i], parts.2[j]]
            0 <= i < j < parts.2.len() ==> parts.2[i] < parts.2[j],
        forall|a: i32|
            parts.2.contains(a) <==> exists|i: int| 0 <= i < stems.len() && #[trigger] stems[i].1 == a,
        stem_summary_of(stems) == "lengths "@ + int_text(parts.0 as int) + "–"@ + int_text(
            parts.1 as int,
        ) + " mm, angles "@ + joined(parts.2.map_values(|a: i32| angle_piece(a)), "/"@),
{
    let ls = stems.map_values(|st: (i32, i32)| st.0);
    let as_ = stems.map_values(|st: (i32, i32)| st.1);
    let lengths = distinct_ascending(ls);
    let angles = distinct_ascending(as_);
    lemma_distinct_ascending(ls);
    lemma_distinct_ascending(as_);
    assert forall|x: i32| ls.contains(x) <==> exists|i: int| 0 <= i < stems.len() && #[trigger] stems[i].0 == x by {
        if ls.contains(x) {
            let i = choose|i: int| 0 <= i < ls.len() && ls[i] == x;
            assert(stems[i].0 == x);
        }
        if exists|i: int| 0 <= i < stems.len() && #[trigger] stems[i].0 == x {
            let i = choose|i: int| 0 <= i < stems.len() && #[trigger] stems[i].0 == x;
            assert(ls[i] == x);
        }
    }
    assert forall|x: i32| as_.contains(x) <==> exists|i: int| 0 <= i < stems.len() && #[trigger] stems[i].1 == x by {
        if as_.contains(x) {
            let i = choose|i: int| 0 <= i < as_.len() && as_[i] == x;
            assert(stems[i].1 == x);
        }
        if exists|i: int| 0 <= i < stems.len() && #[trigger] stems[i].1 == x {
            let i = choose|i: int| 0 <= i < stems.len() && #[trigger] stems[i].1 == x;
            assert(as_[i] == x);
        }
    }
    assert(ls[0] == stems[0].0);
    assert(ls.contains(stems[0].0));
    assert(lengths.contains(stems[0].0));
    let lo = lengths[0];
    let hi = lengths.last();
    assert(lengths.contains(lo));
    assert(lengths.contains(hi)) by {
        assert(lengths[lengths.len() - 1] == hi);
    }
    assert(ls.contains(lo) && ls.contains(hi));
    let ilo = choose|i: int| 0 <= i < ls.len() && ls[i] == lo;
    let ihi = choose|i: int| 0 <= i < ls.len() && ls[i] == hi;
    assert(stems[ilo].0 == lo && stems[ihi].0 == hi);
    assert forall|i: int| 0 <= i < stems.len() implies lo <= #[trigger] stems[i].0 <= hi by {
        assert(ls[i] == stems[i].0);
        assert(ls.contains(stems[i].0));
        assert(lengths.contains(stems[i].0));
        let k = choose|k: int| 0 <= k < lengths.len() && lengths[k] == stems[i].0;
        if k > 0 {
            assert(lengths[0] < lengths[k]);
        }
        if k < lengths.len() - 1 {
            assert(lengths[k] < lengths[lengths.len() - 1]);
        }
    }
    assert forall|a: i32|
        angles.contains(a) <==> exists|i: int| 0 <= i < stems.len() && #[trigger] stems[i].1 == a by {
        assert(angles.contains(a) <==> as_.contains(a));
        assert(as_.contains(a) <==> exists|i: int| 0 <= i < stems.len() && #[trigger] stems[i].1 == a);
    }
    lemma_angle_list_joined(angles, angles.len() as int);
    assert(angles.take(angles.len() as int) =~= angles);
    (lo, hi, angles)
}

} // verus!
