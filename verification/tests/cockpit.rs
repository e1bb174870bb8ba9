use bike_fit::{Spacer, SpacerCatalog};

#[test]
fn default_spacer_set_includes_zero_and_max() {
    let s = SpacerCatalog::default_set();
    let totals = s.reachable_totals_mm();
    assert_eq!(totals[0], 0, "zero must always be reachable");
    let max = *totals.last().unwrap();
    assert!(max <= s.max_stack_mm, "{max} > {}", s.max_stack_mm);
    // We should be able to hit 60 mm exactly with 3×20, 6×10, etc.
    assert!(totals.contains(&60));
}

#[test]
fn reachable_totals_are_sorted_unique() {
    let s = SpacerCatalog::default_set();
    let totals = s.reachable_totals_mm();
    for w in totals.windows(2) {
        assert!(w[0] < w[1], "not sorted/unique at {w:?}");
    }
}

#[test]
fn reachable_totals_include_small_increments() {
    // With a 3 mm SKU available, we should be able to make 3, 6, 9, 13, ...
    let s = SpacerCatalog::default_set();
    let totals = s.reachable_totals_mm();
    for t in [3, 5, 6, 8, 10, 13, 15, 20, 25, 30] {
        assert!(
            totals.contains(&t),
            "expected {t} mm to be reachable; got {totals:?}"
        );
    }
}

#[test]
fn default_set_is_3_5_10_20_up_to_60() {
    let s = SpacerCatalog::default_set();
    let heights: Vec<u16> = s.spacers.iter().map(|sp| sp.height_mm).collect();
    assert_eq!(heights, vec![3, 5, 10, 20]);
    assert_eq!(s.max_stack_mm, 60);
}

#[test]
fn default_set_reachable_totals_exact() {
    let totals = SpacerCatalog::default_set().reachable_totals_mm();
    let mut expected = vec![0u16, 3, 5, 6];
    expected.extend(8..=60u16);
    assert_eq!(totals, expected);
}

fn catalog(heights: &[u16], max: u16) -> SpacerCatalog {
    SpacerCatalog {
        spacers: heights.iter().map(|&h| Spacer { height_mm: h }).collect(),
        max_stack_mm: max,
    }
}

#[test]
fn empty_catalog_reaches_only_zero() {
    assert_eq!(catalog(&[], 60).reachable_totals_mm(), vec![0]);
}

#[test]
fn zero_height_skus_add_nothing() {
    assert_eq!(catalog(&[0], 60).reachable_totals_mm(), vec![0]);
    assert_eq!(catalog(&[0, 7], 20).reachable_totals_mm(), vec![0, 7, 14]);
}

#[test]
fn max_stack_zero_reaches_only_zero() {
    assert_eq!(catalog(&[3, 5], 0).reachable_totals_mm(), vec![0]);
}

#[test]
fn totals_are_exactly_the_stack_sums() {
    // 4 and 6 only make even totals of at least 4.
    assert_eq!(
        catalog(&[4, 6], 20).reachable_totals_mm(),
        vec![0, 4, 6, 8, 10, 12, 14, 16, 18, 20]
    );
    // Brute force over a small catalog: t is listed iff some a*5 + b*7 == t.
    let totals = catalog(&[5, 7], 40).reachable_totals_mm();
    for t in 0..=40u16 {
        let sum = (0..=8).any(|a| (0..=6).any(|b| a * 5 + b * 7 == t));
        assert_eq!(totals.contains(&t), sum, "total {t}");
    }
}

#[test]
fn duplicate_skus_do_not_duplicate_totals() {
    assert_eq!(catalog(&[5, 5], 15).reachable_totals_mm(), vec![0, 5, 10, 15]);
}

#[test]
fn totals_near_u16_max_are_exact() {
    // With a 2 mm SKU and the widest maximum, only the even totals are
    // reachable: 65535 is no sum of 2 mm spacers.
    let totals = catalog(&[2], u16::MAX).reachable_totals_mm();
    assert_eq!(totals.len(), 32768);
    assert_eq!(*totals.last().unwrap(), 65534);
    // A single 40000 mm spacer reaches 40000 and nothing more below 65535.
    assert_eq!(catalog(&[40000], u16::MAX).reachable_totals_mm(), vec![0, 40000]);
    assert_eq!(catalog(&[65535], u16::MAX).reachable_totals_mm(), vec![0, 65535]);
}
