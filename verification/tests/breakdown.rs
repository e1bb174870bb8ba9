use bike_fit::coin_change::coin_change_breakdown;
use bike_fit::solver::{check_search_space, greedy_breakdown};
use bike_fit::{BuildError, Spacer, SpacerCatalog};

fn catalog(heights: &[u16], max: u16) -> SpacerCatalog {
    SpacerCatalog {
        spacers: heights.iter().map(|&h| Spacer { height_mm: h }).collect(),
        max_stack_mm: max,
    }
}

fn sp(h: u16) -> Spacer {
    Spacer { height_mm: h }
}

#[test]
fn greedy_breakdown_default_catalog_sums_to_total() {
    let cat = SpacerCatalog::default_set();
    for total in cat.reachable_totals_mm() {
        let bd = greedy_breakdown(&cat, total);
        let sum: u16 = bd.iter().map(|(s, c)| s.height_mm * c).sum();
        assert_eq!(sum, total, "breakdown {bd:?} doesn't sum to {total}");
    }
}

#[test]
fn greedy_takes_largest_first() {
    let cat = SpacerCatalog::default_set();
    assert_eq!(greedy_breakdown(&cat, 60), vec![(sp(20), 3)]);
    assert_eq!(greedy_breakdown(&cat, 38), vec![(sp(20), 1), (sp(10), 1), (sp(5), 1), (sp(3), 1)]);
    assert_eq!(greedy_breakdown(&cat, 13), vec![(sp(10), 1), (sp(3), 1)]);
    assert_eq!(greedy_breakdown(&cat, 0), vec![]);
}

#[test]
fn greedy_sorts_unordered_catalog() {
    let cat = catalog(&[5, 20, 3, 10], 60);
    assert_eq!(greedy_breakdown(&cat, 33), vec![(sp(20), 1), (sp(10), 1), (sp(3), 1)]);
}

#[test]
fn greedy_falls_back_to_coin_change() {
    let cat = SpacerCatalog::default_set();
    // Greedy takes 5 and is left with 1; the coin-change search finds 3 + 3.
    assert_eq!(greedy_breakdown(&cat, 6), vec![(sp(3), 2)]);
    assert_eq!(greedy_breakdown(&cat, 11), vec![(sp(5), 1), (sp(3), 2)]);
    assert_eq!(greedy_breakdown(&cat, 16), vec![(sp(10), 1), (sp(3), 2)]);
}

#[test]
fn greedy_keeps_partial_result_for_unreachable_total() {
    let cat = SpacerCatalog::default_set();
    // 7 is no stack height: the greedy pass (5, leaving 2) is all there is.
    assert_eq!(greedy_breakdown(&cat, 7), vec![(sp(5), 1)]);
    assert_eq!(greedy_breakdown(&cat, 1), vec![]);
}

#[test]
fn breakdown_lists_each_height_once_tallest_first() {
    // A SKU listed twice is taken once, with all the spacers of its height.
    assert_eq!(greedy_breakdown(&catalog(&[5, 5, 3], 60), 13), vec![(sp(5), 2), (sp(3), 1)]);
    // 12 mm is no stack of 5 mm spacers: the breakdown stays below it.
    assert_eq!(greedy_breakdown(&catalog(&[5, 5], 60), 12), vec![(sp(5), 2)]);
}

#[test]
fn greedy_skips_zero_height_skus() {
    let cat = catalog(&[0, 4], 20);
    assert_eq!(greedy_breakdown(&cat, 12), vec![(sp(4), 3)]);
}

#[test]
fn default_catalog_breakdowns_use_fewest_spacers() {
    let cat = SpacerCatalog::default_set();
    // Fewest spacers for each total by dynamic programming.
    let mut fewest = vec![u32::MAX; 61];
    fewest[0] = 0;
    for t in 1..=60usize {
        for h in [3usize, 5, 10, 20] {
            if h <= t && fewest[t - h] != u32::MAX {
                fewest[t] = fewest[t].min(fewest[t - h] + 1);
            }
        }
    }
    for total in cat.reachable_totals_mm() {
        let bd = greedy_breakdown(&cat, total);
        let count: u32 = bd.iter().map(|(_, c)| u32::from(*c)).sum();
        assert_eq!(count, fewest[usize::from(total)], "total {total}: {bd:?}");
    }
}

#[test]
fn default_skus_use_fewest_spacers_on_taller_stacks() {
    let cat = catalog(&[3, 5, 10, 20], 400);
    let mut fewest = vec![u32::MAX; 401];
    fewest[0] = 0;
    for t in 1..=400usize {
        for h in [3usize, 5, 10, 20] {
            if h <= t && fewest[t - h] != u32::MAX {
                fewest[t] = fewest[t].min(fewest[t - h] + 1);
            }
        }
    }
    for total in cat.reachable_totals_mm() {
        let bd = greedy_breakdown(&cat, total);
        let count: u32 = bd.iter().map(|(_, c)| u32::from(*c)).sum();
        assert_eq!(count, fewest[usize::from(total)], "total {total}: {bd:?}");
    }
    // Greedy leaves 1 mm over at 61 mm; the coin-change search takes six spacers.
    assert_eq!(greedy_breakdown(&cat, 61), vec![(sp(20), 2), (sp(10), 1), (sp(5), 1), (sp(3), 2)]);
}

#[test]
fn coin_change_finds_first_predecessor_chain() {
    let cat = SpacerCatalog::default_set();
    assert_eq!(coin_change_breakdown(&cat, 6), Some(vec![(sp(3), 2)]));
    assert_eq!(coin_change_breakdown(&cat, 0), Some(vec![]));
    assert_eq!(coin_change_breakdown(&cat, 23), Some(vec![(sp(20), 1), (sp(3), 1)]));
    let cat = catalog(&[4, 6], 60);
    assert_eq!(coin_change_breakdown(&cat, 14), Some(vec![(sp(6), 1), (sp(4), 2)]));
}

#[test]
fn coin_change_rejects_unreachable_totals() {
    let cat = SpacerCatalog::default_set();
    assert_eq!(coin_change_breakdown(&cat, 7), None);
    assert_eq!(coin_change_breakdown(&cat, 4), None);
    assert_eq!(coin_change_breakdown(&catalog(&[], 60), 5), None);
    assert_eq!(coin_change_breakdown(&catalog(&[0], 60), 5), None);
}

#[test]
fn coin_change_sums_for_every_small_total() {
    let cat = catalog(&[7, 9], 200);
    let totals = cat.reachable_totals_mm();
    for t in 0..=200u16 {
        match coin_change_breakdown(&cat, t) {
            Some(bd) => {
                assert!(totals.contains(&t));
                let sum: u16 = bd.iter().map(|(s, c)| s.height_mm * c).sum();
                assert_eq!(sum, t);
            }
            None => assert!(!totals.contains(&t)),
        }
    }
}

#[test]
fn search_space_needs_stems_then_spacers() {
    let cat = SpacerCatalog::default_set();
    assert_eq!(check_search_space(0, &cat), Err(BuildError::NoStems));
    assert_eq!(check_search_space(0, &catalog(&[], 60)), Err(BuildError::NoStems));
    assert_eq!(check_search_space(28, &catalog(&[], 60)), Err(BuildError::NoSpacers));
    assert_eq!(check_search_space(28, &cat), Ok(()));
}

#[test]
fn build_error_messages() {
    assert_eq!(BuildError::NoStems.message(), "cockpit has no candidate stems");
    assert_eq!(BuildError::NoSpacers.message(), "spacer catalog is empty");
}
