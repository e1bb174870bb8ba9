use bike_fit::{spacer_breakdown_text, spacer_sku_summary, Spacer, SpacerCatalog, SpacerStack};

fn sp(h: u16) -> Spacer {
    Spacer { height_mm: h }
}

#[test]
fn sku_summary_lists_heights() {
    assert_eq!(spacer_sku_summary(&SpacerCatalog::default_set()), "3 mm, 5 mm, 10 mm, 20 mm");
    let one = SpacerCatalog { spacers: vec![sp(65535)], max_stack_mm: 0 };
    assert_eq!(spacer_sku_summary(&one), "65535 mm");
    let zero = SpacerCatalog { spacers: vec![sp(0), sp(100)], max_stack_mm: 0 };
    assert_eq!(spacer_sku_summary(&zero), "0 mm, 100 mm");
}

#[test]
fn sku_summary_of_empty_catalog() {
    let empty = SpacerCatalog { spacers: vec![], max_stack_mm: 60 };
    assert_eq!(spacer_sku_summary(&empty), "(none)");
}

#[test]
fn breakdown_text_joins_entries() {
    let stack = SpacerStack { total_mm: 38, breakdown: vec![(sp(20), 1), (sp(10), 1), (sp(5), 1), (sp(3), 1)] };
    assert_eq!(spacer_breakdown_text(&stack), "1× 20 mm + 1× 10 mm + 1× 5 mm + 1× 3 mm");
    let stack = SpacerStack { total_mm: 60, breakdown: vec![(sp(20), 3)] };
    assert_eq!(spacer_breakdown_text(&stack), "3× 20 mm");
}

#[test]
fn breakdown_text_of_empty_stack() {
    let stack = SpacerStack { total_mm: 0, breakdown: vec![] };
    assert_eq!(spacer_breakdown_text(&stack), "(none)");
    // Only the total decides "(none)".
    let stack = SpacerStack { total_mm: 0, breakdown: vec![(sp(3), 1)] };
    assert_eq!(spacer_breakdown_text(&stack), "(none)");
    let stack = SpacerStack { total_mm: 5, breakdown: vec![] };
    assert_eq!(spacer_breakdown_text(&stack), "");
}

#[test]
fn stem_summary_of_default_catalog() {
    let mut stems = Vec::new();
    for l in [70, 80, 90, 100, 110, 120, 130] {
        for a in [-17, -6, 6, 17] {
            stems.push((l, a));
        }
    }
    assert_eq!(bike_fit::stem_summary_text(&stems), "lengths 70–130 mm, angles -17°/-6°/+6°/+17°");
}

#[test]
fn stem_summary_sorts_and_dedups() {
    let stems = vec![(120, 0), (70, 0), (90, 0), (70, 0)];
    assert_eq!(bike_fit::stem_summary_text(&stems), "lengths 70–120 mm, angles +0°");
    let stems = vec![(-5, 10), (2147483647, -2147483648), (0, 10)];
    assert_eq!(
        bike_fit::stem_summary_text(&stems),
        "lengths -5–2147483647 mm, angles -2147483648°/+10°"
    );
}

#[test]
fn stem_summary_of_no_stems() {
    assert_eq!(bike_fit::stem_summary_text(&vec![]), "(none)");
}
