use bike_fit::presets::{clamp_preset_index, first_repeated_key, preset_position};
use bike_fit::share::{fragment_fit_values, fragment_payloads};
use bike_fit::style::palette_color;
use bike_fit::{background_for_key, AppMode, Rgb, WheelSize};

#[test]
fn wheel_bsd() {
    assert_eq!(WheelSize::Iso622.bsd_mm(), 622);
    assert_eq!(WheelSize::Iso584.bsd_mm(), 584);
    assert_eq!(WheelSize::Custom(559).bsd_mm(), 559);
}

#[test]
fn app_mode_defaults_to_single() {
    assert_eq!(AppMode::default(), AppMode::Single);
}

fn fnv1a(key: &str) -> u32 {
    let mut h: u32 = 0x811c_9dc5;
    for b in key.as_bytes() {
        h ^= u32::from(*b);
        h = h.wrapping_mul(0x0100_0193);
    }
    h
}

#[test]
fn background_is_palette_entry_chosen_by_hash() {
    for key in ["", "canyon-aeroad-cf-slx-7-2xs-2025", "specialized-tarmac-sl8-44-2025", "a", "ü"] {
        let expected = palette_color((fnv1a(key) as usize) % 6);
        assert_eq!(background_for_key(key), expected, "key {key:?}");
    }
    // The empty key hashes to the FNV offset basis 0x811c9dc5, which is 1 mod 6.
    assert_eq!(background_for_key(""), Rgb { r: 82, g: 142, b: 168 });
    assert_eq!(palette_color(0), Rgb { r: 74, g: 134, b: 188 });
}

#[test]
fn background_is_stable() {
    let k = "canyon-endurace-cf-slx-3xs-2025";
    assert_eq!(background_for_key(k), background_for_key(k));
}

fn keys(ks: &[&str]) -> Vec<String> {
    ks.iter().map(|k| k.to_string()).collect()
}

#[test]
fn repeated_keys_are_found() {
    assert_eq!(first_repeated_key(&keys(&["a", "b", "c"])), None);
    assert_eq!(first_repeated_key(&keys(&[])), None);
    assert_eq!(first_repeated_key(&keys(&["a", "b", "a", "b"])), Some(2));
    assert_eq!(first_repeated_key(&keys(&["x", "y", "y"])), Some(2));
}

#[test]
fn preset_lookup_by_key() {
    let ks = keys(&["canyon-aeroad-cf-slx-7-2xs-2025", "specialized-tarmac-sl8-44-2025", "dup", "dup"]);
    assert_eq!(preset_position(&ks, "specialized-tarmac-sl8-44-2025"), Some(1));
    assert_eq!(preset_position(&ks, "dup"), Some(2));
    assert_eq!(preset_position(&ks, "not-a-real-key"), None);
}

#[test]
fn preset_index_is_clamped() {
    assert_eq!(clamp_preset_index(0, 3), 0);
    assert_eq!(clamp_preset_index(1, 3), 1);
    assert_eq!(clamp_preset_index(7, 3), 2);
    assert_eq!(clamp_preset_index(1, 1), 0);
    assert_eq!(clamp_preset_index(1, 0), 0);
}

#[test]
fn fragment_fit_values_are_decoded() {
    // "eyJhIjoxfQ" is the unpadded URL-safe base64 of {"a":1}.
    assert_eq!(fragment_payloads("#fit=eyJhIjoxfQ"), vec![b"{\"a\":1}".to_vec()]);
    assert_eq!(fragment_payloads("fit=eyJhIjoxfQ"), vec![b"{\"a\":1}".to_vec()]);
    assert_eq!(
        fragment_payloads("#x=1&fit=aGk&fit=!!&y&fit=eyJhIjoxfQ"),
        vec![b"hi".to_vec(), b"{\"a\":1}".to_vec()]
    );
}

#[test]
fn fragment_without_fit_values() {
    assert!(fragment_payloads("").is_empty());
    assert!(fragment_payloads("#").is_empty());
    assert!(fragment_payloads("#fit").is_empty());
    assert!(fragment_payloads("#fitx=aGk").is_empty());
    assert!(fragment_payloads("#other=aGk").is_empty());
    // Padding is rejected by the unpadded engine.
    assert!(fragment_payloads("#fit=aGk=").is_empty());
    // Only the first '=' separates key and value, so "a=b" is the value.
    assert!(fragment_payloads("#fit=a=b").is_empty());
    // Only one leading '#' is stripped.
    assert!(fragment_payloads("##fit=aGk").is_empty());
}

#[test]
fn fragment_fit_values_in_order() {
    assert_eq!(
        fragment_fit_values("#x=1&fit=aGk&fit=!!&y&fit=&fit=a=b&fitx=z"),
        vec![b"aGk".to_vec(), b"!!".to_vec(), b"".to_vec(), b"a=b".to_vec()]
    );
    assert_eq!(fragment_fit_values("fit=1&&fit=2"), vec![b"1".to_vec(), b"2".to_vec()]);
    assert!(fragment_fit_values("").is_empty());
    assert!(fragment_fit_values("#").is_empty());
    assert!(fragment_fit_values("##fit=1").is_empty());
}
