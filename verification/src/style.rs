//! Per-bike background colors for the side-view rendering.

use vstd::prelude::*;
use vstd::string::StringSliceAdditionalSpecFns;

verus! {

/// An RGB color.
#[derive(Debug, Clone, Copy, PartialEq, Eq, Structural)]
pub struct Rgb {
    pub r: u8,
    pub g: u8,
    pub b: u8,
}

/// The background palette: muted, similar-luminance blues and teals, the
/// default blue first.
pub open spec fn background_palette() -> Seq<Rgb> {
    seq![
        Rgb { r: 74, g: 134, b: 188 },
        Rgb { r: 82, g: 142, b: 168 },
        Rgb { r: 96, g: 122, b: 168 },
        Rgb { r: 70, g: 150, b: 170 },
        Rgb { r: 110, g: 130, b: 170 },
        Rgb { r: 64, g: 148, b: 160 },
    ]
}

/// 32-bit FNV-1a hash of `bytes`.
pub open spec fn fnv1a(bytes: Seq<u8>) -> u32
    decreases bytes.len(),
{
    if bytes.len() == 0 {
        0x811c_9dc5
    } else {
        (fnv1a(bytes.drop_last()) ^ (bytes.last() as u32)).wrapping_mul(0x0100_0193)
    }
}

/// The `i`-th color of the background palette.
pub fn palette_color(i: usize) -> (c: Rgb)
    requires
        i < background_palette().len(),
    ensures
        c == background_palette()[i as int],
{
    match i {
        0 => Rgb { r: 74, g: 134, b: 188 },
        1 => Rgb { r: 82, g: 142, b: 168 },
        2 => Rgb { r: 96, g: 122, b: 168 },
        3 => Rgb { r: 70, g: 150, b: 170 },
        4 => Rgb { r: 110, g: 130, b: 170 },
        _ => Rgb { r: 64, g: 148, b: 160 },
    }
}

/// Background color deterministically derived from `key` (a frame's preset
/// key), so that different frames look visibly distinct and the choice is
/// stable across runs.
pub fn background_for_key(key: &str) -> (c: Rgb)
    ensures
        c == background_palette()[fnv1a(key.spec_bytes()) as int % 6],
{
    let bytes = key.as_bytes();
    let mut h: u32 = 0x811c_9dc5;
    let mut i: usize = 0;
    while i < bytes.len()
        invariant
            i <= bytes@.len(),
            bytes@ == key.spec_bytes(),
            h == fnv1a(bytes@.take(i as int)),
        decreases bytes@.len() - i,
    {
        proof {
            assert(bytes@.take(i + 1).drop_last() =~= bytes@.take(i as int));
        }
        h ^= bytes[i] as u32;
        h = h.wrapping_mul(0x0100_0193);
        i += 1;
    }
    proof {
        assert(bytes@.take(bytes@.len() as int) =~= bytes@);
    }
    palette_color((h as usize) % 6)
}

/// Law: FNV-1a starts from the offset basis `0x811c9dc5` and folds in
/// every byte, whatever the length: the hash of `bytes` followed by `x` is
/// the hash of `bytes`, xor `x`, times the FNV prime `0x01000193` modulo
/// 2^32.
pub proof fn law_fnv1a_folds_every_byte(bytes: Seq<u8>, x: u8)
    ensures
        fnv1a(Seq::<u8>::empty()) == 0x811c_9dc5,
        fnv1a(bytes.push(x)) as int == ((fnv1a(bytes) ^ (x as u32)) as int * 0x0100_0193)
            % 0x1_0000_0000,
{
    let b = bytes.push(x);
    assert(b.drop_last() =~= bytes);
    assert(b.last() == x);
}

} // verus!
