//! Lookups over the stable keys of the bundled preset frames.

use vstd::prelude::*;

verus! {

/// The keys `keys[0..upto]` are pairwise distinct.
pub open spec fn distinct_keys(keys: Seq<String>, upto: int) -> bool {
    forall|a: int, b: int| 0 <= a < b < upto ==> keys[a]@ != keys[b]@
}

/// Index of the first key that repeats an earlier key, or `None` when all
/// keys are distinct. Preset keys must be unique.
pub fn first_repeated_key(keys: &Vec<String>) -> (r: Option<usize>)
    ensures
        r is None ==> distinct_keys(keys@, keys@.len() as int),
        r matches Some(i) ==> i < keys@.len() && distinct_keys(keys@, i as int) && exists|j: int|
            0 <= j < i && keys@[j]@ == keys@[i as int]@,
{
    let mut i: usize = 0;
    while i < keys.len()
        invariant
            i <= keys@.len(),
            distinct_keys(keys@, i as int),
        decreases keys.len() - i,
    {
        let mut j: usize = 0;
        while j < i
            invariant
                i < keys@.len(),
                j <= i,
                distinct_keys(keys@, i as int),
                forall|a: int| 0 <= a < j ==> keys@[a]@ != keys@[i as int]@,
            decreases i - j,
        {
            if keys[j] == keys[i] {
                proof {
                    assert(keys@[j as int]@ == keys@[i as int]@);
                }
                return Some(i);
            }
            j += 1;
        }
        i += 1;
    }
    None
}

/// Index of the first key equal to `key`, or `None` when no key is.
pub fn preset_position(keys: &Vec<String>, key: &str) -> (r: Option<usize>)
    ensures
        match r {
            None => forall|j: int| 0 <= j < keys@.len() ==> keys@[j]@ != key@,
            Some(i) => i < keys@.len() && keys@[i as int]@ == key@ && forall|j: int|
                0 <= j < i ==> keys@[j]@ != key@,
        },
{
    let wanted = String::from_str(key);
    let mut i: usize = 0;
    while i < keys.len()
        invariant
            i <= keys@.len(),
            wanted@ == key@,
            forall|j: int| 0 <= j < i ==> keys@[j]@ != key@,
        decreases keys.len() - i,
    {
        if keys[i] == wanted {
            return Some(i);
        }
        i += 1;
    }
    None
}

/// The `n`-th preset index clamped to the last of `len` presets (0 when
/// there are none).
pub fn clamp_preset_index(n: usize, len: usize) -> (idx: usize)
    ensures
        idx == if len == 0 {
            0
        } else if n < len {
            n
        } else {
            (len - 1) as usize
        },
{
    let last = if len == 0 {
        0
    } else {
        len - 1
    };
    if n < last {
        n
    } else {
        last
    }
}

} // verus!
