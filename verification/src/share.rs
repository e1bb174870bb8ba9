//! Shared-fit links: a URL fragment `#fit=<base64-url>` carries the JSON of
//! an app state. This module picks the `fit` values out of a fragment and
//! decodes them into the candidate JSON payloads, in order.

use vstd::prelude::*;
use vstd::string::StringSliceAdditionalSpecFns;

verus! {

/// What base64's URL-safe, unpadded engine decodes `input` to, or `None`
/// where it rejects the input.
pub uninterp spec fn url_safe_no_pad_decode(input: Seq<u8>) -> Option<Seq<u8>>;

/// Decodes `input` with base64's `URL_SAFE_NO_PAD` engine
/// (`base64::Engine::decode`), mapping its `DecodeError` to `None`.
/// The contract claims only that the outcome is a function of the input
/// bytes, named [`url_safe_no_pad_decode`].
#[verifier::external_body]
fn decode_url_safe_no_pad(input: &[u8]) -> (res: Option<Vec<u8>>)
    ensures
        match res {
            Some(v) => url_safe_no_pad_decode(input@) == Some(v@),
            None => url_safe_no_pad_decode(input@) is None,
        },
{
    base64::Engine::decode(&base64::engine::general_purpose::URL_SAFE_NO_PAD, input).ok()
}

/// Index of the first `x` in `s`, or `s.len()` when there is none.
pub open spec fn first_at(s: Seq<u8>, x: u8) -> int
    decreases s.len(),
{
    if s.len() == 0 {
        0
    } else if s[0] == x {
        0
    } else {
        1 + first_at(s.drop_first(), x)
    }
}

/// `s` split at every `sep` byte, as `str::split` does: `k` separators
/// give `k + 1` pieces, some of them possibly empty.
pub open spec fn split_at_byte(s: Seq<u8>, sep: u8) -> Seq<Seq<u8>>
    decreases s.len(),
{
    let i = first_at(s, sep);
    if i < 0 || i >= s.len() {
        seq![s]
    } else {
        seq![s.take(i)] + split_at_byte(s.skip(i + 1), sep)
    }
}

/// `b"fit"`: the fragment parameter that carries a shared fit.
pub open spec fn fit_key() -> Seq<u8> {
    seq![102u8, 105u8, 116u8]
}

/// `b'#'`, `b'&'` and `b'='`.
pub open spec fn hash_byte() -> u8 {
    35u8
}

pub open spec fn amp_byte() -> u8 {
    38u8
}

pub open spec fn eq_byte() -> u8 {
    61u8
}

/// The value of a `key=value` pair whose key is `fit`; the key ends at the
/// first `=`.
pub open spec fn pair_fit_value(pair: Seq<u8>) -> Option<Seq<u8>> {
    let e = first_at(pair, eq_byte());
    if 0 <= e < pair.len() && pair.take(e) == fit_key() {
        Some(pair.skip(e + 1))
    } else {
        None
    }
}

/// The `fit` values of `pairs`, in order.
pub open spec fn pairs_fit_values(pairs: Seq<Seq<u8>>) -> Seq<Seq<u8>>
    decreases pairs.len(),
{
    if pairs.len() == 0 {
        seq![]
    } else {
        (match pair_fit_value(pairs[0]) {
            Some(v) => seq![v],
            None => seq![],
        }) + pairs_fit_values(pairs.drop_first())
    }
}

/// The `fit` values a location hash (`""` or `"#..."`) carries: after one
/// leading `#`, the hash is `&`-separated `key=value` pairs.
pub open spec fn fragment_fit_values_of(hash: Seq<u8>) -> Seq<Seq<u8>> {
    let body = if hash.len() > 0 && hash[0] == hash_byte() {
        hash.drop_first()
    } else {
        hash
    };
    if body.len() == 0 {
        seq![]
    } else {
        pairs_fit_values(split_at_byte(body, amp_byte()))
    }
}

/// The decodings of those `values` that decode, in order.
pub open spec fn decoded_values(values: Seq<Seq<u8>>) -> Seq<Seq<u8>>
    decreases values.len(),
{
    if values.len() == 0 {
        seq![]
    } else {
        decoded_values(values.drop_last()) + match url_safe_no_pad_decode(values.last()) {
            Some(p) => seq![p],
            None => seq![],
        }
    }
}

/// The payloads a location hash carries: its decodable `fit` values,
/// decoded, in order.
pub open spec fn fragment_payloads_of(hash: Seq<u8>) -> Seq<Seq<u8>> {
    decoded_values(fragment_fit_values_of(hash))
}

proof fn lemma_first_at(s: Seq<u8>, x: u8, r: int)
    requires
        0 <= r <= s.len(),
        forall|q: int| 0 <= q < r ==> s[q] != x,
        r == s.len() || s[r] == x,
    ensures
        first_at(s, x) == r,
    decreases s.len(),
{
    if s.len() > 0 && r > 0 {
        assert forall|q: int| 0 <= q < r - 1 implies s.drop_first()[q] != x by {
            assert(s.drop_first()[q] == s[q + 1]);
        }
        lemma_first_at(s.drop_first(), x, r - 1);
    }
}

/// First index in `from..to` holding `b`, or `to`.
fn find_byte(bytes: &[u8], from: usize, to: usize, b: u8) -> (r: usize)
    requires
        from <= to <= bytes@.len(),
    ensures
        from <= r <= to,
        forall|q: int| from <= q < r ==> bytes@[q] != b,
        r == to || bytes@[r as int] == b,
{
    let mut r = from;
    while r < to && bytes[r] != b
        invariant
            from <= r <= to,
            to <= bytes@.len(),
            forall|q: int| from <= q < r ==> bytes@[q] != b,
        decreases to - r,
    {
        r += 1;
    }
    r
}

/// Copy of `bytes[from..to]`.
fn copy_range(bytes: &[u8], from: usize, to: usize) -> (out: Vec<u8>)
    requires
        from <= to <= bytes@.len(),
    ensures
        out@ == bytes@.subrange(from as int, to as int),
{
    let mut out: Vec<u8> = Vec::new();
    let mut i = from;
    while i < to
        invariant
            from <= i <= to,
            to <= bytes@.len(),
            out@ == bytes@.subrange(from as int, i as int),
        decreases to - i,
    {
        out.push(bytes[i]);
        proof {
            assert(out@ =~= bytes@.subrange(from as int, i + 1));
        }
        i += 1;
    }
    out
}

/// The `fit` value of the pair `bytes[from..to]`.
fn pair_fit_value_at(bytes: &[u8], from: usize, to: usize) -> (res: Option<Vec<u8>>)
    requires
        from <= to <= bytes@.len(),
    ensures
        match res {
            Some(v) => pair_fit_value(bytes@.subrange(from as int, to as int)) == Some(v@),
            None => pair_fit_value(bytes@.subrange(from as int, to as int)) is None,
        },
{
    let ghost pair = bytes@.subrange(from as int, to as int);
    let e = find_byte(bytes, from, to, 61u8);
    proof {
        assert forall|q: int| 0 <= q < e - from implies pair[q] != eq_byte() by {
            assert(pair[q] == bytes@[from + q]);
        }
        lemma_first_at(pair, eq_byte(), e - from);
    }
    if e == to {
        return None;
    }
    let is_fit = e - from == 3 && bytes[from] == 102u8 && bytes[from + 1] == 105u8 && bytes[from
        + 2] == 116u8;
    proof {
        let k = pair.take(e - from);
        if is_fit {
            assert(k =~= fit_key());
        } else if e - from == 3 {
            assert(k[0] == bytes@[from as int]);
            assert(k[1] == bytes@[from + 1]);
            assert(k[2] == bytes@[from + 2]);
            assert(k != fit_key());
        } else {
            assert(k.len() != fit_key().len());
        }
    }
    if !is_fit {
        return None;
    }
    let value = copy_range(bytes, e + 1, to);
    proof {
        assert(value@ =~= pair.skip(e - from + 1));
    }
    Some(value)
}

/// The values of the `fit` pairs of a location hash, in the order they
/// appear.
pub fn fragment_fit_values(hash: &str) -> (values: Vec<Vec<u8>>)
    ensures
        values.deep_view() == fragment_fit_values_of(hash.spec_bytes()),
{
    let bytes = hash.as_bytes();
    let len = bytes.len();
    let start: usize = if len > 0 && bytes[0] == 35u8 {
        1
    } else {
        0
    };
    let ghost body = bytes@.skip(start as int);
    proof {
        if len > 0 && bytes@[0] == hash_byte() {
            assert(body =~= bytes@.drop_first());
        } else {
            assert(body =~= bytes@);
        }
    }
    let mut out: Vec<Vec<u8>> = Vec::new();
    if start == len {
        proof {
            assert(out.deep_view() =~= Seq::<Seq<u8>>::empty());
        }
        return out;
    }
    let mut piece: usize = start;
    let mut finished = false;
    proof {
        assert(bytes@.skip(piece as int) =~= body);
        assert(out.deep_view() + pairs_fit_values(split_at_byte(bytes@.skip(piece as int), amp_byte()))
            =~= pairs_fit_values(split_at_byte(body, amp_byte())));
    }
    while !finished
        invariant
            bytes@ == hash.spec_bytes(),
            len == bytes@.len(),
            start <= piece <= len,
            body == bytes@.skip(start as int),
            body.len() > 0,
            finished ==> out.deep_view() == pairs_fit_values(split_at_byte(body, amp_byte())),
            !finished ==> out.deep_view() + pairs_fit_values(
                split_at_byte(bytes@.skip(piece as int), amp_byte()),
            ) == pairs_fit_values(split_at_byte(body, amp_byte())),
        decreases len - piece + if finished {
            0int
        } else {
            1int
        },
    {
        let ghost rest_ghost = bytes@.skip(piece as int);
        let amp = find_byte(bytes, piece, len, 38u8);
        proof {
            assert forall|q: int| 0 <= q < amp - piece implies rest_ghost[q] != amp_byte() by {
                assert(rest_ghost[q] == bytes@[piece + q]);
            }
            lemma_first_at(rest_ghost, amp_byte(), amp - piece);
            assert(rest_ghost.take(amp - piece) =~= bytes@.subrange(piece as int, amp as int));
        }
        let ghost before = out.deep_view();
        let got = pair_fit_value_at(bytes, piece, amp);
        let ghost head: Seq<Seq<u8>> = match pair_fit_value(bytes@.subrange(piece as int, amp as int)) {
            Some(p) => seq![p],
            None => seq![],
        };
        let ghost old_vec = out@;
        match got {
            Some(v) => {
                out.push(v);
                proof {
                    assert(out@ == old_vec.push(v));
                    assert forall|q: int| 0 <= q < out.deep_view().len() implies out.deep_view()[q]
                        == (before + head)[q] by {
                        if q < old_vec.len() {
                            assert(out@[q] == old_vec[q]);
                        }
                    }
                }
            },
            None => {},
        }
        proof {
            assert(out.deep_view() =~= before + head);
        }
        if amp == len {
            proof {
                assert(rest_ghost =~= bytes@.subrange(piece as int, amp as int));
                let sp = split_at_byte(rest_ghost, amp_byte());
                assert(sp == seq![rest_ghost]);
                assert(sp.drop_first() =~= Seq::<Seq<u8>>::empty());
                assert(pairs_fit_values(sp) =~= head + pairs_fit_values(sp.drop_first()));
                assert(before + (head + Seq::<Seq<u8>>::empty()) =~= out.deep_view());
            }
            finished = true;
        } else {
            proof {
                let sp = split_at_byte(rest_ghost, amp_byte());
                let next = bytes@.skip(amp + 1);
                assert(rest_ghost.skip(amp - piece + 1) =~= next);
                assert(sp == seq![rest_ghost.take(amp - piece)] + split_at_byte(next, amp_byte()));
                assert(sp.drop_first() =~= split_at_byte(next, amp_byte()));
                assert(pairs_fit_values(sp) == head + pairs_fit_values(sp.drop_first()));
                assert(before + (head + pairs_fit_values(split_at_byte(next, amp_byte())))
                    =~= out.deep_view() + pairs_fit_values(split_at_byte(next, amp_byte())));
            }
            piece = amp + 1;
        }
    }
    out
}

/// The decoded `fit` payloads a location hash carries, in the order they
/// appear; values that are not valid URL-safe unpadded base64 are skipped.
pub fn fragment_payloads(hash: &str) -> (payloads: Vec<Vec<u8>>)
    ensures
        payloads.deep_view() == fragment_payloads_of(hash.spec_bytes()),
{
    let values = fragment_fit_values(hash);
    let mut out: Vec<Vec<u8>> = Vec::new();
    let mut i: usize = 0;
    while i < values.len()
        invariant
            i <= values.len(),
            out.deep_view() == decoded_values(values.deep_view().take(i as int)),
        decreases values.len() - i,
    {
        let ghost before = out@;
        let ghost t = values.deep_view().take(i + 1);
        proof {
            assert(t.drop_last() =~= values.deep_view().take(i as int));
            assert(t.last() == values@[i as int]@);
        }
        match decode_url_safe_no_pad(values[i].as_slice()) {
            Some(p) => {
                out.push(p);
                proof {
                    assert(out@ == before.push(p));
                    assert(out.deep_view() =~= decoded_values(values.deep_view().take(i as int))
                        + seq![p@]) by {
                        assert forall|q: int| 0 <= q < before.len() implies out.deep_view()[q]
                            == before[q]@ by {
                            assert(out@[q] == before[q]);
                        }
                        assert(out.deep_view().len() == before.len() + 1);
                        assert(out.deep_view()[before.len() as int] == p@);
                    }
                }
            },
            None => {
                proof {
                    assert(out.deep_view() =~= decoded_values(values.deep_view().take(i as int))
                        + Seq::<Seq<u8>>::empty());
                }
            },
        }
        i += 1;
    }
    proof {
        assert(values.deep_view().take(values.len() as int) =~= values.deep_view());
    }
    out
}

/// Law: the value of a `fit=` pair is everything after its first `=`,
/// whatever its length and whatever it holds (further `=` included).
pub proof fn law_fit_pair_value(v: Seq<u8>)
    ensures
        pair_fit_value(fit_key() + seq![eq_byte()] + v) == Some(v),
{
    let pair = fit_key() + seq![eq_byte()] + v;
    lemma_first_at(pair, eq_byte(), 3);
    assert(pair.take(3) =~= fit_key());
    assert(pair.skip(4) =~= v);
}

/// Law: a pair whose key (the bytes before its first `=`) is not `fit`
/// carries no fit value.
pub proof fn law_other_pairs_carry_nothing(key: Seq<u8>, v: Seq<u8>)
    requires
        !key.contains(eq_byte()),
        key != fit_key(),
    ensures
        pair_fit_value(key + seq![eq_byte()] + v) is None,
{
    let pair = key + seq![eq_byte()] + v;
    assert forall|q: int| 0 <= q < key.len() implies pair[q] != eq_byte() by {
        assert(pair[q] == key[q]);
        if key[q] == eq_byte() {
            assert(key.contains(eq_byte()));
        }
    }
    lemma_first_at(pair, eq_byte(), key.len() as int);
    assert(pair.take(key.len() as int) =~= key);
}

/// Law: a hash `#fit=<v>` holding one pair carries the whole of `v` as its
/// one fit value, and its payloads are `v`'s decoding when `v` decodes,
/// none otherwise.
pub proof fn law_single_fit_fragment(v: Seq<u8>)
    requires
        !v.contains(amp_byte()),
    ensures
        fragment_fit_values_of(seq![hash_byte()] + fit_key() + seq![eq_byte()] + v) == seq![v],
        fragment_payloads_of(seq![hash_byte()] + fit_key() + seq![eq_byte()] + v) == match url_safe_no_pad_decode(v) {
            Some(p) => seq![p],
            None => Seq::<Seq<u8>>::empty(),
        },
{
    let hash = seq![hash_byte()] + fit_key() + seq![eq_byte()] + v;
    let body = hash.drop_first();
    let pair = fit_key() + seq![eq_byte()] + v;
    assert(body =~= pair);
    assert forall|q: int| 0 <= q < pair.len() implies pair[q] != amp_byte() by {
        if q >= 4 {
            assert(pair[q] == v[q - 4]);
            if v[q - 4] == amp_byte() {
                assert(v.contains(amp_byte()));
            }
        }
    }
    lemma_first_at(pair, amp_byte(), pair.len() as int);
    let sp = split_at_byte(pair, amp_byte());
    assert(sp == seq![pair]);
    law_fit_pair_value(v);
    assert(sp.drop_first() =~= Seq::<Seq<u8>>::empty());
    assert(pairs_fit_values(sp.drop_first()) =~= Seq::<Seq<u8>>::empty());
    assert(sp[0] == pair);
    assert(pairs_fit_values(sp) =~= seq![v] + Seq::<Seq<u8>>::empty());
    let vals = seq![v];
    assert(vals.drop_last() =~= Seq::<Seq<u8>>::empty());
    assert(decoded_values(vals.drop_last()) =~= Seq::<Seq<u8>>::empty());
    assert(vals.last() == v);
}

} // verus!
