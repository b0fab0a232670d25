//! Discriminant assignment and extraction.
//!
//! Variants of an enum are tagged. A variant may declare its tag explicitly;
//! an undeclared tag is one more than its predecessor's (the first defaults
//! to zero). The extractor renders a tag as a byte sequence of the enum's
//! exact native tag width, normalized to big-endian order so that builds on
//! targets of different byte orders produce identical encodings. Only the
//! widths 0, 1, 2, 4, 8 and 16 bytes are supported.

use vstd::prelude::*;
use vstd::arithmetic::power::{pow, lemma_pow_positive};
use vstd::arithmetic::div_mod::{lemma_fundamental_div_mod, lemma_mod_bound, lemma_div_pos_is_pos};
use crate::error::ConfigError;

verus! {

/// The tag value of variant `i`, as mathematical recurrence over the declared
/// (optional) discriminants: a declared value stands as is, an undeclared one
/// is its predecessor's value plus one, and the first defaults to zero.
pub open spec fn assigned_tag(declared: Seq<Option<u128>>, i: int) -> int
    recommends
        0 <= i < declared.len(),
    decreases i,
{
    match declared[i] {
        Some(v) => v as int,
        None => if i <= 0 {
            0
        } else {
            assigned_tag(declared, i - 1) + 1
        },
    }
}

/// The big-endian rendering of `v` in exactly `w` bytes; the byte at the end
/// of the sequence is the least significant.
pub open spec fn be_bytes(v: int, w: nat) -> Seq<u8>
    decreases w,
{
    if w == 0 {
        Seq::empty()
    } else {
        be_bytes(v / 256, (w - 1) as nat).push((v % 256) as u8)
    }
}

/// The value a big-endian byte sequence stands for.
pub open spec fn be_value(b: Seq<u8>) -> int
    decreases b.len(),
{
    if b.len() == 0 {
        0
    } else {
        be_value(b.drop_last()) * 256 + b.last()
    }
}

/// A big-endian rendering is exactly as wide as asked for.
pub proof fn lemma_be_bytes_len(v: int, w: nat)
    ensures
        be_bytes(v, w).len() == w,
    decreases w,
{
    if w > 0 {
        lemma_be_bytes_len(v / 256, (w - 1) as nat);
    }
}

/// Round trip: decoding the big-endian rendering of a tag that fits its
/// width yields the tag again.
pub proof fn lemma_be_round_trip(v: int, w: nat)
    requires
        0 <= v < pow(256, w),
    ensures
        be_value(be_bytes(v, w)) == v,
    decreases w,
{
    if w == 0 {
        assert(pow(256, 0) == 1) by {
            reveal(pow);
        }
    } else {
        let q = v / 256;
        let r = v % 256;
        lemma_fundamental_div_mod(v, 256);
        lemma_mod_bound(v, 256);
        lemma_div_pos_is_pos(v, 256);
        assert(pow(256, w) == 256 * pow(256, (w - 1) as nat)) by {
            reveal(pow);
        }
        assert(q < pow(256, (w - 1) as nat)) by {
            lemma_pow_positive(256, (w - 1) as nat);
            assert(v == 256 * q + r);
        }
        lemma_be_round_trip(q, (w - 1) as nat);
        let head = be_bytes(q, (w - 1) as nat);
        assert(be_bytes(v, w) == head.push(r as u8));
        assert(head.push(r as u8).drop_last() =~= head);
        assert(head.push(r as u8).last() == r as u8);
    }
}

/// Distinct tags of one width render to distinct byte sequences.
pub proof fn lemma_be_bytes_distinct(v1: int, v2: int, w: nat)
    requires
        0 <= v1 < pow(256, w),
        0 <= v2 < pow(256, w),
        v1 != v2,
    ensures
        be_bytes(v1, w) != be_bytes(v2, w),
{
    lemma_be_round_trip(v1, w);
    lemma_be_round_trip(v2, w);
}

/// Whether `w` is a tag width the platform assumption admits.
pub open spec fn spec_supported_tag_width(w: usize) -> bool {
    w == 0 || w == 1 || w == 2 || w == 4 || w == 8 || w == 16
}

/// Whether `w` is a tag width the platform assumption admits.
#[verifier::when_used_as_spec(spec_supported_tag_width)]
pub fn supported_tag_width(w: usize) -> (r: bool)
    ensures
        r == spec_supported_tag_width(w),
{
    w == 0 || w == 1 || w == 2 || w == 4 || w == 8 || w == 16
}

/// Whether tag value `v` is representable in `w` bytes.
pub open spec fn spec_tag_fits(v: u128, w: usize) -> bool {
    v < pow(256, w as nat)
}

/// Whether tag value `v` is representable in `w` bytes, for a supported width.
#[verifier::when_used_as_spec(spec_tag_fits)]
pub fn tag_fits(v: u128, w: usize) -> (r: bool)
    requires
        spec_supported_tag_width(w),
    ensures
        r == spec_tag_fits(v, w),
{
    proof {
        lemma_pow_units(w as nat);
    }
    if w == 0 {
        v == 0
    } else if w == 1 {
        v < 256
    } else if w == 2 {
        v < 65536
    } else if w == 4 {
        v < 4294967296
    } else if w == 8 {
        v < 18446744073709551616
    } else {
        true
    }
}

/// The value of `pow(256, w)` at each supported tag width.
proof fn lemma_pow_units(w: nat)
    ensures
        pow(256, 0) == 1,
        pow(256, 1) == 256,
        pow(256, 2) == 65536,
        pow(256, 4) == 4294967296,
        pow(256, 8) == 18446744073709551616,
        w == 16 ==> pow(256, w) > u128::MAX,
{
    reveal_with_fuel(pow, 17);
}

/// Appends the big-endian rendering of `v` in `w` bytes to `out`.
fn push_be_bytes(out: &mut Vec<u8>, v: u128, w: usize)
    ensures
        final(out)@ == old(out)@ + be_bytes(v as int, w as nat),
    decreases w,
{
    if w == 0 {
        assert(out@ =~= out@ + be_bytes(v as int, 0));
    } else {
        let rest = v / 256;
        let low = (v % 256) as u8;
        push_be_bytes(out, rest, w - 1);
        out.push(low);
        assert(out@ =~= old(out)@ + be_bytes(v as int, w as nat));
    }
}

/// Renders tag `v` at width `w` as a normalized big-endian byte sequence.
///
/// The tag must fit the width; the configuration layer rejects an enum whose
/// assigned tags do not, so reaching this point with an overflowing tag would
/// be a defect of that layer, not a recoverable state.
pub fn discriminant_bytes(v: u128, w: usize) -> (r: Vec<u8>)
    requires
        spec_supported_tag_width(w),
        spec_tag_fits(v, w),
    ensures
        r@ == be_bytes(v as int, w as nat),
        r@.len() == w,
{
    let mut out: Vec<u8> = Vec::new();
    push_be_bytes(&mut out, v, w);
    proof {
        lemma_be_bytes_len(v as int, w as nat);
        assert(out@ =~= be_bytes(v as int, w as nat));
    }
    out
}

/// Assigns every variant its tag value, by declaration order.
///
/// Returns the tags exactly when every implicitly assigned tag stays
/// representable; the first run past `u128::MAX` is reported as
/// `DiscriminantOverflow`, as is a tag that does not fit width `w`.
pub fn assign_discriminants(declared: &Vec<Option<u128>>, w: usize) -> (r: Result<
    Vec<u128>,
    ConfigError,
>)
    requires
        spec_supported_tag_width(w),
    ensures
        match r {
            Ok(tags) => {
                &&& tags@.len() == declared@.len()
                &&& forall|i: int|
                    0 <= i < tags@.len() ==> tags@[i] == assigned_tag(declared@, i)
                &&& forall|i: int|
                    0 <= i < tags@.len() ==> spec_tag_fits(#[trigger] tags@[i], w)
            },
            Err(e) => {
                &&& e == ConfigError::DiscriminantOverflow
                &&& exists|i: int|
                    0 <= i < declared@.len() && !(0 <= #[trigger] assigned_tag(declared@, i)
                        <= u128::MAX && spec_tag_fits(assigned_tag(declared@, i) as u128, w))
            },
        },
{
    let mut tags: Vec<u128> = Vec::new();
    let mut i: usize = 0;
    while i < declared.len()
        invariant
            spec_supported_tag_width(w),
            i == tags@.len(),
            i <= declared@.len(),
            forall|j: int| 0 <= j < i ==> tags@[j] == assigned_tag(declared@, j),
            forall|j: int| 0 <= j < i ==> spec_tag_fits(#[trigger] tags@[j], w),
        decreases declared@.len() - i,
    {
        let tag: u128 = match declared[i] {
            Some(v) => v,
            None => {
                if i == 0 {
                    0
                } else {
                    let prev = tags[i - 1];
                    if prev == u128::MAX {
                        assert(assigned_tag(declared@, i as int) == prev + 1);
                        return Err(ConfigError::DiscriminantOverflow);
                    }
                    prev + 1
                }
            },
        };
        assert(tag == assigned_tag(declared@, i as int));
        if !tag_fits(tag, w) {
            return Err(ConfigError::DiscriminantOverflow);
        }
        tags.push(tag);
        i = i + 1;
    }
    Ok(tags)
}

} // verus!
