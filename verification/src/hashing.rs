//! Digests by the standard library's hasher.

use std::collections::hash_map::DefaultHasher;
use std::hash::{Hash, Hasher};
use crate::bytes;
use crate::bytes::u64_le;
use crate::hex;
use crate::hex::hex_text;
use vstd::prelude::*;
use vstd::std_specs::hash::DefaultHasherAdditionalSpecFns;

verus! {

/// What `str::hash` hands to a hasher.
pub uninterp spec fn text_writes(s: Seq<char>) -> Seq<Seq<u8>>;

/// `str::hash`: what it hands to the hasher is settled by the text.
#[verifier::external_body]
pub(crate) fn hash_text(h: &mut DefaultHasher, s: &str)
    ensures
        final(h)@ == old(h)@ + text_writes(s@),
{
    s.hash(h)
}

/// What `u64::hash` hands to a hasher.
pub uninterp spec fn number_writes(n: u64) -> Seq<Seq<u8>>;

/// `u64::hash`: what it hands to the hasher is settled by the number. In which order a machine keeps
/// the bytes of a number is left unsaid.
#[verifier::external_body]
pub(crate) fn hash_number(h: &mut DefaultHasher, n: u64)
    ensures
        final(h)@ == old(h)@ + number_writes(n),
{
    n.hash(h)
}

/// What the `hash` of an array of 32 bytes hands to a hasher.
pub uninterp spec fn array32_writes(a: [u8; 32]) -> Seq<Seq<u8>>;

/// `<[u8; 32]>::hash`: what it hands to the hasher is settled by the array. How a machine writes the
/// length in front of the bytes is left unsaid.
#[verifier::external_body]
pub(crate) fn hash_array32(h: &mut DefaultHasher, a: &[u8; 32])
    ensures
        final(h)@ == old(h)@ + array32_writes(*a),
{
    a.hash(h)
}

/// The digest of what was handed to a hasher.
pub open spec fn digest_of(writes: Seq<Seq<u8>>) -> u64 {
    DefaultHasher::spec_finish(writes)
}

/// A hasher that was handed nothing.
pub fn new_hasher() -> (h: DefaultHasher)
    ensures
        h@ == Seq::<Seq<u8>>::empty(),
{
    DefaultHasher::new()
}

/// Sixteen hexadecimal digits of a number, most significant first.
pub open spec fn number_hex(x: u64) -> Seq<char> {
    hex::hex_of(bytes::le(x as nat, 8).reverse())
}

/// Renders a number in sixteen hexadecimal digits.
pub fn number_hex_text(x: u64) -> (r: String)
    ensures
        r@ == number_hex(x),
{
    let v = u64_le(x);
    let mut back: Vec<u8> = Vec::new();
    let mut i: usize = v.len();
    while i > 0
        invariant
            i <= v.len(),
            back@ =~= v@.reverse().take(v.len() - i),
        decreases i,
    {
        back.push(v[i - 1]);
        assert(back@ =~= v@.reverse().take(v.len() - i + 1));
        i = i - 1;
    }
    assert(back@ =~= v@.reverse());
    hex_text(back.as_slice())
}

/// Finishes a digest and renders it.
pub fn finish_text(h: &DefaultHasher) -> (r: String)
    ensures
        r@ == number_hex(digest_of(h@)),
{
    number_hex_text(h.finish())
}

} // verus!
