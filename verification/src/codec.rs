//! JSON forms of plain values, by way of `serde_json`.

use crate::text;
use vstd::prelude::*;

verus! {

/// What `serde_json::to_vec` makes of a list of id pairs.
pub uninterp spec fn pairs_json(pairs: Seq<([u8; 16], [u8; 16])>) -> Seq<u8>;

/// What `serde_json::from_slice` reads as a list of id pairs.
pub uninterp spec fn pairs_of_json(bytes: Seq<u8>) -> Option<Seq<([u8; 16], [u8; 16])>>;

/// `serde_json::to_vec` on a list of id pairs: it always has a JSON form, which the list settles.
#[verifier::external_body]
pub(crate) fn pairs_to_json(pairs: &Vec<([u8; 16], [u8; 16])>) -> (r: Option<Vec<u8>>)
    ensures
        r is Some,
        r->0@ == pairs_json(pairs@),
{
    serde_json::to_vec(pairs).ok()
}

/// `serde_json::from_slice` on a list of id pairs: what it reads is settled by the bytes, and the
/// JSON form of a list reads as that list.
#[verifier::external_body]
pub(crate) fn pairs_from_json(bytes: &Vec<u8>) -> (r: Option<Vec<([u8; 16], [u8; 16])>>)
    ensures
        r is None <==> pairs_of_json(bytes@) is None,
        r is Some ==> pairs_of_json(bytes@) == Some(r->0@),
        forall|p: Seq<([u8; 16], [u8; 16])>|
            bytes@ == #[trigger] pairs_json(p) ==> r is Some && r->0@ == p,
{
    serde_json::from_slice::<Vec<([u8; 16], [u8; 16])>>(bytes).ok()
}

/// What `serde_json::from_slice` reads as a list of texts.
pub uninterp spec fn names_of_json(bytes: Seq<u8>) -> Option<Seq<Seq<char>>>;

/// `serde_json::from_slice` on a list of texts: what it reads is settled by the bytes.
#[verifier::external_body]
pub(crate) fn names_from_json(bytes: &Vec<u8>) -> (r: Option<Vec<String>>)
    ensures
        r is None <==> names_of_json(bytes@) is None,
        r is Some ==> names_of_json(bytes@) == Some(text::texts(r->0@)),
{
    serde_json::from_slice::<Vec<String>>(bytes).ok()
}

} // verus!
