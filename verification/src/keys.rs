//! The layout of store keys: a tag, then ids in hexadecimal and numbers in decimal.

use crate::hex;
use crate::hex::{array16, hex16};
use crate::ids;
use crate::ids::{BranchId, IdentityId, NodeRevisionId, bytes16};
use crate::kv;
use crate::kv::MemoryKv;
use crate::text;
use crate::text::{append_text, chars_occur_at, chars_of, cut, owned, text_of};
use vstd::prelude::*;

verus! {

/// A tag followed by one id.
pub open spec fn tagged(tag: Seq<char>, id: Seq<u8>) -> Seq<char> {
    tag + hex::hex_of(id)
}

/// A tag, an id, a colon and further text.
pub open spec fn tagged_rest(tag: Seq<char>, id: Seq<u8>, rest: Seq<char>) -> Seq<char> {
    tag + hex::hex_of(id) + seq![':'] + rest
}

/// The text that `key` holds behind `prefix`.
pub open spec fn rest_of(key: Seq<char>, prefix: Seq<char>) -> Seq<char> {
    key.skip(prefix.len() as int)
}

/// Builds a tag followed by one id.
pub fn tagged_key(tag: &str, id: &[u8; 16]) -> (r: String)
    ensures
        r@ == tagged(tag@, id@),
{
    let mut out = owned(tag);
    append_text(&mut out, hex16(id).as_str());
    out
}

/// Builds a tag, an id, a colon and further text.
pub fn tagged_rest_key(tag: &str, id: &[u8; 16], rest: &str) -> (r: String)
    ensures
        r@ == tagged_rest(tag@, id@, rest@),
{
    let mut out = tagged_key(tag, id);
    out.push(':');
    append_text(&mut out, rest);
    assert(out@ =~= tagged_rest(tag@, id@, rest@));
    out
}

/// The text behind `prefix`.
pub fn strip_prefix(key: &str, prefix: &str) -> (r: Option<String>)
    ensures
        match r {
            Some(t) => text::begins_with(key@, prefix@) && t@ == rest_of(key@, prefix@),
            None => !text::begins_with(key@, prefix@),
        },
{
    let cs = chars_of(key);
    let ps = chars_of(prefix);
    if chars_occur_at(&cs, &ps, 0) {
        let t = cut(&cs, ps.len(), cs.len());
        assert(t@ =~= rest_of(key@, prefix@));
        Some(text_of(&t))
    } else {
        None
    }
}

/// Texts that begin with prefixes which differ somewhere are different.
pub proof fn lemma_prefixes_differ(
    a: Seq<char>,
    p: Seq<char>,
    b: Seq<char>,
    q: Seq<char>,
    i: int,
)
    requires
        text::begins_with(a, p),
        text::begins_with(b, q),
        0 <= i < p.len(),
        i < q.len(),
        p[i] != q[i],
    ensures
        a != b,
{
    assert(a.subrange(0, p.len() as int)[i] == a[i]);
    assert(b.subrange(0, q.len() as int)[i] == b[i]);
}

/// What stands in front of a text is a prefix of the whole.
pub proof fn lemma_begins(p: Seq<char>, rest: Seq<char>)
    ensures
        text::begins_with(p + rest, p),
        rest_of(p + rest, p) == rest,
{
    assert((p + rest).subrange(0, p.len() as int) =~= p);
    assert((p + rest).skip(p.len() as int) =~= rest);
}

/// A key is its prefix followed by the rest.
pub proof fn lemma_prefix_and_rest(key: Seq<char>, p: Seq<char>)
    requires
        text::begins_with(key, p),
    ensures
        key == p + rest_of(key, p),
{
    assert(key =~= key.subrange(0, p.len() as int) + key.skip(p.len() as int));
}

/// One tag and two ids give two keys, unless the ids are one.
pub proof fn lemma_tagged_injective(tag: Seq<char>, a: [u8; 16], b: [u8; 16])
    ensures
        tagged(tag, a@) == tagged(tag, b@) <==> a == b,
        text::begins_with(tagged(tag, a@), tag),
        rest_of(tagged(tag, a@), tag) == hex::hex_of(a@),
{
    lemma_begins(tag, hex::hex_of(a@));
    lemma_begins(tag, hex::hex_of(b@));
    if tagged(tag, a@) == tagged(tag, b@) {
        ids::lemma_hex16_injective(a, b);
    }
}

/// A key with a rest settles its id and its rest.
pub proof fn lemma_tagged_rest_injective(
    tag: Seq<char>,
    a: [u8; 16],
    r: Seq<char>,
    b: [u8; 16],
    s: Seq<char>,
)
    ensures
        tagged_rest(tag, a@, r) == tagged_rest(tag, b@, s) <==> a == b && r == s,
        text::begins_with(tagged_rest(tag, a@, r), tag),
        text::begins_with(tagged_rest(tag, a@, r), tagged_rest(tag, a@, Seq::<char>::empty())),
        rest_of(tagged_rest(tag, a@, r), tagged_rest(tag, a@, Seq::<char>::empty())) == r,
{
    let x = tagged_rest(tag, a@, r);
    let y = tagged_rest(tag, b@, s);
    let n = tag.len() as int;
    assert(hex::hex_of(a@).len() == 32 && hex::hex_of(b@).len() == 32);
    assert(x.subrange(n, n + 32) =~= hex::hex_of(a@));
    assert(y.subrange(n, n + 32) =~= hex::hex_of(b@));
    assert(x.skip(n + 33) =~= r);
    assert(y.skip(n + 33) =~= s);
    assert(x.subrange(0, n) =~= tag);
    let p = tagged_rest(tag, a@, Seq::<char>::empty());
    assert(x =~= p + r);
    lemma_begins(p, r);
    if x == y {
        ids::lemma_hex16_injective(a, b);
    }
}

/// A key that begins with one id and a colon does not begin with another id and a colon.
pub proof fn lemma_tagged_prefix_differs(tag: Seq<char>, a: [u8; 16], b: [u8; 16], key: Seq<char>)
    requires
        text::begins_with(key, tagged_rest(tag, a@, Seq::<char>::empty())),
        text::begins_with(key, tagged_rest(tag, b@, Seq::<char>::empty())),
    ensures
        a == b,
{
    let p = tagged_rest(tag, a@, Seq::<char>::empty());
    let q = tagged_rest(tag, b@, Seq::<char>::empty());
    assert(hex::hex_of(a@).len() == 32 && hex::hex_of(b@).len() == 32);
    assert(p.len() == q.len());
    assert(p == q);
    lemma_tagged_rest_injective(tag, a, Seq::<char>::empty(), b, Seq::<char>::empty());
}

/// `ri:{branch}:{identity}`, under which a branch binds an identity to a revision.
pub open spec fn binding_key(branch: BranchId, identity: IdentityId) -> Seq<char> {
    tagged_rest("ri:"@, branch.0@, hex::hex_of(identity.0@))
}

/// `ri:{branch}:`, which the binding keys of a branch begin with.
pub open spec fn binding_prefix(branch: BranchId) -> Seq<char> {
    tagged_rest("ri:"@, branch.0@, Seq::<char>::empty())
}

/// Builds `ri:{branch}:`.
pub fn binding_prefix_text(branch: BranchId) -> (r: String)
    ensures
        r@ == binding_prefix(branch),
{
    proof {
        reveal_strlit("");
        assert(""@ =~= Seq::<char>::empty());
    }
    tagged_rest_key("ri:", &branch.0, "")
}

/// Builds `ri:{branch}:{identity}`.
pub fn revision_binding_kv_key(branch_id: BranchId, identity_id: IdentityId) -> (r: String)
    ensures
        r@ == binding_key(branch_id, identity_id),
{
    tagged_rest_key("ri:", &branch_id.0, hex16(&identity_id.0).as_str())
}

/// Binding keys of different branches or identities are different.
pub proof fn lemma_binding_key_injective(
    b: BranchId,
    i: IdentityId,
    c: BranchId,
    j: IdentityId,
)
    ensures
        binding_key(b, i) == binding_key(c, j) <==> b == c && i == j,
        text::begins_with(binding_key(b, i), binding_prefix(b)),
        rest_of(binding_key(b, i), binding_prefix(b)) == hex::hex_of(i.0@),
{
    lemma_tagged_rest_injective("ri:"@, b.0, hex::hex_of(i.0@), c.0, hex::hex_of(j.0@));
    if binding_key(b, i) == binding_key(c, j) {
        ids::lemma_hex16_injective(i.0, j.0);
    }
}

/// A sixteen-byte value as a revision id.
pub open spec fn revision_of(v: Seq<u8>) -> Option<NodeRevisionId> {
    if v.len() == 16 {
        Some(NodeRevisionId(ids::array_of(v)))
    } else {
        None
    }
}

/// The revision that a branch's own binding of an identity names.
pub open spec fn bound(
    m: Map<Seq<char>, Seq<u8>>,
    branch: BranchId,
    identity: IdentityId,
) -> Option<NodeRevisionId> {
    match kv::value_at(m, binding_key(branch, identity)) {
        Some(v) => revision_of(v),
        None => None,
    }
}

/// Reads a sixteen-byte value as a revision id.
pub fn revision_from_bytes(v: &Vec<u8>) -> (r: Option<NodeRevisionId>)
    ensures
        r == revision_of(v@),
{
    if v.len() != 16 {
        return None;
    }
    let a = array16(v);
    proof {
        ids::lemma_array_of(a);
    }
    Some(NodeRevisionId(a))
}

/// Reads what `branch` binds `identity` to.
pub fn read_binding(kv: &MemoryKv, branch: BranchId, identity: IdentityId) -> (r: Option<
    NodeRevisionId,
>)
    ensures
        r == bound(kv@, branch, identity),
{
    match kv.get(revision_binding_kv_key(branch, identity).as_str()) {
        Some(v) => revision_from_bytes(&v),
        None => None,
    }
}

/// Binds `identity` to `revision` on `branch`.
pub fn write_binding(
    kv: &mut MemoryKv,
    branch: BranchId,
    identity: IdentityId,
    revision: NodeRevisionId,
)
    ensures
        final(kv)@ == old(kv)@.insert(binding_key(branch, identity), revision.0@),
        bound(final(kv)@, branch, identity) == Some(revision),
{
    kv.set(revision_binding_kv_key(branch, identity).as_str(), bytes16(&revision.0));
    proof {
        ids::lemma_array_of(revision.0);
    }
}

} // verus!
