//! Where the text of a symbol is taken from.

use crate::graph;
use crate::graph::{InMemoryGraph, NodeRevision, RevisionStatus, RevisionView};
use crate::ids::BranchId;
use crate::query_context;
use crate::query_context::{Tokenizer, build_context_truncated};
use crate::spans;
use crate::text::{append_text, copy_bytes, owned, same_text};
use vstd::prelude::*;

verus! {

/// Where a text came from.
#[derive(Debug, Clone, Copy, PartialEq, Eq, Structural)]
pub enum BodySource {
    BodyStore,
    CisBlob,
    Disk,
    Stub,
}

/// `String::from_utf8`: bytes are a text exactly where they are valid UTF-8, and then it is the text
/// that they encode.
#[verifier::external_body]
pub(crate) fn text_from_bytes(bytes: Vec<u8>) -> (r: Option<String>)
    ensures
        r is Some <==> vstd::utf8::valid_utf8(bytes@),
        r is Some ==> r->0@ == vstd::utf8::decode_utf8(bytes@),
{
    String::from_utf8(bytes).ok()
}

/// The text that bytes hold, where they hold one that is not empty.
pub open spec fn text_in(bytes: Option<Seq<u8>>) -> Option<Seq<char>> {
    match bytes {
        Some(b) => if vstd::utf8::valid_utf8(b) && vstd::utf8::decode_utf8(b).len() > 0 {
            Some(vstd::utf8::decode_utf8(b))
        } else {
            None
        },
        None => None,
    }
}

/// A text that is not empty.
pub open spec fn some_words(s: Option<Seq<char>>) -> Option<Seq<char>> {
    match s {
        Some(t) => if t.len() > 0 {
            Some(t)
        } else {
            None
        },
        None => None,
    }
}

/// What stands for a text that is nowhere to be found.
pub open spec fn stub_text(qualified_name: Seq<char>, file_path: Seq<char>) -> Seq<char> {
    qualified_name + "\n"@ + file_path + "\n// (body not available)\n"@
}

/// The text of a symbol and where it came from: its own bytes in memory or among the saved ones, else
/// what its file holds in its place.
pub open spec fn body_of(
    stored: Option<Seq<u8>>,
    blob: Option<Seq<u8>>,
    cached: Option<Seq<char>>,
    on_disk: Option<Seq<char>>,
    rev: RevisionView,
) -> (Seq<char>, BodySource) {
    if text_in(stored) is Some {
        (text_in(stored)->0, BodySource::BodyStore)
    } else if text_in(blob) is Some {
        (text_in(blob)->0, BodySource::CisBlob)
    } else if some_words(cached) is Some {
        (some_words(cached)->0, BodySource::Disk)
    } else if some_words(on_disk) is Some {
        (some_words(on_disk)->0, BodySource::Disk)
    } else {
        (stub_text(rev.qualified_name, rev.file_path), BodySource::Stub)
    }
}

/// Reads the text that bytes hold.
fn read_text(bytes: Option<Vec<u8>>) -> (r: Option<String>)
    ensures
        optional_text(r) == text_in(optional_bytes(bytes)),
{
    match bytes {
        Some(b) => match text_from_bytes(b) {
            Some(s) => if s.as_str().is_empty() {
                None
            } else {
                Some(s)
            },
            None => None,
        },
        None => None,
    }
}

/// The bytes that may be there.
pub open spec fn optional_bytes(b: Option<Vec<u8>>) -> Option<Seq<u8>> {
    match b {
        Some(v) => Some(v@),
        None => None,
    }
}

/// The text that may be there.
pub open spec fn optional_text(s: Option<String>) -> Option<Seq<char>> {
    match s {
        Some(t) => Some(t@),
        None => None,
    }
}

/// Finds the text of a symbol. `stored` are its bytes in memory, `blob` those that were saved,
/// `cached` and `on_disk` what its file holds in its place.
pub fn resolve_revision_body(
    stored: Option<Vec<u8>>,
    blob: Option<Vec<u8>>,
    cached: Option<String>,
    on_disk: Option<String>,
    rev: &NodeRevision,
) -> (r: (String, BodySource))
    ensures
        (r.0@, r.1) == body_of(
            optional_bytes(stored),
            optional_bytes(blob),
            optional_text(cached),
            optional_text(on_disk),
            rev@,
        ),
{
    if let Some(s) = read_text(stored) {
        return (s, BodySource::BodyStore);
    }
    if let Some(s) = read_text(blob) {
        return (s, BodySource::CisBlob);
    }
    if let Some(s) = cached {
        if !s.as_str().is_empty() {
            return (s, BodySource::Disk);
        }
    }
    if let Some(s) = on_disk {
        if !s.as_str().is_empty() {
            return (s, BodySource::Disk);
        }
    }
    let mut out = owned(rev.qualified_name.as_str());
    append_text(&mut out, "\n");
    append_text(&mut out, rev.file_path.as_str());
    append_text(&mut out, "\n// (body not available)\n");
    (out, BodySource::Stub)
}

/// The bytes of a symbol that are to be kept in memory from now on: the saved ones, where its text came
/// from them.
pub open spec fn kept_bytes(stored: Option<Seq<u8>>, blob: Option<Seq<u8>>) -> Option<Seq<u8>> {
    if text_in(stored) is None && text_in(blob) is Some {
        blob
    } else {
        None
    }
}

/// Tells which bytes are to be kept in memory, under the hash of the symbol's body, once its text is
/// found.
pub fn bytes_to_keep(stored: &Option<Vec<u8>>, blob: &Option<Vec<u8>>) -> (r: Option<Vec<u8>>)
    ensures
        optional_bytes(r) == kept_bytes(optional_bytes(*stored), optional_bytes(*blob)),
{
    if read_text(copy_if_there(stored)).is_some() || read_text(copy_if_there(blob)).is_none() {
        return None;
    }
    copy_if_there(blob)
}

/// A copy of the bytes that may be there.
fn copy_if_there(b: &Option<Vec<u8>>) -> (r: Option<Vec<u8>>)
    ensures
        optional_bytes(r) == optional_bytes(*b),
{
    match b {
        Some(v) => Some(copy_bytes(v)),
        None => None,
    }
}

/// Bytes are kept exactly where the text came from the saved ones, and with them in memory the same
/// text is found there.
pub proof fn law_kept_bytes_are_found(
    stored: Option<Seq<u8>>,
    blob: Option<Seq<u8>>,
    cached: Option<Seq<char>>,
    on_disk: Option<Seq<char>>,
    rev: RevisionView,
)
    ensures
        kept_bytes(stored, blob) is Some <==> body_of(stored, blob, cached, on_disk, rev).1
            == BodySource::CisBlob,
        kept_bytes(stored, blob) is Some ==> body_of(
            kept_bytes(stored, blob),
            blob,
            cached,
            on_disk,
            rev,
        ) == (body_of(stored, blob, cached, on_disk, rev).0, BodySource::BodyStore),
{
}

/// Finds the text of a symbol where the saved bytes were read from a store opened for this one
/// question.
pub fn resolve_revision_body_legacy(
    stored: Option<Vec<u8>>,
    blob: Option<Vec<u8>>,
    cached: Option<String>,
    on_disk: Option<String>,
    rev: &NodeRevision,
) -> (r: (String, BodySource))
    ensures
        (r.0@, r.1) == body_of(
            optional_bytes(stored),
            optional_bytes(blob),
            optional_text(cached),
            optional_text(on_disk),
            rev@,
        ),
{
    resolve_revision_body(stored, blob, cached, on_disk, rev)
}

/// Whether a symbol is a file of its own, so that its text is the whole file.
pub fn is_whole_file(rev: &NodeRevision) -> (r: bool)
    ensures
        r == (rev@.qualified_name == rev@.file_path),
{
    same_text(rev.qualified_name.as_str(), rev.file_path.as_str())
}

/// Cuts the text of a symbol to a budget of at least one token.
pub fn get_symbol_body<T: Tokenizer>(raw: &str, budget_tokens: usize, tok: &T) -> (r: (
    String,
    bool,
    usize,
))
    requires
        spans::byte_len(raw@) + 3 <= usize::MAX,
        query_context::can_be_cut(*tok, raw@, at_least_one(budget_tokens)),
    ensures
        (r.0@, r.1, r.2 as nat) == query_context::cut_to_budget(*tok, raw@, at_least_one(budget_tokens)),
{
    let budget: usize = if budget_tokens > 1 {
        budget_tokens
    } else {
        1
    };
    build_context_truncated(raw, budget, tok)
}

/// A budget of at least one token.
pub open spec fn at_least_one(budget_tokens: usize) -> nat {
    if budget_tokens > 1 {
        budget_tokens as nat
    } else {
        1
    }
}

/// A text is always found, and never an empty one.
pub proof fn law_body_is_never_empty(
    stored: Option<Seq<u8>>,
    blob: Option<Seq<u8>>,
    cached: Option<Seq<char>>,
    on_disk: Option<Seq<char>>,
    rev: RevisionView,
)
    ensures
        body_of(stored, blob, cached, on_disk, rev).0.len() > 0,
        text_in(stored) is Some ==> body_of(stored, blob, cached, on_disk, rev)
            == (text_in(stored)->0, BodySource::BodyStore),
{
    reveal_strlit("\n");
}

/// A body that a removed revision still needs; a whole file is also kept under its path.
#[derive(Debug)]
pub struct KeptBody {
    pub body_hash: [u8; 32],
    pub whole_file: Option<String>,
}

/// What a kept body stands for.
pub open spec fn kept_body(b: KeptBody) -> ([u8; 32], Option<Seq<char>>) {
    (
        b.body_hash,
        match b.whole_file {
            Some(p) => Some(p@),
            None => None,
        },
    )
}

/// What kept bodies stand for.
pub open spec fn kept_views(s: Seq<KeptBody>) -> Seq<([u8; 32], Option<Seq<char>>)> {
    Seq::new(s.len(), |i: int| kept_body(s[i]))
}

/// The bodies that the removed revisions of a branch still need, in order.
pub open spec fn bodies_of_removed(revs: Seq<RevisionView>, branch: BranchId) -> Seq<
    ([u8; 32], Option<Seq<char>>),
>
    decreases revs.len(),
{
    if revs.len() == 0 {
        Seq::empty()
    } else {
        let front = bodies_of_removed(revs.drop_last(), branch);
        let r = revs.last();
        if r.branch_id == branch && r.status == RevisionStatus::Tombstone {
            front.push(
                (
                    r.body_hash,
                    if r.qualified_name == r.file_path {
                        Some(r.file_path)
                    } else {
                        None
                    },
                ),
            )
        } else {
            front
        }
    }
}

/// Lists the bodies that the removed revisions of a branch still need.
pub fn removed_bodies(graph: &InMemoryGraph, branch: BranchId) -> (out: Vec<KeptBody>)
    ensures
        kept_views(out@) == bodies_of_removed(graph@.revisions, branch),
{
    let revs = graph.revisions();
    let ghost s = graph@.revisions;
    let mut out: Vec<KeptBody> = Vec::new();
    let mut i: usize = 0;
    assert(s.take(0) =~= Seq::<RevisionView>::empty());
    assert(kept_views(out@) =~= Seq::<([u8; 32], Option<Seq<char>>)>::empty());
    while i < revs.len()
        invariant
            i <= revs.len(),
            s == graph::revision_views(revs@),
            kept_views(out@) == bodies_of_removed(s.take(i as int), branch),
        decreases revs.len() - i,
    {
        let r = &revs[i];
        proof {
            assert(s.take(i + 1).drop_last() =~= s.take(i as int));
            assert(s.take(i + 1).last() == r@);
        }
        if r.branch_id == branch && r.status == RevisionStatus::Tombstone {
            let whole_file = if is_whole_file(r) {
                Some(owned(r.file_path.as_str()))
            } else {
                None
            };
            let kept = KeptBody { body_hash: r.body_hash, whole_file };
            let ghost before = out@;
            out.push(kept);
            assert(kept_views(out@) =~= kept_views(before).push(kept_body(kept)));
        }
        i = i + 1;
    }
    assert(s.take(s.len() as int) =~= s);
    out
}

} // verus!
