//! Patches of files: what they make of a file, and what becomes of the revisions that they touch.

use crate::graph;
use crate::graph::{GraphView, InMemoryGraph, NodeRevision, RevisionStatus, RevisionView};
use crate::hex;
use crate::hex::{array32, parse_decimal_u64};
use crate::ids::{BranchId, NodeRevisionId};
use crate::language;
use crate::language::has_indexer;
use crate::optimistic_patcher::{OptimisticPatchError, OptimisticPatcher, PatchView};
use crate::path_lease::LeaseError;
use crate::security::AuthError;
use crate::syntax;
use crate::text;
use crate::text::{
    chars_of, chars_replace, chars_split, chars_trim_start, cut, owned, same_text, text_before,
    text_begins_with, text_contains, text_of,
};
use crate::wal::{
    MutationKind, MutationLog, MutationLogError, MutationPhase, MutationRecord, RecordView,
};
use vstd::prelude::*;

verus! {

/// A text looks like a unified diff.
pub open spec fn looks_like_diff(s: Seq<char>) -> bool {
    let t = text::trim_start(s);
    ||| text::begins_with(t, "--- "@)
    ||| text::begins_with(t, "diff "@)
    ||| text::begins_with(t, "*** "@)
    ||| text::contains_text(t, "\n@@ "@)
}

/// Whether a text looks like a unified diff.
pub fn is_probably_unified_diff(s: &str) -> (r: bool)
    ensures
        r == looks_like_diff(s@),
{
    let cs = chars_of(s);
    let t = text_of(&chars_trim_start(&cs));
    text_begins_with(t.as_str(), "--- ") || text_begins_with(t.as_str(), "diff ")
        || text_begins_with(t.as_str(), "*** ") || text_contains(t.as_str(), "\n@@ ")
}

/// The number that a text stands for, if a machine number can hold it.
pub open spec fn machine_number(s: Seq<char>) -> Option<nat> {
    match hex::decimal_u64(s) {
        Some(n) => if n <= usize::MAX {
            Some(n as nat)
        } else {
            None
        },
        None => None,
    }
}

/// What stands behind the first of a character in a text; nothing where there is none.
pub open spec fn behind(s: Seq<char>, c: Seq<char>) -> Option<Seq<char>> {
    let at = text::before(s, c).len();
    if at < s.len() {
        Some(s.skip(at as int + 1))
    } else {
        None
    }
}

/// A range of a hunk ends within machine numbers: its start and the count behind a comma, or one, add
/// up to such a number, or are not both such numbers in the first place.
pub open spec fn range_fits(s: Seq<char>) -> bool {
    let len = match behind(s, ","@) {
        Some(t) => machine_number(t),
        None => Some(1),
    };
    match (machine_number(text::before(s, ","@)), len) {
        (Some(a), Some(b)) => a + b <= usize::MAX,
        _ => true,
    }
}

/// The two ranges in the head of a hunk end within machine numbers.
pub open spec fn head_fits(line: Seq<char>) -> bool {
    let ranges = text::before(line.skip(3), " @@"@);
    let first = text::before(ranges, " "@);
    &&& first.len() > 0 ==> range_fits(first.skip(1))
    &&& match behind(ranges, " "@) {
        Some(second) => second.len() > 0 ==> range_fits(second.skip(1)),
        None => true,
    }
}

/// A line is the head of a hunk.
pub open spec fn is_head(line: Seq<char>) -> bool {
    text::begins_with(line, "@@ "@)
}

/// The ranges of every hunk of a diff that another one follows end within machine numbers.
pub open spec fn heads_fit(diff: Seq<char>) -> bool {
    let lines = text::pieces(diff, '\n');
    forall|i: int, j: int|
        0 <= i < j < lines.len() && #[trigger] is_head(lines[i]) && #[trigger] is_head(lines[j])
            ==> head_fits(lines[i])
}

/// Reads the number that a text stands for.
fn read_machine_number(s: &str) -> (r: Option<usize>)
    ensures
        match r {
            Some(n) => machine_number(s@) == Some(n as nat),
            None => machine_number(s@) is None,
        },
{
    match parse_decimal_u64(&chars_of(s)) {
        Some(n) => if n <= usize::MAX as u64 {
            Some(n as usize)
        } else {
            None
        },
        None => None,
    }
}

/// Finds what stands behind the first of a character in a text.
fn text_behind(s: &str, c: &str) -> (r: Option<String>)
    ensures
        syntax::text_view(r) == behind(s@, c@),
{
    let at = chars_of(text_before(s, c).as_str()).len();
    let cs = chars_of(s);
    if at < cs.len() {
        let rest = cut(&cs, at + 1, cs.len());
        assert(rest@ =~= s@.skip(at + 1));
        Some(text_of(&rest))
    } else {
        None
    }
}

/// Whether a range of a hunk ends within machine numbers.
fn has_fitting_range(s: &str) -> (r: bool)
    ensures
        r == range_fits(s@),
{
    let len = match text_behind(s, ",") {
        Some(t) => read_machine_number(t.as_str()),
        None => Some(1),
    };
    match (read_machine_number(text_before(s, ",").as_str()), len) {
        (Some(a), Some(b)) => a <= usize::MAX - b,
        _ => true,
    }
}

/// Whether a range behind its sign ends within machine numbers.
fn has_fitting_signed_range(s: &str) -> (r: bool)
    ensures
        r == (s@.len() > 0 ==> range_fits(s@.skip(1))),
{
    let cs = chars_of(s);
    if cs.len() == 0 {
        return true;
    }
    let rest = cut(&cs, 1, cs.len());
    assert(rest@ =~= s@.skip(1));
    has_fitting_range(text_of(&rest).as_str())
}

/// Whether the two ranges in the head of a hunk end within machine numbers.
fn has_fitting_head(line: &Vec<char>) -> (r: bool)
    requires
        line.len() >= 3,
    ensures
        r == head_fits(line@),
{
    let rest = cut(line, 3, line.len());
    assert(rest@ =~= line@.skip(3));
    let ranges = text_before(text_of(&rest).as_str(), " @@");
    let second_fits = match text_behind(ranges.as_str(), " ") {
        Some(second) => has_fitting_signed_range(second.as_str()),
        None => true,
    };
    second_fits && has_fitting_signed_range(text_before(ranges.as_str(), " ").as_str())
}

/// Whether the ranges of every hunk of a diff that another one follows end within machine numbers.
pub fn has_fitting_heads(diff: &str) -> (r: bool)
    ensures
        r == heads_fit(diff@),
{
    let cs = chars_of(diff);
    let lines = chars_split(&cs, '\n');
    let ghost s = text::chars_views(lines@);
    let mut followed = false;
    let mut i: usize = lines.len();
    assert(s.len() == lines.len());
    while i > 0
        invariant
            i <= lines.len(),
            s == text::chars_views(lines@),
            s.len() == lines.len(),
            s == text::pieces(diff@, '\n'),
            followed ==> exists|j: int| i <= j < s.len() && #[trigger] is_head(s[j]),
            !followed ==> forall|j: int| i <= j < s.len() ==> !#[trigger] is_head(s[j]),
            forall|a: int, b: int|
                i <= a < b < s.len() && #[trigger] is_head(s[a]) && #[trigger] is_head(s[b])
                    ==> head_fits(s[a]),
        decreases i,
    {
        i = i - 1;
        assert(s[i as int] == lines@[i as int]@);
        let line = text_of(&lines[i]);
        if text_begins_with(line.as_str(), "@@ ") {
            proof {
                reveal_strlit("@@ ");
                assert(is_head(s[i as int]));
            }
            if followed && !has_fitting_head(&lines[i]) {
                return false;
            }
            followed = true;
        }
    }
    true
}

/// What `diffy` makes of a text by a diff; nothing where the diff is malformed or does not fit.
pub uninterp spec fn diff_applied(original: Seq<char>, diff: Seq<char>) -> Option<Seq<char>>;

/// `diffy::Patch::from_str` and `diffy::apply`: what they give is settled by the text and the diff.
/// How a diff is read and where its hunks are put is left unsaid. Hunks that others follow and that
/// begin so late that their ends are no machine numbers are left out.
#[verifier::external_body]
pub(crate) fn apply_diff(original: &str, diff: &str) -> (r: Option<String>)
    requires
        heads_fit(diff@),
    ensures
        r is None <==> diff_applied(original@, diff@) is None,
        r is Some ==> diff_applied(original@, diff@) == Some(r->0@),
{
    let patch = diffy::Patch::from_str(diff).ok()?;
    diffy::apply(original, &patch).ok()
}

/// What a file holds once a patch is applied: a diff changes it, anything else takes its place.
pub open spec fn patched_content(original: Seq<char>, input: Seq<char>) -> Option<Seq<char>> {
    if looks_like_diff(input) {
        diff_applied(original, input)
    } else {
        Some(input)
    }
}

/// What becomes of a file, given what the diff came to.
pub fn chosen_content(input: &str, applied: Option<String>) -> (r: Result<String, AuthError>)
    ensures
        match r {
            Ok(t) => if looks_like_diff(input@) {
                syntax::text_view(applied) == Some(t@)
            } else {
                t@ == input@
            },
            Err(e) => looks_like_diff(input@) && applied is None && e == AuthError::InvalidInput,
        },
{
    if is_probably_unified_diff(input) {
        match applied {
            Some(t) => Ok(t),
            None => Err(AuthError::InvalidInput),
        }
    } else {
        Ok(owned(input))
    }
}

/// Computes what a file holds once a patch is applied.
pub fn apply_patch_text(original: &str, input: &str) -> (r: Result<String, AuthError>)
    requires
        looks_like_diff(input@) ==> heads_fit(input@),
    ensures
        match r {
            Ok(t) => patched_content(original@, input@) == Some(t@),
            Err(e) => patched_content(original@, input@) is None && e == AuthError::InvalidInput,
        },
{
    if is_probably_unified_diff(input) {
        let applied = apply_diff(original, input);
        chosen_content(input, applied)
    } else {
        chosen_content(input, None)
    }
}

/// How a refused patch is answered.
pub open spec fn patch_refusal(e: OptimisticPatchError) -> AuthError {
    match e {
        OptimisticPatchError::Lease(LeaseError::Conflict { .. }) => AuthError::Forbidden,
        OptimisticPatchError::MergeLocked => AuthError::Forbidden,
        _ => AuthError::InvalidInput,
    }
}

/// Answers a refused patch.
pub fn patch_err(e: &OptimisticPatchError) -> (r: AuthError)
    ensures
        r == patch_refusal(*e),
{
    match e {
        OptimisticPatchError::Lease(LeaseError::Conflict { .. }) => AuthError::Forbidden,
        OptimisticPatchError::MergeLocked => AuthError::Forbidden,
        _ => AuthError::InvalidInput,
    }
}

/// A path below a root, taken from the root on; another path stays as it is. Slashes lean forward.
pub open spec fn below_root(root: Seq<char>, abs: Seq<char>) -> Seq<char> {
    let rest = abs.skip(root.len() as int);
    text::replaced(
        if text::begins_with(abs, root) && rest.len() > 0 && rest[0] == '/' {
            rest.skip(1)
        } else {
            abs
        },
        '\\',
        '/',
    )
}

/// Takes a path from a root on.
pub fn rel_path_from_abs(repo_root: &str, abs: &str) -> (r: String)
    ensures
        r@ == below_root(repo_root@, abs@),
{
    let cs = chars_of(abs);
    let root = chars_of(repo_root);
    let ghost rest = abs@.skip(repo_root@.len() as int);
    if text_begins_with(abs, repo_root) && cs.len() > root.len() && cs[root.len()] == '/' {
        let part = cut(&cs, root.len() + 1, cs.len());
        assert(rest[0] == '/');
        assert(part@ =~= rest.skip(1));
        return text_of(&chars_replace(&part, '\\', '/'));
    }
    text_of(&chars_replace(&cs, '\\', '/'))
}

/// The revisions of a file on a branch that stand in a status, among some.
pub open spec fn in_file(
    revs: Seq<RevisionView>,
    branch: BranchId,
    path: Seq<char>,
    status: RevisionStatus,
) -> Seq<NodeRevisionId>
    decreases revs.len(),
{
    if revs.len() == 0 {
        Seq::empty()
    } else {
        let front = in_file(revs.drop_last(), branch, path, status);
        let r = revs.last();
        if r.branch_id == branch && r.file_path == path && r.status == status {
            front.push(r.revision_id)
        } else {
            front
        }
    }
}

/// Finds the revisions of a file on a branch that stand in a status.
pub fn revisions_in_file(
    graph: &InMemoryGraph,
    branch: BranchId,
    path: &str,
    status: RevisionStatus,
) -> (out: Vec<NodeRevisionId>)
    ensures
        out@ == in_file(graph@.revisions, branch, path@, status),
{
    let revs = graph.revisions();
    let ghost s = graph@.revisions;
    let mut out: Vec<NodeRevisionId> = Vec::new();
    let mut i: usize = 0;
    assert(s.take(0) =~= Seq::<RevisionView>::empty());
    while i < revs.len()
        invariant
            i <= revs.len(),
            s == graph::revision_views(revs@),
            out@ == in_file(s.take(i as int), branch, path@, status),
        decreases revs.len() - i,
    {
        let r = &revs[i];
        proof {
            assert(s.take(i + 1).drop_last() =~= s.take(i as int));
            assert(s.take(i + 1).last() == r@);
        }
        if r.branch_id == branch && same_text(r.file_path.as_str(), path) && r.status == status {
            out.push(r.revision_id);
        }
        i = i + 1;
    }
    assert(s.take(s.len() as int) =~= s);
    out
}

/// The speculative revisions of files.
pub open spec fn speculative_in(
    g: GraphView,
    root: Seq<char>,
    paths: Seq<Seq<char>>,
    branch: BranchId,
) -> Seq<NodeRevisionId>
    decreases paths.len(),
{
    if paths.len() == 0 {
        Seq::empty()
    } else {
        speculative_in(g, root, paths.drop_last(), branch) + in_file(
            g.revisions,
            branch,
            below_root(root, paths.last()),
            RevisionStatus::Speculative,
        )
    }
}

/// Finds the speculative revisions of files.
pub fn speculative_rids_for_paths(
    graph: &InMemoryGraph,
    repo_root: &str,
    paths: &Vec<String>,
    branch: BranchId,
) -> (out: Vec<NodeRevisionId>)
    ensures
        out@ == speculative_in(graph@, repo_root@, text::texts(paths@), branch),
{
    let ghost s = text::texts(paths@);
    let mut out: Vec<NodeRevisionId> = Vec::new();
    let mut i: usize = 0;
    assert(s.take(0) =~= Seq::<Seq<char>>::empty());
    while i < paths.len()
        invariant
            i <= paths.len(),
            s == text::texts(paths@),
            out@ == speculative_in(graph@, repo_root@, s.take(i as int), branch),
        decreases paths.len() - i,
    {
        proof {
            assert(s.take(i + 1).drop_last() =~= s.take(i as int));
            assert(s.take(i + 1).last() == paths@[i as int]@);
        }
        let rel = rel_path_from_abs(repo_root, paths[i].as_str());
        let mut more = revisions_in_file(graph, branch, rel.as_str(), RevisionStatus::Speculative);
        out.append(&mut more);
        i = i + 1;
    }
    assert(s.take(s.len() as int) =~= s);
    out
}

/// The checksum of revisions: each mixes a byte of its id into one of thirty-two places.
pub open spec fn checksum_of(rids: Seq<NodeRevisionId>) -> Seq<u8>
    decreases rids.len(),
{
    if rids.len() == 0 {
        Seq::new(32, |i: int| 0u8)
    } else {
        let i = rids.len() - 1;
        let front = checksum_of(rids.drop_last());
        front.update(i % 32, front[i % 32] ^ rids.last().0[i % 16])
    }
}

/// A checksum has thirty-two bytes.
proof fn lemma_checksum_len(rids: Seq<NodeRevisionId>)
    ensures
        checksum_of(rids).len() == 32,
    decreases rids.len(),
{
    if rids.len() > 0 {
        lemma_checksum_len(rids.drop_last());
    }
}

/// The checksum of revisions, as an array.
pub open spec fn checksum_array(rids: Seq<NodeRevisionId>) -> [u8; 32] {
    choose|a: [u8; 32]| #[trigger] a@ == checksum_of(rids)
}

/// Computes the checksum of revisions.
pub fn mutation_checksum(rids: &Vec<NodeRevisionId>) -> (r: [u8; 32])
    ensures
        r@ == checksum_of(rids@),
        r == checksum_array(rids@),
{
    let mut out: Vec<u8> = Vec::new();
    let mut k: usize = 0;
    while k < 32
        invariant
            k <= 32,
            out@ == Seq::new(k as nat, |i: int| 0u8),
        decreases 32 - k,
    {
        out.push(0);
        k = k + 1;
        assert(out@ =~= Seq::new(k as nat, |i: int| 0u8));
    }
    let mut i: usize = 0;
    assert(rids@.take(0) =~= Seq::<NodeRevisionId>::empty());
    while i < rids.len()
        invariant
            i <= rids.len(),
            out.len() == 32,
            out@ == checksum_of(rids@.take(i as int)),
        decreases rids.len() - i,
    {
        proof {
            lemma_checksum_len(rids@.take(i as int));
            assert(rids@.take(i + 1).drop_last() =~= rids@.take(i as int));
            assert(rids@.take(i + 1).last() == rids@[i as int]);
        }
        let at = i % 32;
        let x = out[at] ^ rids[i].0[i % 16];
        out.set(at, x);
        i = i + 1;
    }
    assert(rids@.take(rids@.len() as int) =~= rids@);
    let r = array32(&out);
    assert(checksum_array(rids@)@ == r@);
    assert(checksum_array(rids@) =~= r);
    r
}

/// A revision once its patch was confirmed or reverted.
pub open spec fn revision_settled(r: RevisionView, reverted_at_ms: Option<u64>) -> RevisionView {
    match reverted_at_ms {
        Some(t) => RevisionView {
            status: RevisionStatus::Tombstone,
            tombstoned_at_ms: Some(t),
            ..r
        },
        None => RevisionView { status: RevisionStatus::Active, ..r },
    }
}

/// The graph once the revisions of a patch are settled.
pub open spec fn all_settled(
    g: GraphView,
    rids: Seq<NodeRevisionId>,
    reverted_at_ms: Option<u64>,
) -> GraphView
    decreases rids.len(),
{
    if rids.len() == 0 {
        g
    } else {
        let front = all_settled(g, rids.drop_last(), reverted_at_ms);
        match front.rev(rids.last()) {
            Some(r) => front.put(revision_settled(r, reverted_at_ms)),
            None => front,
        }
    }
}

/// Settles the revisions of a patch.
pub fn settle_revisions(
    graph: &mut InMemoryGraph,
    rids: &Vec<NodeRevisionId>,
    reverted_at_ms: Option<u64>,
)
    ensures
        final(graph)@ == all_settled(old(graph)@, rids@, reverted_at_ms),
{
    let ghost g0 = graph@;
    let mut i: usize = 0;
    assert(rids@.take(0) =~= Seq::<NodeRevisionId>::empty());
    while i < rids.len()
        invariant
            i <= rids.len(),
            graph@ == all_settled(g0, rids@.take(i as int), reverted_at_ms),
        decreases rids.len() - i,
    {
        proof {
            assert(rids@.take(i + 1).drop_last() =~= rids@.take(i as int));
            assert(rids@.take(i + 1).last() == rids@[i as int]);
        }
        let found: Option<NodeRevision> = match graph.get_revision(rids[i]) {
            Some(r) => Some(r.copied()),
            None => None,
        };
        if let Some(mut r) = found {
            match reverted_at_ms {
                Some(t) => {
                    r.status = RevisionStatus::Tombstone;
                    r.tombstoned_at_ms = Some(t);
                },
                None => {
                    r.status = RevisionStatus::Active;
                },
            }
            graph.put_revision(r);
        }
        i = i + 1;
    }
    assert(rids@.take(rids@.len() as int) =~= rids@);
}

/// What is logged of a patch that was confirmed or reverted.
pub open spec fn patch_kind(patch_id: u64, reverted_at_ms: Option<u64>) -> MutationKind {
    match reverted_at_ms {
        Some(_) => MutationKind::RevertSpeculative { patch_id },
        None => MutationKind::PromoteSpeculative { patch_id },
    }
}

/// The log after the revisions of a patch were settled at a time: one record more, unless there were
/// none to settle.
pub open spec fn settling_logged(
    log: Seq<RecordView>,
    patch_id: u64,
    rids: Seq<NodeRevisionId>,
    reverted_at_ms: Option<u64>,
    now_ms: u64,
) -> Seq<RecordView> {
    if rids.len() == 0 {
        log
    } else {
        log.push(
            RecordView {
                log_id: (log.len() + 1) as u64,
                kind: patch_kind(patch_id, reverted_at_ms),
                phase: MutationPhase::Committed,
                affected: rids,
                checksum: checksum_array(rids),
                created_at_ms: now_ms,
            },
        )
    }
}

/// Confirms or reverts the speculative revisions of a patch's files, and logs it. Nothing happens
/// where there are none, or where the log is full.
pub fn settle_patch(
    graph: &mut InMemoryGraph,
    wal: &mut MutationLog,
    repo_root: &str,
    paths: &Vec<String>,
    branch: BranchId,
    patch_id: u64,
    reverted_at_ms: Option<u64>,
    now_ms: u64,
) -> (r: Result<usize, MutationLogError>)
    ensures
        ({
            let rids = speculative_in(old(graph)@, repo_root@, text::texts(paths@), branch);
            match r {
                Ok(n) => {
                    &&& n == rids.len()
                    &&& final(graph)@ == all_settled(old(graph)@, rids, reverted_at_ms)
                    &&& rids.len() > 0 ==> old(wal)@.len() < u64::MAX
                    &&& final(wal)@ == settling_logged(
                        old(wal)@,
                        patch_id,
                        rids,
                        reverted_at_ms,
                        now_ms,
                    )
                },
                Err(_) => {
                    &&& rids.len() > 0
                    &&& old(wal)@.len() >= u64::MAX
                    &&& final(graph)@ == old(graph)@
                    &&& final(wal)@ == old(wal)@
                },
            }
        }),
{
    let rids = speculative_rids_for_paths(graph, repo_root, paths, branch);
    let n = rids.len();
    if n == 0 {
        assert(rids@ =~= Seq::<NodeRevisionId>::empty());
        return Ok(0);
    }
    let checksum = mutation_checksum(&rids);
    let kind = match reverted_at_ms {
        Some(_) => MutationKind::RevertSpeculative { patch_id },
        None => MutationKind::PromoteSpeculative { patch_id },
    };
    let ghost log = wal@;
    let rec = MutationRecord {
        log_id: 0,
        kind,
        phase: MutationPhase::Committed,
        affected_revisions: copy_revisions(&rids),
        payload_checksum: checksum,
        created_at_ms: now_ms,
    };
    if let Err(e) = wal.append(rec) {
        return Err(e);
    }
    assert(wal@ =~= settling_logged(log, patch_id, rids@, reverted_at_ms, now_ms));
    settle_revisions(graph, &rids, reverted_at_ms);
    Ok(n)
}

/// A copy of a list of revisions.
fn copy_revisions(v: &Vec<NodeRevisionId>) -> (r: Vec<NodeRevisionId>)
    ensures
        r@ == v@,
{
    let mut out: Vec<NodeRevisionId> = Vec::new();
    let mut i: usize = 0;
    while i < v.len()
        invariant
            i <= v.len(),
            out@ == v@.take(i as int),
        decreases v.len() - i,
    {
        out.push(v[i]);
        assert(out@ =~= v@.take(i + 1));
        i = i + 1;
    }
    assert(v@.take(v@.len() as int) =~= v@);
    out
}

/// The number in the name of a confirmation mark; none where the name is not one of a mark, or of
/// one that is still being written.
pub open spec fn mark_number(name: Seq<char>) -> Option<Seq<char>> {
    let rest = name.skip(".cis_confirm_"@.len() as int);
    if text::begins_with(name, ".cis_confirm_"@) && !text::contains_text(rest, ".tmp"@) {
        Some(rest)
    } else {
        None
    }
}

/// A confirmation mark stands for no open patch.
pub open spec fn mark_stale(open: Set<u64>, number: Seq<char>) -> bool {
    match hex::decimal_u64(number) {
        Some(id) => !open.contains(id),
        None => true,
    }
}

/// Finds the number of a confirmation mark that stands for no open patch with paths.
pub fn stale_mark(name: &str, patcher: &OptimisticPatcher) -> (r: Option<String>)
    ensures
        match r {
            Some(t) => mark_number(name@) == Some(t@) && mark_stale(
                patches_with_paths(patcher.open()),
                t@,
            ),
            None => mark_number(name@) matches Some(t) ==> !mark_stale(
                patches_with_paths(patcher.open()),
                t,
            ),
        },
{
    if !text_begins_with(name, ".cis_confirm_") {
        return None;
    }
    let cs = chars_of(name);
    let head = chars_of(".cis_confirm_");
    let rest = cut(&cs, head.len(), cs.len());
    assert(rest@ =~= name@.skip(".cis_confirm_"@.len() as int));
    let number = text_of(&rest);
    if text_contains(number.as_str(), ".tmp") {
        return None;
    }
    match parse_decimal_u64(&rest) {
        Some(id) => {
            let paths = patcher.peek_patch_paths(id);
            assert(text::texts(paths@).len() == paths@.len());
            if paths.len() == 0 {
                Some(number)
            } else {
                None
            }
        },
        None => Some(number),
    }
}

/// The open patches that have paths.
pub open spec fn patches_with_paths(open: Map<u64, PatchView>) -> Set<u64> {
    Set::new(|id: u64| open.contains_key(id) && open[id].paths.len() > 0)
}

/// The files of a reverted patch that are read again, by their paths from the root on.
pub open spec fn read_again(root: Seq<char>, paths: Seq<Seq<char>>) -> Seq<Seq<char>>
    decreases paths.len(),
{
    if paths.len() == 0 {
        Seq::empty()
    } else {
        let front = read_again(root, paths.drop_last());
        let rel = below_root(root, paths.last());
        if language::indexable(rel) {
            front.push(rel)
        } else {
            front
        }
    }
}

/// Lists the files of a reverted patch that are to be read again.
pub fn paths_to_reindex(repo_root: &str, paths: &Vec<String>) -> (r: Vec<String>)
    ensures
        text::texts(r@) == read_again(repo_root@, text::texts(paths@)),
{
    let ghost ps = text::texts(paths@);
    let mut out: Vec<String> = Vec::new();
    let mut i: usize = 0;
    assert(ps.take(0) =~= Seq::<Seq<char>>::empty());
    assert(text::texts(out@) =~= Seq::<Seq<char>>::empty());
    while i < paths.len()
        invariant
            i <= paths.len(),
            ps == text::texts(paths@),
            text::texts(out@) == read_again(repo_root@, ps.take(i as int)),
        decreases paths.len() - i,
    {
        proof {
            assert(ps.take(i + 1).drop_last() =~= ps.take(i as int));
            assert(ps.take(i + 1).last() == paths@[i as int]@);
        }
        let rel = rel_path_from_abs(repo_root, paths[i].as_str());
        if has_indexer(rel.as_str()) {
            let ghost before = out@;
            let ghost kept = rel@;
            out.push(rel);
            assert(text::texts(out@) =~= text::texts(before).push(kept));
        }
        i = i + 1;
    }
    assert(ps.take(ps.len() as int) =~= ps);
    out
}

} // verus!
