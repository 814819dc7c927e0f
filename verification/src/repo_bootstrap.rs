//! Which files of a repository are indexed when the engine starts.

use crate::graph::InMemoryGraph;
use crate::text;
use crate::text::{
    append_text, chars_of, chars_replace, cut, owned, text_begins_with, text_finishes_with,
    text_of,
};
use vstd::prelude::*;

verus! {

/// A file has one of some extensions.
pub open spec fn has_extension(path: Seq<char>, extensions: Seq<Seq<char>>) -> bool {
    exists|i: int|
        0 <= i < extensions.len() && text::finishes_with(path, seq!['.'] + #[trigger] extensions[i])
}

/// The files that have one of some extensions, in order.
pub open spec fn with_extension(files: Seq<Seq<char>>, extensions: Seq<Seq<char>>) -> Seq<Seq<char>>
    decreases files.len(),
{
    if files.len() == 0 {
        Seq::empty()
    } else {
        let front = with_extension(files.drop_last(), extensions);
        if has_extension(files.last(), extensions) {
            front.push(files.last())
        } else {
            front
        }
    }
}

/// Whether a file has one of some extensions.
pub fn file_has_extension(path: &str, extensions: &Vec<String>) -> (r: bool)
    ensures
        r == has_extension(path@, text::texts(extensions@)),
{
    let mut i: usize = 0;
    while i < extensions.len()
        invariant
            i <= extensions.len(),
            forall|k: int|
                0 <= k < i ==> !text::finishes_with(
                    path@,
                    seq!['.'] + #[trigger] text::texts(extensions@)[k],
                ),
        decreases extensions.len() - i,
    {
        let mut end = owned(".");
        append_text(&mut end, extensions[i].as_str());
        proof {
            reveal_strlit(".");
            assert(text::texts(extensions@)[i as int] == extensions@[i as int]@);
            assert(end@ =~= seq!['.'] + text::texts(extensions@)[i as int]);
        }
        if text_finishes_with(path, end.as_str()) {
            return true;
        }
        i = i + 1;
    }
    false
}

/// Collects the files that have one of some extensions, of those that a walk met.
pub fn collect_source_files(met: &Vec<String>, extensions: &Vec<String>, out: &mut Vec<String>)
    ensures
        text::texts(final(out)@) == text::texts(old(out)@) + with_extension(text::texts(met@), text::texts(extensions@)),
{
    let ghost files = text::texts(met@);
    let ghost before = text::texts(out@);
    let mut i: usize = 0;
    proof {
        assert(files.take(0) =~= Seq::<Seq<char>>::empty());
        assert(before =~= before + Seq::<Seq<char>>::empty());
    }
    while i < met.len()
        invariant
            i <= met.len(),
            files == text::texts(met@),
            text::texts(out@) == before + with_extension(files.take(i as int), text::texts(extensions@)),
        decreases met.len() - i,
    {
        proof {
            assert(files.take(i + 1).drop_last() =~= files.take(i as int));
            assert(files.take(i + 1).last() == files[i as int]);
            assert(files[i as int] == met@[i as int]@);
        }
        if file_has_extension(met[i].as_str(), extensions) {
            let ghost now = text::texts(out@);
            let f = owned(met[i].as_str());
            out.push(f);
            proof {
                assert(text::texts(out@) =~= now.push(files[i as int]));
                assert(text::texts(out@) =~= before + with_extension(
                    files.take(i + 1),
                    text::texts(extensions@),
                ));
            }
        }
        i = i + 1;
    }
    assert(files.take(files.len() as int) =~= files);
}

/// The extensions of the languages that are indexed.
pub open spec fn indexed_extensions() -> Seq<Seq<char>> {
    seq!["py"@, "ts"@, "tsx"@]
}

/// Collects the files of the languages that are indexed, of those that a walk met.
pub fn collect_indexable_files(met: &Vec<String>, out: &mut Vec<String>)
    ensures
        text::texts(final(out)@) == text::texts(old(out)@) + with_extension(text::texts(met@), indexed_extensions()),
{
    let mut extensions: Vec<String> = Vec::new();
    extensions.push(owned("py"));
    extensions.push(owned("ts"));
    extensions.push(owned("tsx"));
    assert(text::texts(extensions@) =~= indexed_extensions());
    collect_source_files(met, &extensions, out);
}

/// Collects the Python files, of those that a walk met.
pub fn collect_py_files(met: &Vec<String>, out: &mut Vec<String>)
    ensures
        text::texts(final(out)@) == text::texts(old(out)@) + with_extension(text::texts(met@), seq!["py"@]),
{
    let mut extensions: Vec<String> = Vec::new();
    extensions.push(owned("py"));
    assert(text::texts(extensions@) =~= seq!["py"@]);
    collect_source_files(met, &extensions, out);
}

/// Whether the repository is to be walked: it is not where revisions are there, unless it is forced.
pub fn needs_walk(graph: &InMemoryGraph, force: bool) -> (r: bool)
    ensures
        r == (force || graph@.revisions.len() == 0),
{
    graph.revision_count() == 0 || force
}

/// The path of a file below a root, with forward slashes; none where it is not below it.
pub open spec fn event_path(root: Seq<char>, path: Seq<char>) -> Option<Seq<char>> {
    let dir = if root.len() == 0 || root.last() == '/' {
        root
    } else {
        root + seq!['/']
    };
    if text::begins_with(path, dir) {
        Some(text::replaced(path.skip(dir.len() as int), '\\', '/'))
    } else {
        None
    }
}

/// The path of a file as it is indexed.
pub fn indexed_path(root: &str, path: &str) -> (r: Option<String>)
    ensures
        match r {
            Some(p) => event_path(root@, path@) == Some(p@),
            None => event_path(root@, path@) is None,
        },
{
    let rs = chars_of(root);
    let mut dir = owned(root);
    if rs.len() > 0 && rs[rs.len() - 1] != '/' {
        append_text(&mut dir, "/");
    }
    proof {
        reveal_strlit("/");
        assert(root@ + "/"@ =~= root@ + seq!['/']);
    }
    if !text_begins_with(path, dir.as_str()) {
        return None;
    }
    let ds = chars_of(dir.as_str());
    let cs = chars_of(path);
    let rest = cut(&cs, ds.len(), cs.len());
    assert(rest@ =~= path@.skip(ds@.len() as int));
    Some(text_of(&chars_replace(&rest, '\\', '/')))
}

/// The files that are collected are those of the walk that have an extension, and no others.
pub proof fn law_collected_files(files: Seq<Seq<char>>, extensions: Seq<Seq<char>>, f: Seq<char>)
    ensures
        with_extension(files, extensions).contains(f) <==> files.contains(f) && has_extension(
            f,
            extensions,
        ),
    decreases files.len(),
{
    if files.len() > 0 {
        let front = files.drop_last();
        law_collected_files(front, extensions, f);
        let a = with_extension(front, extensions);
        let b = with_extension(files, extensions);
        if files.contains(f) {
            let i = choose|i: int| 0 <= i < files.len() && files[i] == f;
            if i < front.len() {
                assert(front[i] == f);
            }
        }
        if front.contains(f) {
            let i = choose|i: int| 0 <= i < front.len() && front[i] == f;
            assert(files[i] == f);
        }
        if a.contains(f) {
            let i = choose|i: int| 0 <= i < a.len() && a[i] == f;
            assert(b[i] == f);
        }
        if b.contains(f) {
            let i = choose|i: int| 0 <= i < b.len() && b[i] == f;
            if i < a.len() {
                assert(a[i] == f);
            } else {
                assert(f == files.last());
                assert(files[files.len() - 1] == f);
            }
        }
        if files.last() == f && has_extension(f, extensions) {
            assert(b[a.len() as int] == f);
        }
    }
}

} // verus!
