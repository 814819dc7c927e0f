//! What matches of regular expressions say of a file, whatever its language.

use crate::file_index;
use crate::file_index::{Fact, FactView, add_fact, symbol_of};
use crate::graph::NodeKind;
use crate::regexes;
use crate::regexes::{Capture, CaptureView};
use crate::spans;
use crate::spans::span_from_byte_range;
use vstd::prelude::*;

verus! {

/// The function that a match names.
pub open spec fn named_function(c: CaptureView, path: Seq<char>, content: Seq<char>) -> Seq<
    FactView,
> {
    match regexes::group_of(c, 1) {
        Some(n) => seq![
            FactView::Symbol(
                file_index::symbol_at(
                    path,
                    n,
                    NodeKind::Function,
                    spans::span_between(content, c.start as nat, c.end as nat),
                ),
            ),
        ],
        None => Seq::empty(),
    }
}

/// Notes the function that a match names.
fn note_named_function(c: &Capture, path: &str, content: &Vec<char>, facts: &mut Vec<Fact>)
    ensures
        file_index::fact_views(final(facts)@) == file_index::fact_views(old(facts)@) + named_function(
            c@,
            path@,
            content@,
        ),
{
    let ghost start = file_index::fact_views(facts@);
    if let Some(n) = c.group(1) {
        let span = span_from_byte_range(content, c.start, c.end);
        add_fact(
            facts,
            Fact::Symbol(symbol_of(path, n.as_str(), NodeKind::Function, span)),
        );
    }
    assert(file_index::fact_views(facts@) =~= start + named_function(c@, path@, content@));
}

/// The functions that matches name.
pub open spec fn named_functions(s: Seq<CaptureView>, path: Seq<char>, content: Seq<char>) -> Seq<FactView>
    decreases s.len(),
{
    if s.len() == 0 {
        Seq::empty()
    } else {
        named_functions(s.drop_last(), path, content) + named_function(s.last(), path, content)
    }
}

/// Notes the functions that matches name.
pub fn note_named_functions(
    captures: &Vec<Capture>,
    path: &str,
    content: &Vec<char>,
    facts: &mut Vec<Fact>,
)
    ensures
        file_index::fact_views(final(facts)@) == file_index::fact_views(old(facts)@) + named_functions(
            regexes::capture_views(captures@), path@, content@,
        ),
{
    let ghost base = file_index::fact_views(facts@);
    let ghost s = regexes::capture_views(captures@);
    let mut i: usize = 0;
    proof {
        assert(s.take(0) =~= Seq::<CaptureView>::empty());
        assert(base + named_functions(s.take(0), path@, content@) =~= base);
    }
    while i < captures.len()
        invariant
            i <= captures.len(),
            s == regexes::capture_views(captures@),
            file_index::fact_views(facts@) == base + named_functions(s.take(i as int), path@, content@),
        decreases captures.len() - i,
    {
        let c = &captures[i];
        note_named_function(c, path, content, facts);
        proof {
            assert(s.take(i + 1).drop_last() =~= s.take(i as int));
            assert(s.take(i + 1).last() == c@);
            assert(file_index::fact_views(facts@) =~= base + named_functions(s.take(i + 1), path@, content@));
        }
        i = i + 1;
    }
    assert(s.take(s.len() as int) =~= s);
}

} // verus!
