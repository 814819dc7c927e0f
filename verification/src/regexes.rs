//! Matches of regular expressions in texts.

use crate::spans;
use crate::spans::find_index;
use crate::syntax;
use crate::text::owned;
use vstd::prelude::*;

verus! {

/// A match of a regular expression: where it starts and ends, in bytes, and the texts of its groups;
/// the whole match comes first.
#[derive(Debug)]
pub struct Capture {
    pub start: usize,
    pub end: usize,
    pub groups: Vec<Option<String>>,
}

/// What a match holds.
pub struct CaptureView {
    pub start: usize,
    pub end: usize,
    pub groups: Seq<Option<Seq<char>>>,
}

impl View for Capture {
    type V = CaptureView;

    open spec fn view(&self) -> CaptureView {
        CaptureView {
            start: self.start,
            end: self.end,
            groups: self.groups@.map_values(|g: Option<String>| syntax::text_view(g)),
        }
    }
}

/// What matches hold.
pub open spec fn capture_views(v: Seq<Capture>) -> Seq<CaptureView> {
    v.map_values(|c: Capture| c@)
}

/// Whether `regex` takes an expression.
pub uninterp spec fn regex_accepts(pattern: Seq<char>) -> bool;

/// The matches that `regex` finds in a text for an expression that it takes.
pub uninterp spec fn regex_captures(pattern: Seq<char>, text: Seq<char>) -> Seq<CaptureView>;

/// `regex::Regex::new` and `regex::Regex::captures_iter`: whether an expression is taken is settled
/// by the expression, and the matches by the expression and the text. What an expression means is
/// left unsaid.
#[verifier::external_body]
pub(crate) fn find_captures(pattern: &str, text: &str) -> (r: Option<Vec<Capture>>)
    ensures
        r is Some <==> regex_accepts(pattern@),
        r is Some ==> capture_views(r->0@) == regex_captures(pattern@, text@),
{
    let re = regex::Regex::new(pattern).ok()?;
    let mut out = Vec::new();
    for c in re.captures_iter(text) {
        let groups = c.iter().map(|g| g.map(|m| m.as_str().to_string())).collect();
        if let Some(m) = c.get(0) { out.push(Capture { start: m.start(), end: m.end(), groups }); }
    }
    Some(out)
}

/// The text of a group.
pub open spec fn group_of(c: CaptureView, n: int) -> Option<Seq<char>> {
    if 0 <= n < c.groups.len() {
        c.groups[n]
    } else {
        None
    }
}

impl Capture {
    /// Reads the text of a group.
    pub fn group(&self, n: usize) -> (r: Option<String>)
        ensures
            syntax::text_view(r) == group_of(self@, n as int),
    {
        if n < self.groups.len() {
            match &self.groups[n] {
                Some(t) => Some(owned(t.as_str())),
                None => None,
            }
        } else {
            None
        }
    }

    /// Reads the text of a group; empty where the group has none.
    pub fn group_or_empty(&self, n: usize) -> (r: String)
        ensures
            r@ == group_or_nothing(self@, n as int),
    {
        match self.group(n) {
            Some(t) => t,
            None => {
                let none = String::new();
                assert(none@ =~= Seq::<char>::empty());
                none
            },
        }
    }
}

/// The text of a group; empty where the group has none.
pub open spec fn group_or_nothing(c: CaptureView, n: int) -> Seq<char> {
    match group_of(c, n) {
        Some(t) => t,
        None => Seq::empty(),
    }
}

/// The matches in a text; nothing where the expression is refused.
pub open spec fn captures_or_nothing(pattern: Seq<char>, text: Seq<char>) -> Seq<CaptureView> {
    if regex_accepts(pattern) {
        regex_captures(pattern, text)
    } else {
        Seq::empty()
    }
}

/// Finds the matches in a text; nothing where the expression is refused.
pub fn find_captures_or_nothing(pattern: &str, text: &str) -> (r: Vec<Capture>)
    ensures
        capture_views(r@) == captures_or_nothing(pattern@, text@),
{
    match find_captures(pattern, text) {
        Some(v) => v,
        None => {
            let none: Vec<Capture> = Vec::new();
            assert(capture_views(none@) =~= Seq::empty());
            none
        },
    }
}

/// Whether an expression is taken.
pub fn expression_accepted(pattern: &str) -> (r: bool)
    ensures
        r == regex_accepts(pattern@),
{
    match find_captures(pattern, "") {
        Some(_) => true,
        None => false,
    }
}

/// A sum of two numbers, as far as a number goes.
pub open spec fn shifted(from: usize, by: usize) -> usize {
    if from + by > usize::MAX {
        usize::MAX
    } else {
        (from + by) as usize
    }
}

/// Computes a sum of two numbers, as far as a number goes.
pub fn shift(from: usize, by: usize) -> (r: usize)
    ensures
        r == shifted(from, by),
{
    if by > usize::MAX - from {
        usize::MAX
    } else {
        from + by
    }
}

/// A point stands right in front of a byte of a text.
pub open spec fn behind_point(s: Seq<char>, byte: usize) -> bool {
    match spans::index_at(s, byte as nat) {
        Some(k) => k > 0 && s[k - 1] == '.',
        None => false,
    }
}

/// Whether a point stands right in front of a byte of a text.
pub fn is_behind_point(s: &Vec<char>, byte: usize) -> (r: bool)
    ensures
        r == behind_point(s@, byte),
{
    match find_index(s, byte) {
        Some(k) => k > 0 && s[k - 1] == '.',
        None => false,
    }
}

} // verus!
