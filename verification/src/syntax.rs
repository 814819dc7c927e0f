//! Syntax trees, as the parsers of `tree-sitter` make them.

use tree_sitter::Parser;
use tree_sitter_typescript::{LANGUAGE_TSX, LANGUAGE_TYPESCRIPT};
use crate::graph::SourceSpan;
use crate::spans;
use crate::spans::{cut_bytes, span_from_byte_range};
use crate::text::{chars_of, owned, same_text};
use vstd::prelude::*;

verus! {

/// A node of a syntax tree.
#[derive(Debug)]
pub struct SyntaxNode {
    pub kind: String,
    /// The field of its parent that it stands in.
    pub field: Option<String>,
    /// The grammar gives it a name.
    pub named: bool,
    pub text: String,
    pub span: SourceSpan,
    pub children: Vec<SyntaxNode>,
}

/// What a node holds.
pub struct TreeView {
    pub kind: Seq<char>,
    pub field: Option<Seq<char>>,
    pub named: bool,
    pub text: Seq<char>,
    pub span: SourceSpan,
    pub children: Seq<TreeView>,
}

/// What an optional text holds.
pub open spec fn text_view(t: Option<String>) -> Option<Seq<char>> {
    match t {
        Some(s) => Some(s@),
        None => None,
    }
}

/// What a node holds.
pub open spec fn tree_of(n: SyntaxNode) -> TreeView
    decreases n,
{
    TreeView {
        kind: n.kind@,
        field: text_view(n.field),
        named: n.named,
        text: n.text@,
        span: n.span,
        children: forest_of(n.children@),
    }
}

/// What nodes hold.
pub open spec fn forest_of(s: Seq<SyntaxNode>) -> Seq<TreeView>
    decreases s,
{
    if s.len() == 0 {
        Seq::empty()
    } else {
        forest_of(s.drop_last()).push(tree_of(s.last()))
    }
}

/// Each node of a list is viewed in its place.
pub proof fn lemma_forest(s: Seq<SyntaxNode>)
    ensures
        forest_of(s).len() == s.len(),
        forall|i: int| 0 <= i < s.len() ==> #[trigger] forest_of(s)[i] == tree_of(s[i]),
    decreases s.len(),
{
    if s.len() > 0 {
        lemma_forest(s.drop_last());
    }
}

impl View for SyntaxNode {
    type V = TreeView;

    open spec fn view(&self) -> TreeView {
        tree_of(*self)
    }
}

/// The first of some nodes that stands in a field.
pub open spec fn field_among(s: Seq<TreeView>, name: Seq<char>) -> Option<TreeView>
    decreases s.len(),
{
    if s.len() == 0 {
        None
    } else if s[0].field == Some(name) {
        Some(s[0])
    } else {
        field_among(s.skip(1), name)
    }
}

/// The child of a node that stands in a field.
pub open spec fn field_of(t: TreeView, name: Seq<char>) -> Option<TreeView> {
    field_among(t.children, name)
}

/// The text of the child that stands in a field, empty where there is none.
pub open spec fn field_text(t: TreeView, name: Seq<char>) -> Seq<char> {
    match field_of(t, name) {
        Some(c) => c.text,
        None => Seq::empty(),
    }
}

/// A child in a field is one of the children.
pub proof fn lemma_field_among(s: Seq<TreeView>, name: Seq<char>)
    ensures
        field_among(s, name) matches Some(c) ==> exists|i: int| 0 <= i < s.len() && s[i] == c,
    decreases s.len(),
{
    if s.len() > 0 && s[0].field != Some(name) {
        lemma_field_among(s.skip(1), name);
        if let Some(c) = field_among(s, name) {
            let i = choose|i: int| 0 <= i < s.skip(1).len() && s.skip(1)[i] == c;
            assert(s[i + 1] == c);
        }
    }
}

/// A child is smaller than its node.
pub proof fn lemma_field_smaller(t: TreeView, name: Seq<char>)
    ensures
        field_of(t, name) matches Some(c) ==> decreases_to!(t => c),
{
    lemma_field_among(t.children, name);
    if let Some(c) = field_of(t, name) {
        let i = choose|i: int| 0 <= i < t.children.len() && t.children[i] == c;
        assert(decreases_to!(t => t.children[i]));
    }
}

/// The named node among some that has `n` named ones in front of it.
pub open spec fn nth_named(s: Seq<TreeView>, n: nat) -> Option<TreeView>
    decreases s.len(),
{
    if s.len() == 0 {
        None
    } else if !s[0].named {
        nth_named(s.skip(1), n)
    } else if n == 0 {
        Some(s[0])
    } else {
        nth_named(s.skip(1), (n - 1) as nat)
    }
}

/// A named node among some is one of them.
pub proof fn lemma_nth_named(s: Seq<TreeView>, n: nat)
    ensures
        nth_named(s, n) matches Some(c) ==> exists|i: int| 0 <= i < s.len() && s[i] == c,
    decreases s.len(),
{
    if s.len() > 0 && (!s[0].named || n > 0) {
        let m: nat = if s[0].named {
            (n - 1) as nat
        } else {
            n
        };
        lemma_nth_named(s.skip(1), m);
        if let Some(c) = nth_named(s, n) {
            let i = choose|i: int| 0 <= i < s.skip(1).len() && s.skip(1)[i] == c;
            assert(s[i + 1] == c);
        }
    }
}

/// A named child is smaller than its node.
pub proof fn lemma_named_smaller(t: TreeView, n: nat)
    ensures
        nth_named(t.children, n) matches Some(c) ==> decreases_to!(t => c),
{
    lemma_nth_named(t.children, n);
    if let Some(c) = nth_named(t.children, n) {
        let i = choose|i: int| 0 <= i < t.children.len() && t.children[i] == c;
        assert(decreases_to!(t => t.children[i]));
    }
}

impl SyntaxNode {
    /// The child in a field.
    pub fn child_by_field_name(&self, name: &str) -> (r: Option<&SyntaxNode>)
        ensures
            match r {
                Some(c) => field_of(self@, name@) == Some(c@),
                None => field_of(self@, name@) is None,
            },
            r matches Some(c) ==> decreases_to!(self => c),
    {
        proof {
            lemma_forest(self.children@);
        }
        let ghost s = self@.children;
        let mut i: usize = 0;
        assert(s.skip(0) =~= s);
        while i < self.children.len()
            invariant
                i <= self.children.len(),
                s == forest_of(self.children@),
                s == self@.children,
                s.len() == self.children.len(),
                forall|j: int| 0 <= j < s.len() ==> #[trigger] s[j] == tree_of(self.children@[j]),
                field_among(s.skip(i as int), name@) == field_among(s, name@),
            decreases self.children.len() - i,
        {
            let c = &self.children[i];
            assert(s.skip(i as int)[0] == c@);
            assert(s.skip(i as int).skip(1) =~= s.skip(i + 1));
            assert(decreases_to!(self => self.children@[i as int]));
            if let Some(f) = &c.field {
                if same_text(f.as_str(), name) {
                    return Some(c);
                }
            }
            i = i + 1;
        }
        None
    }

    /// The named child that has `n` named ones in front of it.
    pub fn named_child(&self, n: usize) -> (r: Option<&SyntaxNode>)
        ensures
            match r {
                Some(c) => nth_named(self@.children, n as nat) == Some(c@),
                None => nth_named(self@.children, n as nat) is None,
            },
            r matches Some(c) ==> decreases_to!(self => c),
    {
        proof {
            lemma_forest(self.children@);
        }
        let ghost s = self@.children;
        let mut left: usize = n;
        let mut i: usize = 0;
        assert(s.skip(0) =~= s);
        while i < self.children.len()
            invariant
                i <= self.children.len(),
                s == forest_of(self.children@),
                s == self@.children,
                s.len() == self.children.len(),
                forall|j: int| 0 <= j < s.len() ==> #[trigger] s[j] == tree_of(self.children@[j]),
                nth_named(s.skip(i as int), left as nat) == nth_named(s, n as nat),
            decreases self.children.len() - i,
        {
            let c = &self.children[i];
            assert(s.skip(i as int)[0] == c@);
            assert(s.skip(i as int).skip(1) =~= s.skip(i + 1));
            assert(decreases_to!(self => self.children@[i as int]));
            if c.named {
                if left == 0 {
                    return Some(c);
                }
                left = left - 1;
            }
            i = i + 1;
        }
        None
    }

    /// The text of the child in a field, empty where there is none.
    pub fn field_text(&self, name: &str) -> (r: String)
        ensures
            r@ == field_text(self@, name@),
    {
        match self.child_by_field_name(name) {
            Some(c) => owned(c.text.as_str()),
            None => String::new(),
        }
    }

    /// Whether the node is of a kind.
    pub fn is(&self, kind: &str) -> (r: bool)
        ensures
            r == (self@.kind == kind@),
    {
        same_text(self.kind.as_str(), kind)
    }
}

/// A node as it is met when a tree is walked: its kind, its field, whether it is named, the bytes
/// where it begins and ends, and how deep it stands.
pub type FlatNode = (&'static str, Option<&'static str>, bool, usize, usize, u32);

/// What a node met on a walk holds.
pub type FlatView = (Seq<char>, Option<Seq<char>>, bool, usize, usize, u32);

/// What an optional static text holds.
pub open spec fn static_view(t: Option<&'static str>) -> Option<Seq<char>> {
    match t {
        Some(s) => Some(s@),
        None => None,
    }
}

/// What a node met on a walk holds.
pub open spec fn flat_view(n: FlatNode) -> FlatView {
    (n.0@, static_view(n.1), n.2, n.3, n.4, n.5)
}

/// What nodes met on a walk hold.
pub open spec fn flat_views(s: Seq<FlatNode>) -> Seq<FlatView> {
    s.map_values(|n: FlatNode| flat_view(n))
}

/// How many nodes in front stand deeper than `depth`.
pub open spec fn deeper(s: Seq<FlatView>, depth: u32) -> nat
    decreases s.len(),
{
    if s.len() == 0 || s[0].5 <= depth {
        0
    } else {
        1 + deeper(s.skip(1), depth)
    }
}

/// There are no more deeper nodes than nodes.
pub proof fn lemma_deeper(s: Seq<FlatView>, depth: u32)
    ensures
        deeper(s, depth) <= s.len(),
    decreases s.len(),
{
    if s.len() > 0 {
        lemma_deeper(s.skip(1), depth);
    }
}

/// The trees that a walk through a text stands for: a node's children are the deeper nodes that
/// follow it.
pub open spec fn trees_of_walk(source: Seq<char>, s: Seq<FlatView>) -> Seq<TreeView>
    decreases s.len(),
{
    if s.len() == 0 {
        Seq::empty()
    } else {
        let rest = s.skip(1);
        let n = deeper(rest, s[0].5);
        proof {
            lemma_deeper(rest, s[0].5);
        }
        seq![
            TreeView {
                kind: s[0].0,
                field: s[0].1,
                named: s[0].2,
                text: spans::text_between(source, s[0].3 as nat, s[0].4 as nat),
                span: spans::span_between(source, s[0].3 as nat, s[0].4 as nat),
                children: trees_of_walk(source, rest.take(n as int)),
            },
        ] + trees_of_walk(source, rest.skip(n as int))
    }
}

/// Copies an optional text.
fn copy_field(f: Option<&'static str>) -> (r: Option<String>)
    ensures
        text_view(r) == static_view(f),
{
    match f {
        Some(s) => Some(owned(s)),
        None => None,
    }
}

/// Pushing a node is pushing its view.
proof fn lemma_forest_push(s: Seq<SyntaxNode>, n: SyntaxNode)
    ensures
        forest_of(s.push(n)) == forest_of(s).push(tree_of(n)),
{
    assert(s.push(n).drop_last() =~= s);
}

/// Builds the trees that a part of a walk stands for.
fn build_trees(source: &Vec<char>, flat: &Vec<FlatNode>, from: usize, to: usize) -> (r: Vec<SyntaxNode>)
    requires
        from <= to <= flat.len(),
    ensures
        forest_of(r@) == trees_of_walk(source@, flat_views(flat@).subrange(from as int, to as int)),
    decreases to - from,
{
    let ghost all = flat_views(flat@);
    let mut out: Vec<SyntaxNode> = Vec::new();
    let mut i: usize = from;
    proof {
        assert(forest_of(out@) =~= Seq::<TreeView>::empty());
        assert(forest_of(out@) + trees_of_walk(source@, all.subrange(i as int, to as int)) =~= trees_of_walk(
            source@,
            all.subrange(from as int, to as int),
        ));
    }
    while i < to
        invariant
            from <= i <= to,
            to <= flat.len(),
            all == flat_views(flat@),
            forest_of(out@) + trees_of_walk(source@, all.subrange(i as int, to as int)) == trees_of_walk(
                source@,
                all.subrange(from as int, to as int),
            ),
        decreases to - i,
    {
        let depth = flat[i].5;
        let ghost s = all.subrange(i as int, to as int);
        let ghost rest = s.skip(1);
        let mut j: usize = i + 1;
        assert(rest.skip(0) =~= rest);
        while j < to && flat[j].5 > depth
            invariant
                i < j <= to,
                to <= flat.len(),
                all == flat_views(flat@),
                s == all.subrange(i as int, to as int),
                rest == s.skip(1),
                deeper(rest, depth) == (j - i - 1) + deeper(rest.skip(j - i - 1), depth),
            decreases to - j,
        {
            proof {
                let t = rest.skip(j - i - 1);
                assert(t[0] == all[j as int]);
                assert(t.skip(1) =~= rest.skip(j - i));
            }
            j = j + 1;
        }
        let ghost n = deeper(rest, depth);
        proof {
            let t = rest.skip(j - i - 1);
            if j < to {
                assert(t[0] == all[j as int]);
            }
            assert(n == j - i - 1);
            assert(rest.take(n as int) =~= all.subrange(i + 1, j as int));
            assert(rest.skip(n as int) =~= all.subrange(j as int, to as int));
        }
        let children = build_trees(source, flat, i + 1, j);
        let node = SyntaxNode {
            kind: owned(flat[i].0),
            field: copy_field(flat[i].1),
            named: flat[i].2,
            text: cut_bytes(source, flat[i].3, flat[i].4),
            span: span_from_byte_range(source, flat[i].3, flat[i].4),
            children,
        };
        let ghost before = out@;
        let ghost tv = tree_of(node);
        let ghost whole = trees_of_walk(source@, all.subrange(from as int, to as int));
        proof {
            assert(s[0] == all[i as int]);
            assert(s[0] == flat_view(flat@[i as int]));
            lemma_forest_push(before, node);
            let tail = trees_of_walk(source@, all.subrange(j as int, to as int));
            assert(trees_of_walk(source@, s) == seq![tv] + tail);
            assert(forest_of(before).push(tv) + tail =~= forest_of(before) + (seq![tv] + tail));
        }
        out.push(node);
        i = j;
    }
    proof {
        assert(all.subrange(to as int, to as int) =~= Seq::<FlatView>::empty());
        assert(forest_of(out@) =~= trees_of_walk(source@, all.subrange(from as int, to as int)));
    }
    out
}

/// Builds the tree that a walk stands for; none where the walk met no node.
pub fn tree_from_walk(source: &Vec<char>, flat: &Vec<FlatNode>) -> (r: Option<SyntaxNode>)
    ensures
        match r {
            Some(n) => flat@.len() > 0 && n@ == trees_of_walk(source@, flat_views(flat@))[0],
            None => flat@.len() == 0,
        },
{
    if flat.len() == 0 {
        return None;
    }
    let mut trees = build_trees(source, flat, 0, flat.len());
    proof {
        assert(flat_views(flat@).subrange(0, flat@.len() as int) =~= flat_views(flat@));
        lemma_forest(trees@);
    }
    Some(trees.remove(0))
}

/// A language that is parsed.
#[derive(Debug, Clone, Copy, PartialEq, Eq, Structural)]
pub enum Grammar {
    TypeScript,
    Tsx,
    Python,
    Rust,
}

/// What `tree_sitter` makes of a source: whether its tree holds an error, and the nodes that a walk
/// through the tree meets, each before its children; none where it gives no tree.
pub uninterp spec fn source_walk(grammar: Grammar, source: Seq<char>) -> Option<
    (bool, Seq<FlatView>),
>;

/// `tree_sitter::Parser::parse` with a language's grammar, and a `tree_sitter::TreeCursor` taken
/// through the tree: what they give is settled by the language and the source. That the nodes lie
/// within the source, and within each other, is left unsaid.
#[verifier::external_body]
pub(crate) fn parse_and_walk(grammar: Grammar, source: &str) -> (r: Option<(bool, Vec<FlatNode>)>)
    ensures
        r is None <==> source_walk(grammar, source@) is None,
        r is Some ==> source_walk(grammar, source@) == Some(walk_view(r->0)),
{
    let mut parser = Parser::new();
    let language = match grammar {
        Grammar::TypeScript => LANGUAGE_TYPESCRIPT, Grammar::Tsx => LANGUAGE_TSX,
        Grammar::Python => tree_sitter_python::LANGUAGE, Grammar::Rust => tree_sitter_rust::LANGUAGE,
    };
    parser.set_language(&language.into()).ok()?;
    let tree = parser.parse(source, None)?;
    let (mut out, mut at) = (Vec::new(), tree.walk());
    loop {
        let n = at.node();
        out.push((n.kind(), at.field_name(), n.is_named(), n.start_byte(), n.end_byte(), at.depth()));
        if at.goto_first_child() { continue; }
        while !at.goto_next_sibling() { if !at.goto_parent() { return Some((tree.root_node().has_error(), out)); } }
    }
}

/// What a walk holds.
pub open spec fn walk_view(w: (bool, Vec<FlatNode>)) -> (bool, Seq<FlatView>) {
    (w.0, flat_views(w.1@))
}

/// The tree of a source, and whether it holds an error.
pub open spec fn source_tree(grammar: Grammar, source: Seq<char>) -> Option<(bool, TreeView)> {
    match source_walk(grammar, source) {
        Some((bad, walk)) => if walk.len() > 0 {
            Some((bad, trees_of_walk(source, walk)[0]))
        } else {
            None
        },
        None => None,
    }
}

/// Parses a source.
pub fn parse_source(grammar: Grammar, source: &str) -> (r: Option<(bool, SyntaxNode)>)
    ensures
        match r {
            Some((bad, t)) => source_tree(grammar, source@) == Some((bad, t@)),
            None => source_tree(grammar, source@) is None,
        },
{
    match parse_and_walk(grammar, source) {
        Some((bad, flat)) => {
            let cs = chars_of(source);
            assert(flat_views(flat@).len() == flat@.len());
            match tree_from_walk(&cs, &flat) {
                Some(t) => Some((bad, t)),
                None => None,
            }
        },
        None => None,
    }
}

} // verus!
