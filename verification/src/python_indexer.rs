//! Python source files: what their syntax trees say, and what can be made out without a tree.

use crate::file_index;
use crate::file_index::{
    CallReceiver, CallView, ExtendsView, Fact, FactView, FileIndex, ImportStyle, ImportView,
    IndexView, ParsedCall, ParsedExtends, ParsedImport, ParsedUse, ReceiverView, SymbolView,
    UseView, add_fact, add_name, assign_collision_disambiguators, file_symbol_of, member_key_of,
    read_some_text, symbol_of,
};
use crate::graph::NodeKind;
use crate::language_indexer;
use crate::language_indexer::IndexError;
use crate::matched_facts;
use crate::matched_facts::note_named_functions;
use crate::regexes;
use crate::regexes::{
    Capture, CaptureView, expression_accepted, find_captures, find_captures_or_nothing,
    is_behind_point, shift,
};
use crate::spans;
use crate::spans::{cut_bytes, cut_from, span_from_byte_range};
use crate::syntax;
use crate::syntax::{Grammar, SyntaxNode, TreeView, parse_source};
use crate::text;
use crate::text::{
    chars_of, chars_replace, chars_split, chars_trim_start, owned, same_text, text_before,
    text_begins_with, text_contains, text_drop_endings, text_of, text_strip, text_trim,
};
use vstd::prelude::*;

verus! {

/// What is called: a name, or an attribute of what is called.
pub open spec fn py_receiver(t: TreeView) -> Option<ReceiverView>
    decreases t,
{
    if t.kind == "identifier"@ {
        Some(ReceiverView::Bare(t.text))
    } else if t.kind == "attribute"@ {
        proof {
            syntax::lemma_field_smaller(t, "object"@);
        }
        match (syntax::field_of(t, "object"@), syntax::field_of(t, "attribute"@)) {
            (Some(o), Some(a)) => match py_receiver(o) {
                Some(r) => Some(ReceiverView::Attr { object: Box::new(r), name: a.text }),
                None => None,
            },
            _ => None,
        }
    } else {
        None
    }
}

/// Reads what is called.
fn parse_call_receiver(node: &SyntaxNode) -> (r: Option<CallReceiver>)
    ensures
        match r {
            Some(c) => py_receiver(node@) == Some(c@),
            None => py_receiver(node@) is None,
        },
    decreases node,
{
    if node.is("identifier") {
        Some(CallReceiver::Bare(owned(node.text.as_str())))
    } else if node.is("attribute") {
        match (node.child_by_field_name("object"), node.child_by_field_name("attribute")) {
            (Some(o), Some(a)) => match parse_call_receiver(o) {
                Some(c) => Some(
                    CallReceiver::Attr { object: Box::new(c), name: owned(a.text.as_str()) },
                ),
                None => None,
            },
            _ => None,
        }
    } else {
        None
    }
}

/// The type that an annotation names: the last part of a name with points.
pub open spec fn py_annotation(t: TreeView) -> Option<Seq<char>>
    decreases t,
{
    if t.kind == "type"@ {
        proof {
            syntax::lemma_named_smaller(t, 0);
        }
        match syntax::nth_named(t.children, 0) {
            Some(c) => py_annotation(c),
            None => None,
        }
    } else if t.kind == "identifier"@ {
        Some(t.text)
    } else if t.kind == "attribute"@ {
        Some(text::pieces(t.text, '.').last())
    } else {
        None
    }
}

/// Reads the type that an annotation names.
fn type_from_annotation(node: &SyntaxNode) -> (r: Option<String>)
    ensures
        syntax::text_view(r) == py_annotation(node@),
    decreases node,
{
    if node.is("type") {
        match node.named_child(0) {
            Some(c) => type_from_annotation(c),
            None => None,
        }
    } else if node.is("identifier") {
        Some(owned(node.text.as_str()))
    } else if node.is("attribute") {
        let cs = chars_of(node.text.as_str());
        let parts = chars_split(&cs, '.');
        proof {
            text::lemma_pieces_nonempty(cs@, '.');
            assert(text::chars_views(parts@).last() == parts@.last()@);
        }
        Some(text_of(&parts[parts.len() - 1]))
    } else {
        None
    }
}

/// The type that a value is made by: the first name of what is called for it, or of which it is an
/// attribute.
pub open spec fn py_made_by(t: TreeView) -> Option<Seq<char>> {
    let f = if t.kind == "call"@ {
        syntax::field_of(t, "function"@)
    } else if t.kind == "attribute"@ {
        Some(t)
    } else {
        None
    };
    match f {
        Some(c) => match py_receiver(c) {
            Some(r) => Some(file_index::root_of(r)),
            None => None,
        },
        None => None,
    }
}

/// Reads the type that a value is made by.
fn infer_type_from_expr(node: &SyntaxNode) -> (r: Option<String>)
    ensures
        syntax::text_view(r) == py_made_by(node@),
{
    let f = if node.is("call") {
        node.child_by_field_name("function")
    } else if node.is("attribute") {
        Some(node)
    } else {
        None
    };
    match f {
        Some(c) => match parse_call_receiver(c) {
            Some(r) => Some(owned(r.root_bare_name())),
            None => None,
        },
        None => None,
    }
}

/// The attribute of `self` that a node names.
pub open spec fn py_self_field(t: TreeView) -> Option<Seq<char>> {
    if t.kind == "attribute"@ {
        match (syntax::field_of(t, "object"@), syntax::field_of(t, "attribute"@)) {
            (Some(o), Some(a)) => if o.kind == "identifier"@ && o.text == "self"@ {
                Some(a.text)
            } else {
                None
            },
            _ => None,
        }
    } else {
        None
    }
}

/// Reads the attribute of `self` that a node names.
fn self_field_from_target(node: &SyntaxNode) -> (r: Option<String>)
    ensures
        syntax::text_view(r) == py_self_field(node@),
{
    if !node.is("attribute") {
        return None;
    }
    match (node.child_by_field_name("object"), node.child_by_field_name("attribute")) {
        (Some(o), Some(a)) => {
            if o.is("identifier") && same_text(o.text.as_str(), "self") {
                Some(owned(a.text.as_str()))
            } else {
                None
            }
        },
        _ => None,
    }
}

/// The type that the value of an assignment is said to have, or else is made by.
pub open spec fn py_assigned_type(t: TreeView) -> Option<Seq<char>> {
    let stated = match syntax::field_of(t, "type"@) {
        Some(a) => py_annotation(a),
        None => None,
    };
    match stated {
        Some(n) => Some(n),
        None => match syntax::field_of(t, "value"@) {
            Some(v) => py_made_by(v),
            None => None,
        },
    }
}

/// Reads the type of the value of an assignment.
fn assigned_type(node: &SyntaxNode) -> (r: Option<String>)
    ensures
        syntax::text_view(r) == py_assigned_type(node@),
{
    let stated = match node.child_by_field_name("type") {
        Some(a) => type_from_annotation(a),
        None => None,
    };
    match stated {
        Some(n) => Some(n),
        None => match node.child_by_field_name("value") {
            Some(v) => infer_type_from_expr(v),
            None => None,
        },
    }
}

/// The attribute that an assignment sets.
pub open spec fn py_target(t: TreeView) -> Option<Seq<char>> {
    let f = if t.kind == "assignment"@ {
        syntax::field_of(t, "left"@)
    } else if t.kind == "annotated_assignment"@ {
        syntax::field_of(t, "name"@)
    } else {
        None
    };
    match f {
        Some(c) => py_self_field(c),
        None => None,
    }
}

/// The type that an assignment gives.
pub open spec fn py_given_type(t: TreeView) -> Option<Seq<char>> {
    if t.kind == "assignment"@ {
        match syntax::field_of(t, "right"@) {
            Some(v) => py_made_by(v),
            None => None,
        }
    } else if t.kind == "annotated_assignment"@ {
        py_assigned_type(t)
    } else {
        None
    }
}

/// The field that a node itself sets.
pub open spec fn py_own_fields(t: TreeView, class: Seq<char>) -> Seq<FactView> {
    match (py_target(t), py_given_type(t)) {
        (Some(field), Some(type_ref)) => if type_ref == "self"@ {
            Seq::empty()
        } else {
            seq![FactView::Field { class, field, type_ref }]
        },
        _ => Seq::empty(),
    }
}

/// Notes the field that a node itself sets.
fn own_fields(node: &SyntaxNode, class: &str, facts: &mut Vec<Fact>)
    ensures
        file_index::fact_views(final(facts)@) == file_index::fact_views(old(facts)@) + py_own_fields(node@, class@),
{
    let ghost start = file_index::fact_views(facts@);
    let target = if node.is("assignment") {
        node.child_by_field_name("left")
    } else if node.is("annotated_assignment") {
        node.child_by_field_name("name")
    } else {
        None
    };
    let field = match target {
        Some(c) => self_field_from_target(c),
        None => None,
    };
    let given = if node.is("assignment") {
        match node.child_by_field_name("right") {
            Some(v) => infer_type_from_expr(v),
            None => None,
        }
    } else if node.is("annotated_assignment") {
        assigned_type(node)
    } else {
        None
    };
    assert(syntax::text_view(field) == py_target(node@));
    assert(syntax::text_view(given) == py_given_type(node@));
    if let (Some(field), Some(type_ref)) = (field, given) {
        if !same_text(type_ref.as_str(), "self") {
            add_fact(facts, Fact::Field { class_key: owned(class), field, type_ref });
        }
    }
    assert(file_index::fact_views(facts@) =~= start + py_own_fields(node@, class@));
}

/// The fields that a tree sets.
pub open spec fn py_fields(t: TreeView, class: Seq<char>) -> Seq<FactView>
    decreases t,
{
    py_own_fields(t, class) + py_fields_all(t.children, class)
}

/// The fields that named trees set.
pub open spec fn py_fields_all(s: Seq<TreeView>, class: Seq<char>) -> Seq<FactView>
    decreases s,
{
    if s.len() == 0 {
        Seq::empty()
    } else if s.last().named {
        py_fields_all(s.drop_last(), class) + py_fields(s.last(), class)
    } else {
        py_fields_all(s.drop_last(), class)
    }
}

/// Notes the fields that a tree sets.
fn visit_instance_fields(
    node: &SyntaxNode,
    class: &str,
    facts: &mut Vec<Fact>,
)
    ensures
        file_index::fact_views(final(facts)@) == file_index::fact_views(old(facts)@) + py_fields(node@, class@),
    decreases node,
{
    let ghost start = file_index::fact_views(facts@);
    own_fields(node, class, facts);
    let ghost base = file_index::fact_views(facts@);
    let ghost s = node@.children;
    let mut i: usize = 0;
    proof {
        syntax::lemma_forest(node.children@);
        assert(s.take(0) =~= Seq::<TreeView>::empty());
        assert(base + py_fields_all(s.take(0), class@) =~= base);
    }
    while i < node.children.len()
        invariant
            i <= node.children.len(),
            s == syntax::forest_of(node.children@),
            s.len() == node.children.len(),
            forall|j: int| 0 <= j < s.len() ==> #[trigger] s[j] == syntax::tree_of(node.children@[j]),
            file_index::fact_views(facts@) == base + py_fields_all(s.take(i as int), class@),
        decreases node.children.len() - i,
    {
        let c = &node.children[i];
        let ghost before = file_index::fact_views(facts@);
        proof {
            assert(decreases_to!(node => node.children@[i as int]));
            assert(s.take(i + 1).drop_last() =~= s.take(i as int));
            assert(s.take(i + 1).last() == c@);
        }
        if c.named {
            visit_instance_fields(c, class, facts);
            assert(file_index::fact_views(facts@) =~= base + py_fields_all(s.take(i + 1), class@));
        }
        i = i + 1;
    }
    proof {
        assert(s.take(s.len() as int) =~= s);
        assert(file_index::fact_views(facts@) =~= start + py_fields(node@, class@));
    }
}

/// The first argument among some nodes.
pub open spec fn py_first_argument(s: Seq<TreeView>) -> Option<TreeView>
    decreases s.len(),
{
    if s.len() == 0 {
        None
    } else if s[0].named && s[0].kind != "comment"@ {
        Some(s[0])
    } else {
        py_first_argument(s.skip(1))
    }
}

/// Finds the first argument of a call.
fn first_call_argument(node: &SyntaxNode) -> (r: Option<&SyntaxNode>)
    ensures
        match r {
            Some(c) => py_first_argument(node@.children) == Some(c@),
            None => py_first_argument(node@.children) is None,
        },
{
    proof {
        syntax::lemma_forest(node.children@);
    }
    let ghost s = node@.children;
    let mut i: usize = 0;
    assert(s.skip(0) =~= s);
    while i < node.children.len()
        invariant
            i <= node.children.len(),
            s == syntax::forest_of(node.children@),
            s == node@.children,
            s.len() == node.children.len(),
            forall|j: int| 0 <= j < s.len() ==> #[trigger] s[j] == syntax::tree_of(node.children@[j]),
            py_first_argument(s.skip(i as int)) == py_first_argument(s),
        decreases node.children.len() - i,
    {
        let c = &node.children[i];
        assert(s.skip(i as int)[0] == c@);
        assert(s.skip(i as int).skip(1) =~= s.skip(i + 1));
        if c.named && !c.is("comment") {
            return Some(c);
        }
        i = i + 1;
    }
    None
}

/// The list that a call puts something on.
pub open spec fn py_appended_list(t: TreeView) -> Option<Seq<char>> {
    if t.kind != "call"@ {
        None
    } else {
        match syntax::field_of(t, "function"@) {
            Some(f) => match (syntax::field_of(f, "attribute"@), syntax::field_of(f, "object"@)) {
                (Some(m), Some(l)) => if f.kind == "attribute"@ && m.text == "append"@ && l.kind
                    == "identifier"@ {
                    Some(l.text)
                } else {
                    None
                },
                _ => None,
            },
            None => None,
        }
    }
}

/// Reads the list that a call puts something on.
fn appended_list(node: &SyntaxNode) -> (r: Option<String>)
    ensures
        syntax::text_view(r) == py_appended_list(node@),
{
    if !node.is("call") {
        return None;
    }
    match node.child_by_field_name("function") {
        Some(f) => match (f.child_by_field_name("attribute"), f.child_by_field_name("object")) {
            (Some(m), Some(l)) => {
                if f.is("attribute") && same_text(m.text.as_str(), "append") && l.is("identifier") {
                    Some(owned(l.text.as_str()))
                } else {
                    None
                }
            },
            _ => None,
        },
        None => None,
    }
}

/// The type of the first argument of a call.
pub open spec fn py_argument_type(t: TreeView) -> Option<Seq<char>> {
    match syntax::field_of(t, "arguments"@) {
        Some(a) => match py_first_argument(a.children) {
            Some(c) => py_made_by(c),
            None => None,
        },
        None => None,
    }
}

/// Reads the type of the first argument of a call.
fn argument_type(node: &SyntaxNode) -> (r: Option<String>)
    ensures
        syntax::text_view(r) == py_argument_type(node@),
{
    match node.child_by_field_name("arguments") {
        Some(a) => match first_call_argument(a) {
            Some(c) => infer_type_from_expr(c),
            None => None,
        },
        None => None,
    }
}

/// The element that a node itself puts on a list.
pub open spec fn py_own_appends(t: TreeView) -> Seq<FactView> {
    match (py_appended_list(t), py_argument_type(t)) {
        (Some(list), Some(type_ref)) => if type_ref == "self"@ {
            Seq::empty()
        } else {
            seq![FactView::Element { list, type_ref }]
        },
        _ => Seq::empty(),
    }
}

/// Notes the element that a node itself puts on a list.
fn record_list_append(node: &SyntaxNode, facts: &mut Vec<Fact>)
    ensures
        file_index::fact_views(final(facts)@) == file_index::fact_views(old(facts)@) + py_own_appends(node@),
{
    let ghost start = file_index::fact_views(facts@);
    if let (Some(list), Some(type_ref)) = (appended_list(node), argument_type(node)) {
        if !same_text(type_ref.as_str(), "self") {
            add_fact(facts, Fact::Element { list, type_ref });
        }
    }
    assert(file_index::fact_views(facts@) =~= start + py_own_appends(node@));
}

/// The elements that a tree puts on lists.
pub open spec fn py_appends(t: TreeView) -> Seq<FactView>
    decreases t,
{
    py_own_appends(t) + py_appends_all(t.children)
}

/// The elements that named trees put on lists.
pub open spec fn py_appends_all(s: Seq<TreeView>) -> Seq<FactView>
    decreases s,
{
    if s.len() == 0 {
        Seq::empty()
    } else if s.last().named {
        py_appends_all(s.drop_last()) + py_appends(s.last())
    } else {
        py_appends_all(s.drop_last())
    }
}

/// Notes the elements that a tree puts on lists.
fn collect_list_appends(
    node: &SyntaxNode,
    facts: &mut Vec<Fact>,
)
    ensures
        file_index::fact_views(final(facts)@) == file_index::fact_views(old(facts)@) + py_appends(node@),
    decreases node,
{
    let ghost start = file_index::fact_views(facts@);
    record_list_append(node, facts);
    let ghost base = file_index::fact_views(facts@);
    let ghost s = node@.children;
    let mut i: usize = 0;
    proof {
        syntax::lemma_forest(node.children@);
        assert(s.take(0) =~= Seq::<TreeView>::empty());
        assert(base + py_appends_all(s.take(0)) =~= base);
    }
    while i < node.children.len()
        invariant
            i <= node.children.len(),
            s == syntax::forest_of(node.children@),
            s.len() == node.children.len(),
            forall|j: int| 0 <= j < s.len() ==> #[trigger] s[j] == syntax::tree_of(node.children@[j]),
            file_index::fact_views(facts@) == base + py_appends_all(s.take(i as int)),
        decreases node.children.len() - i,
    {
        let c = &node.children[i];
        let ghost before = file_index::fact_views(facts@);
        proof {
            assert(decreases_to!(node => node.children@[i as int]));
            assert(s.take(i + 1).drop_last() =~= s.take(i as int));
            assert(s.take(i + 1).last() == c@);
        }
        if c.named {
            collect_list_appends(c, facts);
            assert(file_index::fact_views(facts@) =~= base + py_appends_all(s.take(i + 1)));
        }
        i = i + 1;
    }
    proof {
        assert(s.take(s.len() as int) =~= s);
        assert(file_index::fact_views(facts@) =~= start + py_appends(node@));
    }
}

/// The variable with which a node itself runs over a list.
pub open spec fn py_own_loops(t: TreeView, function: Seq<char>) -> Seq<FactView> {
    if t.kind != "for_statement"@ {
        Seq::empty()
    } else {
        match (syntax::field_of(t, "left"@), syntax::field_of(t, "right"@)) {
            (Some(l), Some(r)) => if l.kind == "identifier"@ && r.kind == "identifier"@ {
                seq![FactView::LoopVar { function, var: l.text, list: r.text }]
            } else {
                Seq::empty()
            },
            _ => Seq::empty(),
        }
    }
}

/// Notes the variable with which a node itself runs over a list.
fn record_for_loop_binding(node: &SyntaxNode, function: &str, facts: &mut Vec<Fact>)
    ensures
        file_index::fact_views(final(facts)@) == file_index::fact_views(old(facts)@) + py_own_loops(node@, function@),
{
    let ghost start = file_index::fact_views(facts@);
    if node.is("for_statement") {
        if let (Some(l), Some(r)) = (
            node.child_by_field_name("left"),
            node.child_by_field_name("right"),
        ) {
            if l.is("identifier") && r.is("identifier") {
                add_fact(
                    facts,
                    Fact::LoopVar {
                        function: owned(function),
                        var: owned(l.text.as_str()),
                        list: owned(r.text.as_str()),
                    },
                );
            }
        }
    }
    assert(file_index::fact_views(facts@) =~= start + py_own_loops(node@, function@));
}

/// The variables with which a tree runs over lists.
pub open spec fn py_loops(t: TreeView, function: Seq<char>) -> Seq<FactView>
    decreases t,
{
    py_own_loops(t, function) + py_loops_all(t.children, function)
}

/// The variables with which named trees run over lists.
pub open spec fn py_loops_all(s: Seq<TreeView>, function: Seq<char>) -> Seq<FactView>
    decreases s,
{
    if s.len() == 0 {
        Seq::empty()
    } else if s.last().named {
        py_loops_all(s.drop_last(), function) + py_loops(s.last(), function)
    } else {
        py_loops_all(s.drop_last(), function)
    }
}

/// Notes the variables with which a tree runs over lists.
fn bind_for_loop_vars(
    node: &SyntaxNode,
    function: &str,
    facts: &mut Vec<Fact>,
)
    ensures
        file_index::fact_views(final(facts)@) == file_index::fact_views(old(facts)@) + py_loops(node@, function@),
    decreases node,
{
    let ghost start = file_index::fact_views(facts@);
    record_for_loop_binding(node, function, facts);
    let ghost base = file_index::fact_views(facts@);
    let ghost s = node@.children;
    let mut i: usize = 0;
    proof {
        syntax::lemma_forest(node.children@);
        assert(s.take(0) =~= Seq::<TreeView>::empty());
        assert(base + py_loops_all(s.take(0), function@) =~= base);
    }
    while i < node.children.len()
        invariant
            i <= node.children.len(),
            s == syntax::forest_of(node.children@),
            s.len() == node.children.len(),
            forall|j: int| 0 <= j < s.len() ==> #[trigger] s[j] == syntax::tree_of(node.children@[j]),
            file_index::fact_views(facts@) == base + py_loops_all(s.take(i as int), function@),
        decreases node.children.len() - i,
    {
        let c = &node.children[i];
        let ghost before = file_index::fact_views(facts@);
        proof {
            assert(decreases_to!(node => node.children@[i as int]));
            assert(s.take(i + 1).drop_last() =~= s.take(i as int));
            assert(s.take(i + 1).last() == c@);
        }
        if c.named {
            bind_for_loop_vars(c, function, facts);
            assert(file_index::fact_views(facts@) =~= base + py_loops_all(s.take(i + 1), function@));
        }
        i = i + 1;
    }
    proof {
        assert(s.take(s.len() as int) =~= s);
        assert(file_index::fact_views(facts@) =~= start + py_loops(node@, function@));
    }
}

/// The name of a type.
pub open spec fn py_type_of(t: TreeView) -> Option<Seq<char>> {
    if t.kind == "identifier"@ {
        file_index::some_text(t.text)
    } else if t.kind == "attribute"@ {
        match syntax::field_of(t, "attribute"@) {
            Some(a) => file_index::some_text(a.text),
            None => None,
        }
    } else {
        None
    }
}

/// Reads the name of a type.
fn simple_type_name_from_node(node: &SyntaxNode) -> (r: Option<String>)
    ensures
        syntax::text_view(r) == py_type_of(node@),
{
    if node.is("identifier") {
        read_some_text(node.text.as_str())
    } else if node.is("attribute") {
        match node.child_by_field_name("attribute") {
            Some(a) => read_some_text(a.text.as_str()),
            None => None,
        }
    } else {
        None
    }
}

/// The use of a type that a node is.
pub open spec fn py_type_use(t: TreeView, owner: Seq<char>) -> Seq<FactView> {
    match py_type_of(t) {
        Some(n) => seq![FactView::Use(UseView { owner, type_ref: n, span: t.span })],
        None => Seq::empty(),
    }
}

/// Notes the use of a type that a node is.
fn record_type_use(node: &SyntaxNode, owner: &str, facts: &mut Vec<Fact>)
    ensures
        file_index::fact_views(final(facts)@) == file_index::fact_views(old(facts)@) + py_type_use(node@, owner@),
{
    let ghost start = file_index::fact_views(facts@);
    if let Some(n) = simple_type_name_from_node(node) {
        add_fact(
            facts,
            Fact::Use(ParsedUse { owner_stable_key: owned(owner), type_ref: n, span: node.span }),
        );
    }
    assert(file_index::fact_views(facts@) =~= start + py_type_use(node@, owner@));
}

/// The uses of types that a node itself states.
pub open spec fn py_own_types(t: TreeView, owner: Seq<char>) -> Seq<FactView> {
    if t.kind == "typed_parameter"@ {
        match syntax::field_of(t, "type"@) {
            Some(c) => py_type_use(c, owner),
            None => Seq::empty(),
        }
    } else if t.kind == "type"@ {
        py_type_use(t, owner)
    } else {
        Seq::empty()
    }
}

/// Notes the uses of types that a node itself states.
fn own_types(node: &SyntaxNode, owner: &str, facts: &mut Vec<Fact>)
    ensures
        file_index::fact_views(final(facts)@) == file_index::fact_views(old(facts)@) + py_own_types(node@, owner@),
{
    let ghost start = file_index::fact_views(facts@);
    if node.is("typed_parameter") {
        if let Some(c) = node.child_by_field_name("type") {
            record_type_use(c, owner, facts);
        }
    } else if node.is("type") {
        record_type_use(node, owner, facts);
    }
    assert(file_index::fact_views(facts@) =~= start + py_own_types(node@, owner@));
}

/// The uses of types in a tree.
pub open spec fn py_types(t: TreeView, owner: Seq<char>) -> Seq<FactView>
    decreases t,
{
    py_own_types(t, owner) + py_types_all(t.children, owner)
}

/// The uses of types in named trees.
pub open spec fn py_types_all(s: Seq<TreeView>, owner: Seq<char>) -> Seq<FactView>
    decreases s,
{
    if s.len() == 0 {
        Seq::empty()
    } else if s.last().named {
        py_types_all(s.drop_last(), owner) + py_types(s.last(), owner)
    } else {
        py_types_all(s.drop_last(), owner)
    }
}

/// Notes the uses of types in a tree.
fn visit_type_uses(
    node: &SyntaxNode,
    owner: &str,
    facts: &mut Vec<Fact>,
)
    ensures
        file_index::fact_views(final(facts)@) == file_index::fact_views(old(facts)@) + py_types(node@, owner@),
    decreases node,
{
    let ghost start = file_index::fact_views(facts@);
    own_types(node, owner, facts);
    let ghost base = file_index::fact_views(facts@);
    let ghost s = node@.children;
    let mut i: usize = 0;
    proof {
        syntax::lemma_forest(node.children@);
        assert(s.take(0) =~= Seq::<TreeView>::empty());
        assert(base + py_types_all(s.take(0), owner@) =~= base);
    }
    while i < node.children.len()
        invariant
            i <= node.children.len(),
            s == syntax::forest_of(node.children@),
            s.len() == node.children.len(),
            forall|j: int| 0 <= j < s.len() ==> #[trigger] s[j] == syntax::tree_of(node.children@[j]),
            file_index::fact_views(facts@) == base + py_types_all(s.take(i as int), owner@),
        decreases node.children.len() - i,
    {
        let c = &node.children[i];
        let ghost before = file_index::fact_views(facts@);
        proof {
            assert(decreases_to!(node => node.children@[i as int]));
            assert(s.take(i + 1).drop_last() =~= s.take(i as int));
            assert(s.take(i + 1).last() == c@);
        }
        if c.named {
            visit_type_uses(c, owner, facts);
            assert(file_index::fact_views(facts@) =~= base + py_types_all(s.take(i + 1), owner@));
        }
        i = i + 1;
    }
    proof {
        assert(s.take(s.len() as int) =~= s);
        assert(file_index::fact_views(facts@) =~= start + py_types(node@, owner@));
    }
}

/// The call that a node itself is; a test of a value's type is a use of the type.
pub open spec fn py_own_calls(t: TreeView, caller: Seq<char>) -> Seq<FactView> {
    if t.kind != "call"@ {
        Seq::empty()
    } else {
        match syntax::field_of(t, "function"@) {
            Some(f) => match py_receiver(f) {
                Some(r) => if file_index::leaf_of(r) == "isinstance"@ {
                    match syntax::field_of(t, "arguments"@) {
                        Some(a) => match syntax::nth_named(a.children, 1) {
                            Some(c) => py_type_use(c, caller),
                            None => Seq::empty(),
                        },
                        None => Seq::empty(),
                    }
                } else if file_index::leaf_of(r) == "print"@ || file_index::leaf_of(r) == "super"@ {
                    Seq::empty()
                } else {
                    seq![FactView::Call(CallView { caller, callee: r, span: t.span })]
                },
                None => Seq::empty(),
            },
            None => Seq::empty(),
        }
    }
}

/// Notes the call that a node itself is.
fn own_calls(node: &SyntaxNode, caller: &str, facts: &mut Vec<Fact>)
    ensures
        file_index::fact_views(final(facts)@) == file_index::fact_views(old(facts)@) + py_own_calls(node@, caller@),
{
    let ghost start = file_index::fact_views(facts@);
    if node.is("call") {
        if let Some(f) = node.child_by_field_name("function") {
            if let Some(callee) = parse_call_receiver(f) {
                let leaf = owned(callee.leaf_name());
                if same_text(leaf.as_str(), "isinstance") {
                    if let Some(a) = node.child_by_field_name("arguments") {
                        if let Some(c) = a.named_child(1) {
                            record_type_use(c, caller, facts);
                        }
                    }
                } else if !same_text(leaf.as_str(), "print") && !same_text(
                    leaf.as_str(),
                    "super",
                ) {
                    add_fact(
                        facts,
                        Fact::Call(
                            ParsedCall {
                                caller_stable_key: owned(caller),
                                callee,
                                span: node.span,
                            },
                        ),
                    );
                }
            }
        }
    }
    assert(file_index::fact_views(facts@) =~= start + py_own_calls(node@, caller@));
}

/// The calls in a tree.
pub open spec fn py_calls(t: TreeView, caller: Seq<char>) -> Seq<FactView>
    decreases t,
{
    py_own_calls(t, caller) + py_calls_all(t.children, caller)
}

/// The calls in named trees.
pub open spec fn py_calls_all(s: Seq<TreeView>, caller: Seq<char>) -> Seq<FactView>
    decreases s,
{
    if s.len() == 0 {
        Seq::empty()
    } else if s.last().named {
        py_calls_all(s.drop_last(), caller) + py_calls(s.last(), caller)
    } else {
        py_calls_all(s.drop_last(), caller)
    }
}

/// Notes the calls in a tree.
fn visit_calls(
    node: &SyntaxNode,
    caller: &str,
    facts: &mut Vec<Fact>,
)
    ensures
        file_index::fact_views(final(facts)@) == file_index::fact_views(old(facts)@) + py_calls(node@, caller@),
    decreases node,
{
    let ghost start = file_index::fact_views(facts@);
    own_calls(node, caller, facts);
    let ghost base = file_index::fact_views(facts@);
    let ghost s = node@.children;
    let mut i: usize = 0;
    proof {
        syntax::lemma_forest(node.children@);
        assert(s.take(0) =~= Seq::<TreeView>::empty());
        assert(base + py_calls_all(s.take(0), caller@) =~= base);
    }
    while i < node.children.len()
        invariant
            i <= node.children.len(),
            s == syntax::forest_of(node.children@),
            s.len() == node.children.len(),
            forall|j: int| 0 <= j < s.len() ==> #[trigger] s[j] == syntax::tree_of(node.children@[j]),
            file_index::fact_views(facts@) == base + py_calls_all(s.take(i as int), caller@),
        decreases node.children.len() - i,
    {
        let c = &node.children[i];
        let ghost before = file_index::fact_views(facts@);
        proof {
            assert(decreases_to!(node => node.children@[i as int]));
            assert(s.take(i + 1).drop_last() =~= s.take(i as int));
            assert(s.take(i + 1).last() == c@);
        }
        if c.named {
            visit_calls(c, caller, facts);
            assert(file_index::fact_views(facts@) =~= base + py_calls_all(s.take(i + 1), caller@));
        }
        i = i + 1;
    }
    proof {
        assert(s.take(s.len() as int) =~= s);
        assert(file_index::fact_views(facts@) =~= start + py_calls(node@, caller@));
    }
}

/// The base that a node names; nothing is said of `object`.
pub open spec fn py_base(t: TreeView, class: Seq<char>) -> Seq<FactView> {
    match py_type_of(t) {
        Some(base) => if base == "object"@ {
            Seq::empty()
        } else {
            seq![FactView::Extends(ExtendsView { class, base, span: t.span })]
        },
        None => Seq::empty(),
    }
}

/// Notes the base that a node names.
fn note_base(node: &SyntaxNode, class: &str, facts: &mut Vec<Fact>)
    ensures
        file_index::fact_views(final(facts)@) == file_index::fact_views(old(facts)@) + py_base(node@, class@),
{
    let ghost start = file_index::fact_views(facts@);
    if let Some(base_name) = simple_type_name_from_node(node) {
        if !same_text(base_name.as_str(), "object") {
            add_fact(
                facts,
                Fact::Extends(
                    ParsedExtends { class_stable_key: owned(class), base_name, span: node.span },
                ),
            );
        }
    }
    assert(file_index::fact_views(facts@) =~= start + py_base(node@, class@));
}

/// The bases that named nodes name.
pub open spec fn py_bases(s: Seq<TreeView>, class: Seq<char>) -> Seq<FactView>
    decreases s.len(),
{
    if s.len() == 0 {
        Seq::empty()
    } else if s.last().named {
        py_bases(s.drop_last(), class) + py_base(s.last(), class)
    } else {
        py_bases(s.drop_last(), class)
    }
}

/// Notes the bases that the children of a node name.
fn note_bases(
    node: &SyntaxNode,
    class: &str,
    facts: &mut Vec<Fact>,
)
    ensures
        file_index::fact_views(final(facts)@) == file_index::fact_views(old(facts)@) + py_bases(node@.children, class@),
{
    let ghost base = file_index::fact_views(facts@);
    let ghost s = node@.children;
    let mut i: usize = 0;
    proof {
        syntax::lemma_forest(node.children@);
        assert(s.take(0) =~= Seq::<TreeView>::empty());
        assert(base + py_bases(s.take(0), class@) =~= base);
    }
    while i < node.children.len()
        invariant
            i <= node.children.len(),
            s == syntax::forest_of(node.children@),
            s.len() == node.children.len(),
            forall|j: int| 0 <= j < s.len() ==> #[trigger] s[j] == syntax::tree_of(node.children@[j]),
            file_index::fact_views(facts@) == base + py_bases(s.take(i as int), class@),
        decreases node.children.len() - i,
    {
        let c = &node.children[i];
        proof {
            assert(s.take(i + 1).drop_last() =~= s.take(i as int));
            assert(s.take(i + 1).last() == c@);
        }
        if c.named {
            note_base(c, class, facts);
            assert(file_index::fact_views(facts@) =~= base + py_bases(s.take(i + 1), class@));
        }
        i = i + 1;
    }
    assert(s.take(s.len() as int) =~= s);
}

/// The uses of types in a field of a node.
pub open spec fn py_types_at(t: TreeView, field: Seq<char>, owner: Seq<char>) -> Seq<FactView> {
    match syntax::field_of(t, field) {
        Some(c) => py_types(c, owner),
        None => Seq::empty(),
    }
}

/// Notes the uses of types in a field of a node.
fn types_at(
    node: &SyntaxNode,
    field: &str,
    owner: &str,
    facts: &mut Vec<Fact>,
)
    ensures
        file_index::fact_views(final(facts)@) == file_index::fact_views(old(facts)@) + py_types_at(node@, field@, owner@),
{
    match node.child_by_field_name(field) {
        Some(c) => visit_type_uses(c, owner, facts),
        None => {
            assert(file_index::fact_views(facts@) + Seq::<FactView>::empty() =~= file_index::fact_views(facts@));
        },
    }
}

/// The use of a type that a field of a node is.
pub open spec fn py_type_use_at(t: TreeView, field: Seq<char>, owner: Seq<char>) -> Seq<FactView> {
    match syntax::field_of(t, field) {
        Some(c) => py_type_use(c, owner),
        None => Seq::empty(),
    }
}

/// Notes the use of a type that a field of a node is.
fn type_use_at(
    node: &SyntaxNode,
    field: &str,
    owner: &str,
    facts: &mut Vec<Fact>,
)
    ensures
        file_index::fact_views(final(facts)@) == file_index::fact_views(old(facts)@) + py_type_use_at(node@, field@, owner@),
{
    match node.child_by_field_name(field) {
        Some(c) => record_type_use(c, owner, facts),
        None => {
            assert(file_index::fact_views(facts@) + Seq::<FactView>::empty() =~= file_index::fact_views(facts@));
        },
    }
}

/// The key of what is defined under a name: behind the class that it stands in, if any.
pub open spec fn scoped_key(in_class: bool, class: Seq<char>, name: Seq<char>) -> Seq<char> {
    if in_class {
        file_index::member_key(class, name)
    } else {
        name
    }
}

/// Builds the key of what is defined under a name.
fn scoped_key_of(in_class: bool, class: &str, name: &str) -> (r: String)
    ensures
        r@ == scoped_key(in_class, class@, name@),
{
    if in_class {
        member_key_of(class, name)
    } else {
        owned(name)
    }
}

/// What a block of a function states: what it puts on lists, how it runs over them, what it calls,
/// and which fields of its class it sets.
pub open spec fn py_body(t: TreeView, key: Seq<char>, class: Seq<char>) -> Seq<FactView> {
    py_appends(t) + py_loops(t, key) + py_calls(t, key) + (if class.len() > 0 {
        py_fields(t, class)
    } else {
        Seq::empty()
    })
}

/// Notes what a block of a function states.
fn note_body(node: &SyntaxNode, key: &str, class: &str, facts: &mut Vec<Fact>)
    ensures
        file_index::fact_views(final(facts)@) == file_index::fact_views(old(facts)@) + py_body(node@, key@, class@),
{
    let ghost start = file_index::fact_views(facts@);
    collect_list_appends(node, facts);
    bind_for_loop_vars(node, key, facts);
    visit_calls(node, key, facts);
    let cs = chars_of(class);
    if cs.len() > 0 {
        visit_instance_fields(node, class, facts);
    }
    assert(file_index::fact_views(facts@) =~= start + py_body(node@, key@, class@));
}

/// What the blocks among some nodes state.
pub open spec fn py_bodies(s: Seq<TreeView>, key: Seq<char>, class: Seq<char>) -> Seq<FactView>
    decreases s.len(),
{
    if s.len() == 0 {
        Seq::empty()
    } else if s.last().named && s.last().kind == "block"@ {
        py_bodies(s.drop_last(), key, class) + py_body(s.last(), key, class)
    } else {
        py_bodies(s.drop_last(), key, class)
    }
}

/// Notes what the blocks of a function state.
fn note_bodies(
    node: &SyntaxNode,
    key: &str,
    class: &str,
    facts: &mut Vec<Fact>,
)
    ensures
        file_index::fact_views(final(facts)@) == file_index::fact_views(old(facts)@) + py_bodies(node@.children, key@, class@),
{
    let ghost base = file_index::fact_views(facts@);
    let ghost s = node@.children;
    let mut i: usize = 0;
    proof {
        syntax::lemma_forest(node.children@);
        assert(s.take(0) =~= Seq::<TreeView>::empty());
        assert(base + py_bodies(s.take(0), key@, class@) =~= base);
    }
    while i < node.children.len()
        invariant
            i <= node.children.len(),
            s == syntax::forest_of(node.children@),
            s.len() == node.children.len(),
            forall|j: int| 0 <= j < s.len() ==> #[trigger] s[j] == syntax::tree_of(node.children@[j]),
            file_index::fact_views(facts@) == base + py_bodies(s.take(i as int), key@, class@),
        decreases node.children.len() - i,
    {
        let c = &node.children[i];
        proof {
            assert(s.take(i + 1).drop_last() =~= s.take(i as int));
            assert(s.take(i + 1).last() == c@);
        }
        if c.named && c.is("block") {
            note_body(c, key, class, facts);
            assert(file_index::fact_views(facts@) =~= base + py_bodies(s.take(i + 1), key@, class@));
        }
        i = i + 1;
    }
    assert(s.take(s.len() as int) =~= s);
}

/// What a function states: itself, the types of its signature, and its blocks.
pub open spec fn py_function(
    t: TreeView,
    path: Seq<char>,
    in_class: bool,
    class: Seq<char>,
) -> Seq<FactView> {
    let key = scoped_key(in_class, class, syntax::field_text(t, "name"@));
    seq![FactView::Symbol(file_index::symbol_at(path, key, NodeKind::Function, t.span))] + py_types_at(
        t,
        "parameters"@,
        key,
    ) + py_type_use_at(t, "return_type"@, key) + py_bodies(
        t.children,
        key,
        if in_class {
            class
        } else {
            Seq::empty()
        },
    )
}

/// Notes what a function states.
fn note_function(
    node: &SyntaxNode,
    path: &str,
    in_class: bool,
    class: &str,
    facts: &mut Vec<Fact>,
)
    ensures
        file_index::fact_views(final(facts)@) == file_index::fact_views(old(facts)@) + py_function(
            node@,
            path@,
            in_class,
            class@,
        ),
{
    let ghost start = file_index::fact_views(facts@);
    let name = node.field_text("name");
    let key = scoped_key_of(in_class, class, name.as_str());
    add_fact(facts, Fact::Symbol(symbol_of(path, key.as_str(), NodeKind::Function, node.span)));
    types_at(node, "parameters", key.as_str(), facts);
    type_use_at(node, "return_type", key.as_str(), facts);
    if in_class {
        note_bodies(node, key.as_str(), class, facts);
    } else {
        proof {
            reveal_strlit("");
            assert(""@ =~= Seq::<char>::empty());
        }
        note_bodies(node, key.as_str(), "", facts);
    }
    assert(file_index::fact_views(facts@) =~= start + py_function(node@, path@, in_class, class@));
}

/// What a class states of itself: that it is there, and its bases.
pub open spec fn py_class(t: TreeView, path: Seq<char>, key: Seq<char>) -> Seq<FactView> {
    seq![FactView::Symbol(file_index::symbol_at(path, key, NodeKind::Class, t.span))] + (match syntax::field_of(
        t,
        "superclasses"@,
    ) {
        Some(b) => py_bases(b.children, key),
        None => Seq::empty(),
    })
}

/// Notes what a class states of itself.
fn note_class(node: &SyntaxNode, path: &str, key: &str, facts: &mut Vec<Fact>)
    ensures
        file_index::fact_views(final(facts)@) == file_index::fact_views(old(facts)@) + py_class(node@, path@, key@),
{
    let ghost start = file_index::fact_views(facts@);
    add_fact(facts, Fact::Symbol(symbol_of(path, key, NodeKind::Class, node.span)));
    if let Some(b) = node.child_by_field_name("superclasses") {
        note_bases(b, key, facts);
    }
    assert(file_index::fact_views(facts@) =~= start + py_class(node@, path@, key@));
}

/// What a tree defines, in a class or outside of any.
pub open spec fn py_visit(t: TreeView, path: Seq<char>, in_class: bool, class: Seq<char>) -> Seq<
    FactView,
>
    decreases t,
{
    if t.kind == "module"@ || t.kind == "block"@ || t.kind == "decorated_definition"@ {
        py_visit_all(t.children, path, in_class, class, false)
    } else if t.kind == "class_definition"@ {
        let key = scoped_key(in_class, class, syntax::field_text(t, "name"@));
        py_class(t, path, key) + py_visit_all(t.children, path, true, key, true)
    } else if t.kind == "function_definition"@ {
        py_function(t, path, in_class, class)
    } else {
        Seq::empty()
    }
}

/// What named trees, or only the blocks among them, define.
pub open spec fn py_visit_all(
    s: Seq<TreeView>,
    path: Seq<char>,
    in_class: bool,
    class: Seq<char>,
    blocks_only: bool,
) -> Seq<FactView>
    decreases s,
{
    if s.len() == 0 {
        Seq::empty()
    } else if s.last().named && (!blocks_only || s.last().kind == "block"@) {
        py_visit_all(s.drop_last(), path, in_class, class, blocks_only) + py_visit(
            s.last(),
            path,
            in_class,
            class,
        )
    } else {
        py_visit_all(s.drop_last(), path, in_class, class, blocks_only)
    }
}

/// Notes what a tree defines.
fn visit(node: &SyntaxNode, path: &str, in_class: bool, class: &str, facts: &mut Vec<Fact>)
    ensures
        file_index::fact_views(final(facts)@) == file_index::fact_views(old(facts)@) + py_visit(
            node@,
            path@,
            in_class,
            class@,
        ),
    decreases node, 1int,
{
    let ghost start = file_index::fact_views(facts@);
    if node.is("module") || node.is("block") || node.is("decorated_definition") {
        visit_children(node, path, in_class, class, false, facts);
    } else if node.is("class_definition") {
        let name = node.field_text("name");
        let key = scoped_key_of(in_class, class, name.as_str());
        note_class(node, path, key.as_str(), facts);
        visit_children(node, path, true, key.as_str(), true, facts);
    } else if node.is("function_definition") {
        note_function(node, path, in_class, class, facts);
    }
    assert(file_index::fact_views(facts@) =~= start + py_visit(node@, path@, in_class, class@));
}

/// Notes what the children of a node, or only the blocks among them, define.
fn visit_children(
    node: &SyntaxNode,
    path: &str,
    in_class: bool,
    class: &str,
    blocks_only: bool,
    facts: &mut Vec<Fact>,
)
    ensures
        file_index::fact_views(final(facts)@) == file_index::fact_views(old(facts)@) + py_visit_all(
            node@.children,
            path@,
            in_class,
            class@,
            blocks_only,
        ),
    decreases node, 0int,
{
    let ghost base = file_index::fact_views(facts@);
    let ghost s = node@.children;
    let mut i: usize = 0;
    proof {
        syntax::lemma_forest(node.children@);
        assert(s.take(0) =~= Seq::<TreeView>::empty());
        assert(base + py_visit_all(s.take(0), path@, in_class, class@, blocks_only) =~= base);
    }
    while i < node.children.len()
        invariant
            i <= node.children.len(),
            s == syntax::forest_of(node.children@),
            s.len() == node.children.len(),
            forall|j: int| 0 <= j < s.len() ==> #[trigger] s[j] == syntax::tree_of(node.children@[j]),
            file_index::fact_views(facts@) == base + py_visit_all(
                s.take(i as int),
                path@,
                in_class,
                class@,
                blocks_only,
            ),
        decreases node.children.len() - i,
    {
        let c = &node.children[i];
        proof {
            assert(decreases_to!(node => node.children@[i as int]));
            assert(s.take(i + 1).drop_last() =~= s.take(i as int));
            assert(s.take(i + 1).last() == c@);
        }
        if c.named && (!blocks_only || c.is("block")) {
            visit(c, path, in_class, class, facts);
            assert(file_index::fact_views(facts@) =~= base + py_visit_all(
                s.take(i + 1),
                path@,
                in_class,
                class@,
                blocks_only,
            ));
        }
        i = i + 1;
    }
    assert(s.take(s.len() as int) =~= s);
}

/// The calls of the expressions among some statements.
pub open spec fn py_statement_calls(s: Seq<TreeView>, caller: Seq<char>) -> Seq<FactView>
    decreases s.len(),
{
    if s.len() == 0 {
        Seq::empty()
    } else if s.last().named && s.last().kind == "expression_statement"@ {
        py_statement_calls(s.drop_last(), caller) + py_calls(s.last(), caller)
    } else {
        py_statement_calls(s.drop_last(), caller)
    }
}

/// Notes the calls of the expressions among the children of a node.
fn note_statement_calls(
    node: &SyntaxNode,
    caller: &str,
    facts: &mut Vec<Fact>,
)
    ensures
        file_index::fact_views(final(facts)@) == file_index::fact_views(old(facts)@) + py_statement_calls(node@.children, caller@),
{
    let ghost base = file_index::fact_views(facts@);
    let ghost s = node@.children;
    let mut i: usize = 0;
    proof {
        syntax::lemma_forest(node.children@);
        assert(s.take(0) =~= Seq::<TreeView>::empty());
        assert(base + py_statement_calls(s.take(0), caller@) =~= base);
    }
    while i < node.children.len()
        invariant
            i <= node.children.len(),
            s == syntax::forest_of(node.children@),
            s.len() == node.children.len(),
            forall|j: int| 0 <= j < s.len() ==> #[trigger] s[j] == syntax::tree_of(node.children@[j]),
            file_index::fact_views(facts@) == base + py_statement_calls(s.take(i as int), caller@),
        decreases node.children.len() - i,
    {
        let c = &node.children[i];
        proof {
            assert(s.take(i + 1).drop_last() =~= s.take(i as int));
            assert(s.take(i + 1).last() == c@);
        }
        if c.named && c.is("expression_statement") {
            visit_calls(c, caller, facts);
            assert(file_index::fact_views(facts@) =~= base + py_statement_calls(s.take(i + 1), caller@));
        }
        i = i + 1;
    }
    assert(s.take(s.len() as int) =~= s);
}

/// The calls at the top of a file.
pub open spec fn py_module_calls(t: TreeView) -> Seq<FactView> {
    if t.kind == "expression_statement"@ {
        py_calls(t, "$file"@)
    } else if t.kind == "module"@ || t.kind == "block"@ {
        py_statement_calls(t.children, "$file"@)
    } else {
        Seq::empty()
    }
}

/// Notes the calls at the top of a file.
fn visit_module_level_calls(node: &SyntaxNode, facts: &mut Vec<Fact>)
    ensures
        file_index::fact_views(final(facts)@) == file_index::fact_views(old(facts)@) + py_module_calls(node@),
{
    let ghost start = file_index::fact_views(facts@);
    if node.is("expression_statement") {
        visit_calls(node, "$file", facts);
    } else if node.is("module") || node.is("block") {
        note_statement_calls(node, "$file", facts);
    }
    assert(file_index::fact_views(facts@) =~= start + py_module_calls(node@));
}

/// The expression for functions.
pub const PY_FUNCTION_PATTERN: &'static str =
    "(?m)^(?:async\\s+)?def\\s+([a-zA-Z_][a-zA-Z0-9_]*)\\s*\\(";

/// The expression for functions with their whole heads.
pub const PY_HEAD_PATTERN: &'static str =
    "(?m)^(?:async\\s+)?def\\s+([a-zA-Z_][a-zA-Z0-9_]*)\\s*\\([^)]*\\)\\s*:";

/// The expression for imports of modules.
pub const PY_IMPORT_PATTERN: &'static str = "(?m)^import\\s+([\\w.]+)";

/// The expression for imports from modules.
pub const PY_FROM_PATTERN: &'static str = "(?m)^from\\s+([\\w.]+)\\s+import\\s+(.+)";

/// The expression for calls of names.
pub const PY_CALL_PATTERN: &'static str = "\\b([a-zA-Z_][a-zA-Z0-9_]*)\\s*\\(";

/// The expression for calls of members.
pub const PY_MEMBER_CALL_PATTERN: &'static str =
    "\\b([a-zA-Z_][a-zA-Z0-9_]*)\\.([a-zA-Z_][a-zA-Z0-9_]*)\\s*\\(";

/// The expression for calls of names at the start of a line.
pub const PY_LINE_CALL_PATTERN: &'static str = "(?m)^([a-zA-Z_][a-zA-Z0-9_]*)\\s*\\(";

/// The expression for calls of members on a line.
pub const PY_LINE_MEMBER_CALL_PATTERN: &'static str =
    "(?m)^[^\\n#]*?([a-zA-Z_][a-zA-Z0-9_]*)\\.([a-zA-Z_][a-zA-Z0-9_]*)\\s*\\(";

/// A part of an import list, without white space and brackets around it.
pub open spec fn py_listed(part: Seq<char>) -> Seq<char> {
    text::stripped(text::stripped(text::trimmed(part), '('), ')')
}

/// The names that the parts of an import list bring in: what stands in front of `as`.
pub open spec fn py_listed_names(parts: Seq<Seq<char>>) -> Seq<Seq<char>>
    decreases parts.len(),
{
    if parts.len() == 0 {
        Seq::empty()
    } else {
        let p = py_listed(parts.last());
        let n = text::trimmed(text::before(p, " as "@));
        if p.len() == 0 || p == "*"@ || n.len() == 0 {
            py_listed_names(parts.drop_last())
        } else {
            py_listed_names(parts.drop_last()).push(n)
        }
    }
}

/// Reads the names of an import list.
pub fn parse_import_names(tail: &str) -> (r: Vec<String>)
    ensures
        text::texts(r@) == py_listed_names(text::pieces(tail@, ',')),
{
    let cs = chars_of(tail);
    let parts = chars_split(&cs, ',');
    let ghost s = text::chars_views(parts@);
    let mut out: Vec<String> = Vec::new();
    let mut i: usize = 0;
    proof {
        assert(s.take(0) =~= Seq::<Seq<char>>::empty());
        assert(text::texts(out@) =~= Seq::empty());
    }
    while i < parts.len()
        invariant
            i <= parts.len(),
            s == text::chars_views(parts@),
            text::texts(out@) == py_listed_names(s.take(i as int)),
        decreases parts.len() - i,
    {
        let part = text_of(&parts[i]);
        let whole = text_trim(part.as_str());
        let open = text_strip(whole.as_str(), '(');
        let p = text_strip(open.as_str(), ')');
        let front = text_before(p.as_str(), " as ");
        let name = text_trim(front.as_str());
        proof {
            assert(s.take(i + 1).drop_last() =~= s.take(i as int));
            assert(s.take(i + 1).last() == parts@[i as int]@);
        }
        let pcs = chars_of(p.as_str());
        let ncs = chars_of(name.as_str());
        if pcs.len() > 0 && !same_text(p.as_str(), "*") && ncs.len() > 0 {
            add_name(&mut out, name);
        }
        i = i + 1;
    }
    assert(s.take(s.len() as int) =~= s);
    out
}

/// The import of a module that a match is.
pub open spec fn py_module_import(c: CaptureView, content: Seq<char>) -> Seq<ImportView> {
    match regexes::group_of(c, 1) {
        Some(module) => seq![
            ImportView {
                module,
                style: ImportStyle::ModuleOnly,
                names: Seq::empty(),
                span: spans::span_between(content, c.start as nat, c.end as nat),
            },
        ],
        None => Seq::empty(),
    }
}

/// The import from a module that a match is.
pub open spec fn py_from_import(c: CaptureView, content: Seq<char>) -> Seq<ImportView> {
    match (regexes::group_of(c, 1), regexes::group_of(c, 2)) {
        (Some(module), Some(rest)) => {
            let tail = text::trimmed(rest);
            let span = spans::span_between(content, c.start as nat, c.end as nat);
            if tail == "*"@ {
                seq![
                    ImportView { module, style: ImportStyle::Star, names: Seq::empty(), span },
                ]
            } else {
                seq![
                    ImportView {
                        module,
                        style: ImportStyle::Names,
                        names: py_listed_names(text::pieces(tail, ',')),
                        span,
                    },
                ]
            }
        },
        _ => Seq::empty(),
    }
}

/// The imports that matches are.
pub open spec fn py_matched_imports(s: Seq<CaptureView>, content: Seq<char>, from: bool) -> Seq<
    ImportView,
>
    decreases s.len(),
{
    if s.len() == 0 {
        Seq::empty()
    } else {
        py_matched_imports(s.drop_last(), content, from) + (if from {
            py_from_import(s.last(), content)
        } else {
            py_module_import(s.last(), content)
        })
    }
}

/// Reads the import that a match is.
fn read_matched_import(c: &Capture, content: &Vec<char>, from: bool) -> (r: Option<ParsedImport>)
    ensures
        (match r {
            Some(i) => seq![i@],
            None => Seq::empty(),
        }) == (if from {
            py_from_import(c@, content@)
        } else {
            py_module_import(c@, content@)
        }),
{
    let module = match c.group(1) {
        Some(m) => m,
        None => {
            return None;
        },
    };
    let span = span_from_byte_range(content, c.start, c.end);
    let none: Vec<String> = Vec::new();
    assert(text::texts(none@) =~= Seq::empty());
    if !from {
        return Some(ParsedImport { module, style: ImportStyle::ModuleOnly, names: none, span });
    }
    match c.group(2) {
        Some(rest) => {
            let tail = text_trim(rest.as_str());
            if same_text(tail.as_str(), "*") {
                Some(ParsedImport { module, style: ImportStyle::Star, names: none, span })
            } else {
                let names = parse_import_names(tail.as_str());
                Some(ParsedImport { module, style: ImportStyle::Names, names, span })
            }
        },
        None => None,
    }
}

/// Reads the imports that matches are.
pub fn note_matched_imports(
    captures: &Vec<Capture>,
    content: &Vec<char>,
    from: bool,
    imports: &mut Vec<ParsedImport>,
)
    ensures
        file_index::import_views(final(imports)@) == file_index::import_views(old(imports)@) + py_matched_imports(
            regexes::capture_views(captures@),
            content@,
            from,
        ),
{
    let ghost base = file_index::import_views(imports@);
    let ghost s = regexes::capture_views(captures@);
    let mut i: usize = 0;
    proof {
        assert(s.take(0) =~= Seq::<CaptureView>::empty());
        assert(base + py_matched_imports(s.take(0), content@, from) =~= base);
    }
    while i < captures.len()
        invariant
            i <= captures.len(),
            s == regexes::capture_views(captures@),
            file_index::import_views(imports@) == base + py_matched_imports(s.take(i as int), content@, from),
        decreases captures.len() - i,
    {
        let c = &captures[i];
        let ghost so_far = file_index::import_views(imports@);
        proof {
            assert(s.take(i + 1).drop_last() =~= s.take(i as int));
            assert(s.take(i + 1).last() == c@);
        }
        if let Some(x) = read_matched_import(c, content, from) {
            let ghost xv = x@;
            imports.push(x);
            assert(file_index::import_views(imports@) =~= so_far + seq![xv]);
        }
        assert(file_index::import_views(imports@) =~= base + py_matched_imports(
            s.take(i + 1),
            content@,
            from,
        ));
        i = i + 1;
    }
    assert(s.take(s.len() as int) =~= s);
}

/// The imports of a Python file; nothing is known where one of the expressions is refused.
pub open spec fn py_imports(content: Seq<char>) -> Seq<ImportView> {
    if regexes::regex_accepts(PY_IMPORT_PATTERN@) && regexes::regex_accepts(PY_FROM_PATTERN@) {
        py_matched_imports(regexes::regex_captures(PY_IMPORT_PATTERN@, content), content, false)
            + py_matched_imports(regexes::regex_captures(PY_FROM_PATTERN@, content), content, true)
    } else {
        Seq::empty()
    }
}

/// Reads the imports of a Python file.
pub fn extract_imports_regex(content: &str) -> (r: Vec<ParsedImport>)
    ensures
        file_index::import_views(r@) == py_imports(content@),
{
    let mut out: Vec<ParsedImport> = Vec::new();
    assert(file_index::import_views(out@) =~= Seq::empty());
    if let (Some(modules), Some(froms)) = (
        find_captures(PY_IMPORT_PATTERN, content),
        find_captures(PY_FROM_PATTERN, content),
    ) {
        let cs = chars_of(content);
        note_matched_imports(&modules, &cs, false, &mut out);
        note_matched_imports(&froms, &cs, true, &mut out);
        assert(file_index::import_views(out@) =~= py_imports(content@));
    }
    out
}

/// What is known of a Python file by its syntax tree, and by matches for its imports.
pub open spec fn py_index(path: Seq<char>, content: Seq<char>, t: TreeView, imports: Seq<ImportView>) -> IndexView {
    let facts = seq![FactView::Symbol(file_index::file_symbol(path, content))] + py_visit(
        t,
        path,
        false,
        Seq::empty(),
    ) + py_module_calls(t);
    let x = file_index::with_facts(file_index::empty_index(), facts);
    IndexView { symbols: file_index::told_apart(x.symbols), imports, ..x }
}

/// Finds what is known of a Python file by its syntax tree.
pub fn index_python_tree(path: &str, content: &str, root: &SyntaxNode, imports: Vec<ParsedImport>) -> (r: FileIndex)
    ensures
        r@ == py_index(path@, content@, root@, file_index::import_views(imports@)),
{
    let mut facts: Vec<Fact> = Vec::new();
    proof {
        assert(file_index::fact_views(facts@) =~= Seq::empty());
        reveal_strlit("");
        assert(""@ =~= Seq::<char>::empty());
    }
    add_fact(&mut facts, Fact::Symbol(file_symbol_of(path, content)));
    visit(root, path, false, "", &mut facts);
    visit_module_level_calls(root, &mut facts);
    assert(file_index::fact_views(facts@) =~= seq![FactView::Symbol(file_index::file_symbol(path@, content@))] + py_visit(
        root@,
        path@,
        false,
        Seq::empty(),
    ) + py_module_calls(root@));
    let mut idx = FileIndex::new();
    idx.learn_all(facts);
    idx.imports = imports;
    assign_collision_disambiguators(&mut idx);
    idx
}

/// A name whose calls in a body are of no interest.
pub open spec fn py_quiet(name: Seq<char>) -> bool {
    name == "def"@ || name == "async"@ || name == "print"@ || name == "super"@
}

/// Whether it is a name whose calls in a body are of no interest.
fn is_py_quiet(name: &str) -> (r: bool)
    ensures
        r == py_quiet(name@),
{
    same_text(name, "def") || same_text(name, "async") || same_text(name, "print") ||
    same_text(name, "super")
}

/// A word that begins a statement.
pub open spec fn py_keyword(name: Seq<char>) -> bool {
    name == "def"@ || name == "class"@ || name == "if"@ || name == "for"@ ||
    name == "while"@ || name == "with"@
}

/// Whether it is a word that begins a statement.
fn is_py_keyword(name: &str) -> (r: bool)
    ensures
        r == py_keyword(name@),
{
    same_text(name, "def") || same_text(name, "class") || same_text(name, "if") ||
    same_text(name, "for") || same_text(name, "while") || same_text(name, "with")
}

/// The call of a name that a match in a body is: not of a member, not of the caller itself.
pub open spec fn py_body_call(
    c: CaptureView,
    content: Seq<char>,
    body: Seq<char>,
    from: usize,
    caller: Seq<char>,
) -> Seq<FactView> {
    match regexes::group_of(c, 1) {
        Some(n) => if n == caller || py_quiet(n) || regexes::behind_point(body, c.start) {
            Seq::empty()
        } else {
            seq![
                FactView::Call(
                    CallView {
                        caller,
                        callee: ReceiverView::Bare(n),
                        span: spans::span_between(
                            content,
                            regexes::shifted(from, c.start) as nat,
                            regexes::shifted(from, c.end) as nat,
                        ),
                    },
                ),
            ]
        },
        None => Seq::empty(),
    }
}

/// Notes the call of a name that a match in a body is.
fn note_body_call(
    c: &Capture,
    content: &Vec<char>,
    body: &Vec<char>,
    from: usize,
    caller: &str,
    facts: &mut Vec<Fact>,
)
    ensures
        file_index::fact_views(final(facts)@) == file_index::fact_views(old(facts)@) + py_body_call(
            c@,
            content@,
            body@,
            from,
            caller@,
        ),
{
    let ghost start = file_index::fact_views(facts@);
    if let Some(n) = c.group(1) {
        if !same_text(n.as_str(), caller) && !is_py_quiet(n.as_str()) && !is_behind_point(
            body,
            c.start,
        ) {
            add_fact(
                facts,
                Fact::Call(
                    ParsedCall {
                        caller_stable_key: owned(caller),
                        callee: CallReceiver::Bare(n),
                        span: span_from_byte_range(content, shift(from, c.start), shift(from, c.end)),
                    },
                ),
            );
        }
    }
    assert(file_index::fact_views(facts@) =~= start + py_body_call(c@, content@, body@, from, caller@));
}

/// The calls of names that matches in a body are.
pub open spec fn py_body_calls(s: Seq<CaptureView>, content: Seq<char>, body: Seq<char>, from: usize, caller: Seq<char>) -> Seq<FactView>
    decreases s.len(),
{
    if s.len() == 0 {
        Seq::empty()
    } else {
        py_body_calls(s.drop_last(), content, body, from, caller) + py_body_call(s.last(), content, body, from, caller)
    }
}

/// Notes the calls of names that matches in a body are.
pub fn note_body_calls(
    captures: &Vec<Capture>,
    content: &Vec<char>,
    body: &Vec<char>,
    from: usize,
    caller: &str,
    facts: &mut Vec<Fact>,
)
    ensures
        file_index::fact_views(final(facts)@) == file_index::fact_views(old(facts)@) + py_body_calls(
            regexes::capture_views(captures@), content@, body@, from, caller@,
        ),
{
    let ghost base = file_index::fact_views(facts@);
    let ghost s = regexes::capture_views(captures@);
    let mut i: usize = 0;
    proof {
        assert(s.take(0) =~= Seq::<CaptureView>::empty());
        assert(base + py_body_calls(s.take(0), content@, body@, from, caller@) =~= base);
    }
    while i < captures.len()
        invariant
            i <= captures.len(),
            s == regexes::capture_views(captures@),
            file_index::fact_views(facts@) == base + py_body_calls(s.take(i as int), content@, body@, from, caller@),
        decreases captures.len() - i,
    {
        let c = &captures[i];
        note_body_call(c, content, body, from, caller, facts);
        proof {
            assert(s.take(i + 1).drop_last() =~= s.take(i as int));
            assert(s.take(i + 1).last() == c@);
            assert(file_index::fact_views(facts@) =~= base + py_body_calls(s.take(i + 1), content@, body@, from, caller@));
        }
        i = i + 1;
    }
    assert(s.take(s.len() as int) =~= s);
}

/// The call of a member that a match in a body is.
pub open spec fn py_body_member_call(
    c: CaptureView,
    content: Seq<char>,
    from: usize,
    caller: Seq<char>,
) -> Seq<FactView> {
    match (regexes::group_of(c, 1), regexes::group_of(c, 2)) {
        (Some(base), Some(name)) => if name == "def"@ || name == "async"@ {
            Seq::empty()
        } else {
            seq![
                FactView::Call(
                    CallView {
                        caller,
                        callee: ReceiverView::Attr {
                            object: Box::new(ReceiverView::Bare(base)),
                            name,
                        },
                        span: spans::span_between(
                            content,
                            regexes::shifted(from, c.start) as nat,
                            regexes::shifted(from, c.end) as nat,
                        ),
                    },
                ),
            ]
        },
        _ => Seq::empty(),
    }
}

/// Notes the call of a member that a match in a body is.
fn note_body_member_call(
    c: &Capture,
    content: &Vec<char>,
    from: usize,
    caller: &str,
    facts: &mut Vec<Fact>,
)
    ensures
        file_index::fact_views(final(facts)@) == file_index::fact_views(old(facts)@) + py_body_member_call(
            c@,
            content@,
            from,
            caller@,
        ),
{
    let ghost start = file_index::fact_views(facts@);
    if let (Some(base), Some(name)) = (c.group(1), c.group(2)) {
        if !same_text(name.as_str(), "def") && !same_text(name.as_str(), "async") {
            add_fact(
                facts,
                Fact::Call(
                    ParsedCall {
                        caller_stable_key: owned(caller),
                        callee: CallReceiver::Attr {
                            object: Box::new(CallReceiver::Bare(base)),
                            name,
                        },
                        span: span_from_byte_range(content, shift(from, c.start), shift(from, c.end)),
                    },
                ),
            );
        }
    }
    proof {
        reveal_with_fuel(file_index::receiver_view, 2);
    }
    assert(file_index::fact_views(facts@) =~= start + py_body_member_call(c@, content@, from, caller@));
}

/// The calls of members that matches in a body are.
pub open spec fn py_body_member_calls(s: Seq<CaptureView>, content: Seq<char>, from: usize, caller: Seq<char>) -> Seq<FactView>
    decreases s.len(),
{
    if s.len() == 0 {
        Seq::empty()
    } else {
        py_body_member_calls(s.drop_last(), content, from, caller) + py_body_member_call(s.last(), content, from, caller)
    }
}

/// Notes the calls of members that matches in a body are.
pub fn note_body_member_calls(
    captures: &Vec<Capture>,
    content: &Vec<char>,
    from: usize,
    caller: &str,
    facts: &mut Vec<Fact>,
)
    ensures
        file_index::fact_views(final(facts)@) == file_index::fact_views(old(facts)@) + py_body_member_calls(
            regexes::capture_views(captures@), content@, from, caller@,
        ),
{
    let ghost base = file_index::fact_views(facts@);
    let ghost s = regexes::capture_views(captures@);
    let mut i: usize = 0;
    proof {
        assert(s.take(0) =~= Seq::<CaptureView>::empty());
        assert(base + py_body_member_calls(s.take(0), content@, from, caller@) =~= base);
    }
    while i < captures.len()
        invariant
            i <= captures.len(),
            s == regexes::capture_views(captures@),
            file_index::fact_views(facts@) == base + py_body_member_calls(s.take(i as int), content@, from, caller@),
        decreases captures.len() - i,
    {
        let c = &captures[i];
        note_body_member_call(c, content, from, caller, facts);
        proof {
            assert(s.take(i + 1).drop_last() =~= s.take(i as int));
            assert(s.take(i + 1).last() == c@);
            assert(file_index::fact_views(facts@) =~= base + py_body_member_calls(s.take(i + 1), content@, from, caller@));
        }
        i = i + 1;
    }
    assert(s.take(s.len() as int) =~= s);
}

/// The call of a member that a match on a line is.
pub open spec fn py_line_member_call(c: CaptureView, content: Seq<char>) -> Seq<FactView> {
    match (regexes::group_of(c, 1), regexes::group_of(c, 2)) {
        (Some(base), Some(name)) => if name == "def"@ || name == "if"@ {
            Seq::empty()
        } else {
            seq![
                FactView::Call(
                    CallView {
                        caller: "$file"@,
                        callee: ReceiverView::Attr {
                            object: Box::new(ReceiverView::Bare(base)),
                            name,
                        },
                        span: spans::span_between(content, c.start as nat, c.end as nat),
                    },
                ),
            ]
        },
        _ => Seq::empty(),
    }
}

/// Notes the call of a member that a match on a line is.
fn note_line_member_call(c: &Capture, content: &Vec<char>, facts: &mut Vec<Fact>)
    ensures
        file_index::fact_views(final(facts)@) == file_index::fact_views(old(facts)@) + py_line_member_call(c@, content@),
{
    let ghost start = file_index::fact_views(facts@);
    if let (Some(base), Some(name)) = (c.group(1), c.group(2)) {
        if !same_text(name.as_str(), "def") && !same_text(name.as_str(), "if") {
            add_fact(
                facts,
                Fact::Call(
                    ParsedCall {
                        caller_stable_key: owned("$file"),
                        callee: CallReceiver::Attr {
                            object: Box::new(CallReceiver::Bare(base)),
                            name,
                        },
                        span: span_from_byte_range(content, c.start, c.end),
                    },
                ),
            );
        }
    }
    proof {
        reveal_with_fuel(file_index::receiver_view, 2);
    }
    assert(file_index::fact_views(facts@) =~= start + py_line_member_call(c@, content@));
}

/// The calls of members that matches on lines are.
pub open spec fn py_line_member_calls(s: Seq<CaptureView>, content: Seq<char>) -> Seq<FactView>
    decreases s.len(),
{
    if s.len() == 0 {
        Seq::empty()
    } else {
        py_line_member_calls(s.drop_last(), content) + py_line_member_call(s.last(), content)
    }
}

/// Notes the calls of members that matches on lines are.
pub fn note_line_member_calls(
    captures: &Vec<Capture>,
    content: &Vec<char>,
    facts: &mut Vec<Fact>,
)
    ensures
        file_index::fact_views(final(facts)@) == file_index::fact_views(old(facts)@) + py_line_member_calls(
            regexes::capture_views(captures@), content@,
        ),
{
    let ghost base = file_index::fact_views(facts@);
    let ghost s = regexes::capture_views(captures@);
    let mut i: usize = 0;
    proof {
        assert(s.take(0) =~= Seq::<CaptureView>::empty());
        assert(base + py_line_member_calls(s.take(0), content@) =~= base);
    }
    while i < captures.len()
        invariant
            i <= captures.len(),
            s == regexes::capture_views(captures@),
            file_index::fact_views(facts@) == base + py_line_member_calls(s.take(i as int), content@),
        decreases captures.len() - i,
    {
        let c = &captures[i];
        note_line_member_call(c, content, facts);
        proof {
            assert(s.take(i + 1).drop_last() =~= s.take(i as int));
            assert(s.take(i + 1).last() == c@);
            assert(file_index::fact_views(facts@) =~= base + py_line_member_calls(s.take(i + 1), content@));
        }
        i = i + 1;
    }
    assert(s.take(s.len() as int) =~= s);
}

/// The call of a name that a match at the start of a line is.
pub open spec fn py_line_call(c: CaptureView, content: Seq<char>) -> Seq<FactView> {
    let whole = regexes::group_or_nothing(c, 0);
    match regexes::group_of(c, 1) {
        Some(n) => if py_keyword(n) || text::begins_with(text::trim_start(whole), "def "@) || text::contains_text(
            whole,
            "."@,
        ) {
            Seq::empty()
        } else {
            seq![
                FactView::Call(
                    CallView {
                        caller: "$file"@,
                        callee: ReceiverView::Bare(n),
                        span: spans::span_between(content, c.start as nat, c.end as nat),
                    },
                ),
            ]
        },
        None => Seq::empty(),
    }
}

/// Notes the call of a name that a match at the start of a line is.
fn note_line_call(c: &Capture, content: &Vec<char>, facts: &mut Vec<Fact>)
    ensures
        file_index::fact_views(final(facts)@) == file_index::fact_views(old(facts)@) + py_line_call(c@, content@),
{
    let ghost start = file_index::fact_views(facts@);
    let whole = c.group_or_empty(0);
    let wcs = chars_of(whole.as_str());
    let head = text_of(&chars_trim_start(&wcs));
    if let Some(n) = c.group(1) {
        if !is_py_keyword(n.as_str()) && !text_begins_with(head.as_str(), "def ") && !text_contains(
            whole.as_str(),
            ".",
        ) {
            add_fact(
                facts,
                Fact::Call(
                    ParsedCall {
                        caller_stable_key: owned("$file"),
                        callee: CallReceiver::Bare(n),
                        span: span_from_byte_range(content, c.start, c.end),
                    },
                ),
            );
        }
    }
    assert(file_index::fact_views(facts@) =~= start + py_line_call(c@, content@));
}

/// The calls of names that matches at the starts of lines are.
pub open spec fn py_line_calls(s: Seq<CaptureView>, content: Seq<char>) -> Seq<FactView>
    decreases s.len(),
{
    if s.len() == 0 {
        Seq::empty()
    } else {
        py_line_calls(s.drop_last(), content) + py_line_call(s.last(), content)
    }
}

/// Notes the calls of names that matches at the starts of lines are.
pub fn note_line_calls(
    captures: &Vec<Capture>,
    content: &Vec<char>,
    facts: &mut Vec<Fact>,
)
    ensures
        file_index::fact_views(final(facts)@) == file_index::fact_views(old(facts)@) + py_line_calls(
            regexes::capture_views(captures@), content@,
        ),
{
    let ghost base = file_index::fact_views(facts@);
    let ghost s = regexes::capture_views(captures@);
    let mut i: usize = 0;
    proof {
        assert(s.take(0) =~= Seq::<CaptureView>::empty());
        assert(base + py_line_calls(s.take(0), content@) =~= base);
    }
    while i < captures.len()
        invariant
            i <= captures.len(),
            s == regexes::capture_views(captures@),
            file_index::fact_views(facts@) == base + py_line_calls(s.take(i as int), content@),
        decreases captures.len() - i,
    {
        let c = &captures[i];
        note_line_call(c, content, facts);
        proof {
            assert(s.take(i + 1).drop_last() =~= s.take(i as int));
            assert(s.take(i + 1).last() == c@);
            assert(file_index::fact_views(facts@) =~= base + py_line_calls(s.take(i + 1), content@));
        }
        i = i + 1;
    }
    assert(s.take(s.len() as int) =~= s);
}

/// Where the body of a function starts, and the function.
#[derive(Debug)]
pub struct BodyStart {
    pub at: usize,
    pub caller: String,
}

/// Where the bodies of functions start.
pub open spec fn start_views(v: Seq<BodyStart>) -> Seq<(usize, Seq<char>)> {
    v.map_values(|b: BodyStart| (b.at, b.caller@))
}

/// A match names a function.
pub open spec fn py_names(functions: Seq<CaptureView>, name: Seq<char>) -> bool {
    exists|i: int| 0 <= i < functions.len() && regexes::group_of(#[trigger] functions[i], 1) == Some(name)
}

/// Whether a match names a function.
fn names_function(functions: &Vec<Capture>, name: &str) -> (r: bool)
    ensures
        r == py_names(regexes::capture_views(functions@), name@),
{
    let ghost s = regexes::capture_views(functions@);
    let mut i: usize = 0;
    while i < functions.len()
        invariant
            i <= functions.len(),
            s == regexes::capture_views(functions@),
            forall|j: int| 0 <= j < i ==> regexes::group_of(#[trigger] s[j], 1) != Some(name@),
        decreases functions.len() - i,
    {
        assert(s[i as int] == functions@[i as int]@);
        if let Some(n) = functions[i].group(1) {
            if same_text(n.as_str(), name) {
                return true;
            }
        }
        i = i + 1;
    }
    false
}

/// Where the bodies of the functions at the top of a file start.
pub open spec fn py_starts(heads: Seq<CaptureView>, functions: Seq<CaptureView>) -> Seq<
    (usize, Seq<char>),
>
    decreases heads.len(),
{
    if heads.len() == 0 {
        Seq::empty()
    } else {
        match regexes::group_of(heads.last(), 1) {
            Some(n) => if py_names(functions, n) && !text::contains_text(n, "."@) {
                py_starts(heads.drop_last(), functions).push((heads.last().start, n))
            } else {
                py_starts(heads.drop_last(), functions)
            },
            None => py_starts(heads.drop_last(), functions),
        }
    }
}

/// Finds where the bodies of the functions at the top of a file start.
pub fn find_body_starts(heads: &Vec<Capture>, functions: &Vec<Capture>) -> (r: Vec<BodyStart>)
    ensures
        start_views(r@) == py_starts(regexes::capture_views(heads@), regexes::capture_views(functions@)),
{
    let ghost s = regexes::capture_views(heads@);
    let ghost f = regexes::capture_views(functions@);
    let mut out: Vec<BodyStart> = Vec::new();
    let mut i: usize = 0;
    proof {
        assert(s.take(0) =~= Seq::<CaptureView>::empty());
        assert(start_views(out@) =~= Seq::empty());
    }
    while i < heads.len()
        invariant
            i <= heads.len(),
            s == regexes::capture_views(heads@),
            f == regexes::capture_views(functions@),
            start_views(out@) == py_starts(s.take(i as int), f),
        decreases heads.len() - i,
    {
        let c = &heads[i];
        let ghost so_far = start_views(out@);
        proof {
            assert(s.take(i + 1).drop_last() =~= s.take(i as int));
            assert(s.take(i + 1).last() == c@);
        }
        if let Some(n) = c.group(1) {
            if names_function(functions, n.as_str()) && !text_contains(n.as_str(), ".") {
                let ghost nv = n@;
                out.push(BodyStart { at: c.start, caller: n });
                assert(start_views(out@) =~= so_far.push((c.start, nv)));
            }
        }
        i = i + 1;
    }
    assert(s.take(s.len() as int) =~= s);
    out
}

/// The body of a function: up to where the next one starts.
pub open spec fn py_body_text(content: Seq<char>, starts: Seq<(usize, Seq<char>)>, i: int) -> Seq<
    char,
> {
    if i + 1 < starts.len() {
        spans::text_between(content, starts[i].0 as nat, starts[i + 1].0 as nat)
    } else {
        spans::text_from(content, starts[i].0 as nat)
    }
}

/// The calls that the first `n` functions make.
pub open spec fn py_top_calls(content: Seq<char>, starts: Seq<(usize, Seq<char>)>, n: int) -> Seq<
    FactView,
>
    decreases n,
{
    if n <= 0 {
        Seq::empty()
    } else {
        let body = py_body_text(content, starts, n - 1);
        let (from, caller) = starts[n - 1];
        py_top_calls(content, starts, n - 1) + py_body_calls(
            regexes::captures_or_nothing(PY_CALL_PATTERN@, body),
            content,
            body,
            from,
            caller,
        ) + py_body_member_calls(
            regexes::captures_or_nothing(PY_MEMBER_CALL_PATTERN@, body),
            content,
            from,
            caller,
        )
    }
}

/// The calls that the functions at the top of a file make; nothing is known where an expression is
/// refused.
pub open spec fn py_function_calls(content: Seq<char>, functions: Seq<CaptureView>) -> Seq<
    FactView,
> {
    if regexes::regex_accepts(PY_HEAD_PATTERN@) && regexes::regex_accepts(PY_CALL_PATTERN@) {
        let starts = py_starts(regexes::regex_captures(PY_HEAD_PATTERN@, content), functions);
        py_top_calls(content, starts, starts.len() as int)
    } else {
        Seq::empty()
    }
}

/// Notes the calls that the functions at the top of a file make.
pub fn extract_calls_regex_top_level(
    content: &str,
    functions: &Vec<Capture>,
    facts: &mut Vec<Fact>,
)
    ensures
        file_index::fact_views(final(facts)@) == file_index::fact_views(old(facts)@) + py_function_calls(
            content@,
            regexes::capture_views(functions@),
        ),
{
    let ghost base = file_index::fact_views(facts@);
    assert(base + Seq::<FactView>::empty() =~= base);
    let heads = match find_captures(PY_HEAD_PATTERN, content) {
        Some(h) => h,
        None => {
            return ;
        },
    };
    if !expression_accepted(PY_CALL_PATTERN) {
        return ;
    }
    let cs = chars_of(content);
    let starts = find_body_starts(&heads, functions);
    let ghost s = start_views(starts@);
    let mut i: usize = 0;
    while i < starts.len()
        invariant
            i <= starts.len(),
            cs@ == content@,
            s == start_views(starts@),
            file_index::fact_views(facts@) == base + py_top_calls(content@, s, i as int),
        decreases starts.len() - i,
    {
        assert(s[i as int] == (starts@[i as int].at, starts@[i as int].caller@));
        let from = starts[i].at;
        let body = if i + 1 < starts.len() {
            assert(s[i + 1] == (starts@[i + 1].at, starts@[i + 1].caller@));
            cut_bytes(&cs, from, starts[i + 1].at)
        } else {
            cut_from(&cs, from)
        };
        assert(body@ == py_body_text(content@, s, i as int));
        let bcs = chars_of(body.as_str());
        let names = find_captures_or_nothing(PY_CALL_PATTERN, body.as_str());
        let members = find_captures_or_nothing(PY_MEMBER_CALL_PATTERN, body.as_str());
        note_body_calls(&names, &cs, &bcs, from, starts[i].caller.as_str(), facts);
        note_body_member_calls(&members, &cs, from, starts[i].caller.as_str(), facts);
        assert(file_index::fact_views(facts@) =~= base + py_top_calls(content@, s, i + 1));
        i = i + 1;
    }
}

/// The calls on the lines of a file; nothing is known where an expression is refused.
pub open spec fn py_file_calls(content: Seq<char>) -> Seq<FactView> {
    if regexes::regex_accepts(PY_LINE_MEMBER_CALL_PATTERN@) && regexes::regex_accepts(PY_LINE_CALL_PATTERN@) {
        py_line_member_calls(
            regexes::regex_captures(PY_LINE_MEMBER_CALL_PATTERN@, content),
            content,
        ) + py_line_calls(regexes::regex_captures(PY_LINE_CALL_PATTERN@, content), content)
    } else {
        Seq::empty()
    }
}

/// Notes the calls on the lines of a file.
pub fn extract_calls_regex_module_level(content: &str, facts: &mut Vec<Fact>)
    ensures
        file_index::fact_views(final(facts)@) == file_index::fact_views(old(facts)@) + py_file_calls(content@),
{
    let ghost base = file_index::fact_views(facts@);
    if let (Some(members), Some(names)) = (
        find_captures(PY_LINE_MEMBER_CALL_PATTERN, content),
        find_captures(PY_LINE_CALL_PATTERN, content),
    ) {
        let cs = chars_of(content);
        note_line_member_calls(&members, &cs, facts);
        note_line_calls(&names, &cs, facts);
    }
    assert(file_index::fact_views(facts@) =~= base + py_file_calls(content@));
}

/// What is known of a Python file without its syntax tree.
pub open spec fn py_regex_index(path: Seq<char>, content: Seq<char>) -> Option<IndexView> {
    if regexes::regex_accepts(PY_FUNCTION_PATTERN@) {
        let functions = regexes::regex_captures(PY_FUNCTION_PATTERN@, content);
        let facts = seq![FactView::Symbol(file_index::file_symbol(path, content))] + matched_facts::named_functions(
            functions,
            path,
            content,
        ) + py_function_calls(content, functions) + py_file_calls(content);
        let x = file_index::with_facts(file_index::empty_index(), facts);
        Some(IndexView { symbols: file_index::told_apart(x.symbols), imports: py_imports(content), ..x })
    } else {
        None
    }
}

/// Finds what is known of a Python file without its syntax tree.
pub fn extract_python_file_index_regex(path: &str, content: &str) -> (r: Result<
    FileIndex,
    IndexError,
>)
    ensures
        language_indexer::index_view(r) == py_regex_index(path@, content@),
{
    let functions = match find_captures(PY_FUNCTION_PATTERN, content) {
        Some(f) => f,
        None => {
            return Err(IndexError::ParseFailed);
        },
    };
    let cs = chars_of(content);
    let mut facts: Vec<Fact> = Vec::new();
    assert(file_index::fact_views(facts@) =~= Seq::empty());
    add_fact(&mut facts, Fact::Symbol(file_symbol_of(path, content)));
    note_named_functions(&functions, path, &cs, &mut facts);
    extract_calls_regex_top_level(content, &functions, &mut facts);
    extract_calls_regex_module_level(content, &mut facts);
    let ghost fv = regexes::capture_views(functions@);
    assert(file_index::fact_views(facts@) =~= seq![FactView::Symbol(file_index::file_symbol(path@, content@))]
        + matched_facts::named_functions(fv, path@, content@) + py_function_calls(content@, fv) + py_file_calls(
        content@,
    ));
    let mut idx = FileIndex::new();
    idx.learn_all(facts);
    idx.imports = extract_imports_regex(content);
    assign_collision_disambiguators(&mut idx);
    Ok(idx)
}

/// What is known of a Python file: by its syntax tree where it has one without an error, or else by
/// matches.
pub open spec fn py_file_index(path: Seq<char>, content: Seq<char>) -> Option<IndexView> {
    match syntax::source_tree(Grammar::Python, content) {
        Some((bad, t)) => if bad {
            py_regex_index(path, content)
        } else {
            Some(py_index(path, content, t, py_imports(content)))
        },
        None => py_regex_index(path, content),
    }
}

/// Finds what is known of a Python file.
pub fn index_python_file(path: &str, content: &str) -> (r: Result<FileIndex, IndexError>)
    ensures
        language_indexer::index_view(r) == py_file_index(path@, content@),
{
    match parse_source(Grammar::Python, content) {
        Some((bad, t)) => {
            if !bad {
                let imports = extract_imports_regex(content);
                return Ok(index_python_tree(path, content, &t, imports));
            }
        },
        None => {},
    }
    extract_python_file_index_regex(path, content)
}

/// The keys of the functions at the top of a file.
pub open spec fn top_keys(s: Seq<SymbolView>) -> Seq<Seq<char>>
    decreases s.len(),
{
    if s.len() == 0 {
        Seq::empty()
    } else if s.last().kind == NodeKind::Function && !text::contains_text(s.last().key, "."@) {
        top_keys(s.drop_last()).push(s.last().key)
    } else {
        top_keys(s.drop_last())
    }
}

/// Reads the keys of the functions at the top of a file.
pub fn top_level_keys(idx: &FileIndex) -> (r: Vec<String>)
    ensures
        text::texts(r@) == top_keys(idx@.symbols),
{
    let ghost s = idx@.symbols;
    let mut out: Vec<String> = Vec::new();
    let mut i: usize = 0;
    proof {
        assert(s.take(0) =~= Seq::<SymbolView>::empty());
        assert(text::texts(out@) =~= Seq::empty());
    }
    while i < idx.symbols.len()
        invariant
            i <= idx.symbols.len(),
            s == idx@.symbols,
            s.len() == idx.symbols.len(),
            text::texts(out@) == top_keys(s.take(i as int)),
        decreases idx.symbols.len() - i,
    {
        let x = &idx.symbols[i];
        proof {
            assert(s.take(i + 1).drop_last() =~= s.take(i as int));
            assert(s.take(i + 1).last() == x@);
        }
        if x.kind == NodeKind::Function && !text_contains(x.stable_key.as_str(), ".") {
            add_name(&mut out, owned(x.stable_key.as_str()));
        }
        i = i + 1;
    }
    assert(s.take(s.len() as int) =~= s);
    out
}

/// Finds the functions at the top of a Python source.
pub fn extract_python_top_level_defs(src: &str) -> (r: Result<Vec<String>, IndexError>)
    ensures
        match r {
            Ok(v) => py_file_index("__anon__.py"@, src@) is Some && text::texts(v@) == top_keys(
                py_file_index("__anon__.py"@, src@)->0.symbols,
            ),
            Err(_) => py_file_index("__anon__.py"@, src@) is None,
        },
{
    match index_python_file("__anon__.py", src) {
        Ok(idx) => Ok(top_level_keys(&idx)),
        Err(e) => Err(e),
    }
}

/// The module that a Python file is: its path without the ending, with points between the parts.
pub open spec fn py_module_key(path: Seq<char>) -> Seq<char> {
    text::replaced(text::without_endings(path, ".py"@), '/', '.')
}

/// Builds the name of the module that a Python file is.
pub fn path_to_python_module_key(rel_path: &str) -> (r: String)
    ensures
        r@ == py_module_key(rel_path@),
{
    let a = text_drop_endings(rel_path, ".py");
    let cs = chars_of(a.as_str());
    text_of(&chars_replace(&cs, '/', '.'))
}

} // verus!
