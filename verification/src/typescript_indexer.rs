//! TypeScript source files: what their syntax trees say, and what can be made out without a tree.

use crate::file_index;
use crate::file_index::{
    CallReceiver, CallView, ExtendsView, Fact, FactView, FileIndex, ImportStyle, ImportView,
    IndexView, ParsedCall, ParsedExtends, ParsedImport, ParsedUse, ReceiverView, UseView,
    add_fact, add_name, assign_collision_disambiguators, file_symbol_of, member_key_of,
    read_some_text, symbol_of,
};
use crate::graph::{Language, NodeKind};
use crate::language_indexer;
use crate::language_indexer::{IndexError, LanguageIndexer};
use crate::matched_facts;
use crate::matched_facts::note_named_functions;
use crate::regexes;
use crate::regexes::{
    Capture, CaptureView, find_captures, find_captures_or_nothing, is_behind_point,
};
use crate::spans;
use crate::spans::span_from_byte_range;
use crate::syntax;
use crate::syntax::{Grammar, SyntaxNode, TreeView, parse_source};
use crate::text;
use crate::text::{
    chars_of, chars_replace, chars_split, owned, same_text, text_drop_endings, text_finishes_with,
    text_of, text_strip, text_trim,
};
use vstd::prelude::*;

verus! {

/// A type that is part of the language.
pub open spec fn ts_builtin(name: Seq<char>) -> bool {
    name == "void"@ || name == "string"@ || name == "number"@ || name == "boolean"@ ||
    name == "any"@ || name == "unknown"@ || name == "never"@ || name == "undefined"@ ||
    name == "null"@ || name == "symbol"@ || name == "bigint"@ || name == "object"@
}

/// Whether it is a type that is part of the language.
fn is_ts_builtin(name: &str) -> (r: bool)
    ensures
        r == ts_builtin(name@),
{
    same_text(name, "void") || same_text(name, "string") || same_text(name, "number") ||
    same_text(name, "boolean") || same_text(name, "any") || same_text(name, "unknown") ||
    same_text(name, "never") || same_text(name, "undefined") || same_text(name, "null") ||
    same_text(name, "symbol") || same_text(name, "bigint") || same_text(name, "object")
}

/// A name whose calls are of no interest.
pub open spec fn ts_quiet(name: Seq<char>) -> bool {
    name == "console"@ || name == "log"@ || name == "warn"@ || name == "error"@ ||
    name == "info"@ || name == "debug"@ || name == "require"@ || name == "parseInt"@ ||
    name == "parseFloat"@ || name == "isNaN"@ || name == "setTimeout"@ || name == "setInterval"@
}

/// Whether it is a name whose calls are of no interest.
fn is_ts_quiet(name: &str) -> (r: bool)
    ensures
        r == ts_quiet(name@),
{
    same_text(name, "console") || same_text(name, "log") || same_text(name, "warn") ||
    same_text(name, "error") || same_text(name, "info") || same_text(name, "debug") ||
    same_text(name, "require") || same_text(name, "parseInt") ||
    same_text(name, "parseFloat") || same_text(name, "isNaN") ||
    same_text(name, "setTimeout") || same_text(name, "setInterval")
}

/// A kind of node that is a function.
pub open spec fn ts_function_value(name: Seq<char>) -> bool {
    name == "arrow_function"@ || name == "function_expression"@ || name == "function"@
}

/// Whether it is a kind of node that is a function.
fn is_ts_function_value(name: &str) -> (r: bool)
    ensures
        r == ts_function_value(name@),
{
    same_text(name, "arrow_function") || same_text(name, "function_expression") ||
    same_text(name, "function")
}

/// What is called: a name, `this`, or a member of what is called.
pub open spec fn ts_receiver(t: TreeView) -> Option<ReceiverView>
    decreases t,
{
    if t.kind == "identifier"@ {
        Some(ReceiverView::Bare(t.text))
    } else if t.kind == "this"@ {
        Some(ReceiverView::Bare("this"@))
    } else if t.kind == "member_expression"@ {
        proof {
            syntax::lemma_field_smaller(t, "object"@);
        }
        match (syntax::field_of(t, "object"@), syntax::field_of(t, "property"@)) {
            (Some(o), Some(p)) => match ts_receiver(o) {
                Some(r) => Some(ReceiverView::Attr { object: Box::new(r), name: p.text }),
                None => None,
            },
            _ => None,
        }
    } else {
        None
    }
}

/// Reads what is called.
pub fn parse_call_receiver(node: &SyntaxNode) -> (r: Option<CallReceiver>)
    ensures
        match r {
            Some(c) => ts_receiver(node@) == Some(c@),
            None => ts_receiver(node@) is None,
        },
    decreases node,
{
    if node.is("identifier") {
        Some(CallReceiver::Bare(owned(node.text.as_str())))
    } else if node.is("this") {
        Some(CallReceiver::Bare(owned("this")))
    } else if node.is("member_expression") {
        match (node.child_by_field_name("object"), node.child_by_field_name("property")) {
            (Some(o), Some(p)) => match parse_call_receiver(o) {
                Some(c) => Some(
                    CallReceiver::Attr { object: Box::new(c), name: owned(p.text.as_str()) },
                ),
                None => None,
            },
            _ => None,
        }
    } else {
        None
    }
}

/// The text of the last named node among some.
pub open spec fn last_named_text(s: Seq<TreeView>) -> Option<Seq<char>>
    decreases s.len(),
{
    if s.len() == 0 {
        None
    } else if s.last().named {
        Some(s.last().text)
    } else {
        last_named_text(s.drop_last())
    }
}

/// The name of a type.
pub open spec fn ts_type_name(t: TreeView) -> Option<Seq<char>>
    decreases t,
{
    if t.kind == "type_identifier"@ || t.kind == "identifier"@ {
        file_index::some_text(t.text)
    } else if t.kind == "generic_type"@ || t.kind == "type_reference"@ {
        ts_first_type_name(t.children)
    } else if t.kind == "nested_type_identifier"@ {
        match last_named_text(t.children) {
            Some(x) => file_index::some_text(x),
            None => None,
        }
    } else {
        None
    }
}

/// The name of the type that the first named node among some is.
pub open spec fn ts_first_type_name(s: Seq<TreeView>) -> Option<Seq<char>>
    decreases s,
{
    if s.len() == 0 {
        None
    } else if s[0].named {
        ts_type_name(s[0])
    } else {
        ts_first_type_name(s.skip(1))
    }
}

/// Reads the name of a type.
pub fn simple_type_name(node: &SyntaxNode) -> (r: Option<String>)
    ensures
        syntax::text_view(r) == ts_type_name(node@),
    decreases node,
{
    let ghost s = node@.children;
    proof {
        syntax::lemma_forest(node.children@);
        assert(s.skip(0) =~= s);
        assert(s.take(s.len() as int) =~= s);
    }
    if node.is("type_identifier") || node.is("identifier") {
        read_some_text(node.text.as_str())
    } else if node.is("generic_type") || node.is("type_reference") {
        let mut i: usize = 0;
        while i < node.children.len()
            invariant
                i <= node.children.len(),
                s == syntax::forest_of(node.children@),
                s == node@.children,
                s.len() == node.children.len(),
                forall|j: int| 0 <= j < s.len() ==> #[trigger] s[j] == syntax::tree_of(node.children@[j]),
                ts_first_type_name(s.skip(i as int)) == ts_first_type_name(s),
                ts_type_name(node@) == ts_first_type_name(s),
            decreases node.children.len() - i,
        {
            let c = &node.children[i];
            proof {
                assert(decreases_to!(node => node.children@[i as int]));
                assert(s.skip(i as int)[0] == c@);
                assert(s.skip(i as int).skip(1) =~= s.skip(i + 1));
            }
            if c.named {
                return simple_type_name(c);
            }
            i = i + 1;
        }
        None
    } else if node.is("nested_type_identifier") {
        let mut i: usize = node.children.len();
        while i > 0
            invariant
                i <= node.children.len(),
                s == syntax::forest_of(node.children@),
                s == node@.children,
                s.len() == node.children.len(),
                forall|j: int| 0 <= j < s.len() ==> #[trigger] s[j] == syntax::tree_of(node.children@[j]),
                last_named_text(s.take(i as int)) == last_named_text(s),
                ts_type_name(node@) == (match last_named_text(s) {
                    Some(x) => file_index::some_text(x),
                    None => None,
                }),
            decreases i,
        {
            let c = &node.children[i - 1];
            proof {
                assert(s.take(i as int).last() == c@);
                assert(s.take(i as int).drop_last() =~= s.take(i - 1));
            }
            if c.named {
                return read_some_text(c.text.as_str());
            }
            i = i - 1;
        }
        None
    } else {
        None
    }
}

/// The use of a type that a node is, unless the type is part of the language.
pub open spec fn ts_type_use(t: TreeView, owner: Seq<char>) -> Seq<FactView> {
    match ts_type_name(t) {
        Some(n) => if ts_builtin(n) {
            Seq::empty()
        } else {
            seq![FactView::Use(UseView { owner, type_ref: n, span: t.span })]
        },
        None => Seq::empty(),
    }
}

/// Notes the use of a type that a node is.
fn record_type_use(node: &SyntaxNode, owner: &str, facts: &mut Vec<Fact>)
    ensures
        file_index::fact_views(final(facts)@) == file_index::fact_views(old(facts)@) + ts_type_use(node@, owner@),
{
    let ghost start = file_index::fact_views(facts@);
    if let Some(n) = simple_type_name(node) {
        if !is_ts_builtin(n.as_str()) {
            add_fact(
                facts,
                Fact::Use(
                    ParsedUse { owner_stable_key: owned(owner), type_ref: n, span: node.span },
                ),
            );
        }
    }
    assert(file_index::fact_views(facts@) =~= start + ts_type_use(node@, owner@));
}

/// The uses of types that named nodes are.
pub open spec fn ts_type_uses(s: Seq<TreeView>, owner: Seq<char>) -> Seq<FactView>
    decreases s.len(),
{
    if s.len() == 0 {
        Seq::empty()
    } else if s.last().named {
        ts_type_uses(s.drop_last(), owner) + ts_type_use(s.last(), owner)
    } else {
        ts_type_uses(s.drop_last(), owner)
    }
}

/// The uses of types that a node itself states.
pub open spec fn ts_own_types(t: TreeView, owner: Seq<char>) -> Seq<FactView> {
    if t.kind == "type_annotation"@ {
        ts_type_uses(t.children, owner)
    } else if t.kind == "type_identifier"@ || t.kind == "generic_type"@ || t.kind
        == "type_reference"@ {
        ts_type_use(t, owner)
    } else {
        Seq::empty()
    }
}

/// Notes the uses of types that a node itself states.
fn own_types(node: &SyntaxNode, owner: &str, facts: &mut Vec<Fact>)
    ensures
        file_index::fact_views(final(facts)@) == file_index::fact_views(old(facts)@) + ts_own_types(node@, owner@),
{
    let ghost start = file_index::fact_views(facts@);
    let ghost s = node@.children;
    proof {
        syntax::lemma_forest(node.children@);
        assert(s.take(0) =~= Seq::<TreeView>::empty());
        assert(start + ts_type_uses(s.take(0), owner@) =~= start);
        assert(s.take(s.len() as int) =~= s);
        assert(start + Seq::<FactView>::empty() =~= start);
    }
    if node.is("type_annotation") {
        let mut i: usize = 0;
        while i < node.children.len()
            invariant
                i <= node.children.len(),
                s == syntax::forest_of(node.children@),
                s.len() == node.children.len(),
                forall|j: int| 0 <= j < s.len() ==> #[trigger] s[j] == syntax::tree_of(node.children@[j]),
                file_index::fact_views(facts@) == start + ts_type_uses(s.take(i as int), owner@),
            decreases node.children.len() - i,
        {
            let c = &node.children[i];
            proof {
                assert(s.take(i + 1).drop_last() =~= s.take(i as int));
                assert(s.take(i + 1).last() == c@);
            }
            if c.named {
                record_type_use(c, owner, facts);
                assert(file_index::fact_views(facts@) =~= start + ts_type_uses(s.take(i + 1), owner@));
            }
            i = i + 1;
        }
    } else if node.is("type_identifier") || node.is("generic_type") || node.is("type_reference") {
        record_type_use(node, owner, facts);
    }
}

/// The uses of types in a tree.
pub open spec fn ts_types(t: TreeView, owner: Seq<char>) -> Seq<FactView>
    decreases t,
{
    ts_own_types(t, owner) + ts_types_all(t.children, owner)
}

/// The uses of types in named trees.
pub open spec fn ts_types_all(s: Seq<TreeView>, owner: Seq<char>) -> Seq<FactView>
    decreases s,
{
    if s.len() == 0 {
        Seq::empty()
    } else if s.last().named {
        ts_types_all(s.drop_last(), owner) + ts_types(s.last(), owner)
    } else {
        ts_types_all(s.drop_last(), owner)
    }
}

/// Notes the uses of types in a tree.
fn visit_type_annotations(
    node: &SyntaxNode,
    owner: &str,
    facts: &mut Vec<Fact>,
)
    ensures
        file_index::fact_views(final(facts)@) == file_index::fact_views(old(facts)@) + ts_types(node@, owner@),
    decreases node,
{
    let ghost start = file_index::fact_views(facts@);
    own_types(node, owner, facts);
    let ghost base = file_index::fact_views(facts@);
    let ghost s = node@.children;
    let mut i: usize = 0;
    proof {
        syntax::lemma_forest(node.children@);
        assert(s.take(0) =~= Seq::<TreeView>::empty());
        assert(base + ts_types_all(s.take(0), owner@) =~= base);
    }
    while i < node.children.len()
        invariant
            i <= node.children.len(),
            s == syntax::forest_of(node.children@),
            s.len() == node.children.len(),
            forall|j: int| 0 <= j < s.len() ==> #[trigger] s[j] == syntax::tree_of(node.children@[j]),
            file_index::fact_views(facts@) == base + ts_types_all(s.take(i as int), owner@),
        decreases node.children.len() - i,
    {
        let c = &node.children[i];
        let ghost before = file_index::fact_views(facts@);
        proof {
            assert(decreases_to!(node => node.children@[i as int]));
            assert(s.take(i + 1).drop_last() =~= s.take(i as int));
            assert(s.take(i + 1).last() == c@);
        }
        if c.named {
            visit_type_annotations(c, owner, facts);
            assert(file_index::fact_views(facts@) =~= base + ts_types_all(s.take(i + 1), owner@));
        }
        i = i + 1;
    }
    proof {
        assert(s.take(s.len() as int) =~= s);
        assert(file_index::fact_views(facts@) =~= start + ts_types(node@, owner@));
    }
}

/// What `char::is_uppercase` says of a character.
pub uninterp spec fn uppercase_char(c: char) -> bool;

/// `char::is_uppercase`: what it says is settled by the character; of ASCII characters just those
/// from `A` to `Z` are upper case.
#[verifier::external_body]
pub(crate) fn is_upper(c: char) -> (r: bool)
    ensures
        r == uppercase_char(c),
        (c as u32) <= 127 ==> r == ('A' <= c && c <= 'Z'),
{
    c.is_uppercase()
}

/// The call or the component that a node itself states.
pub open spec fn ts_own_calls(t: TreeView, caller: Seq<char>) -> Seq<FactView> {
    if t.kind == "call_expression"@ {
        match syntax::field_of(t, "function"@) {
            Some(f) => match ts_receiver(f) {
                Some(r) => if ts_quiet(file_index::leaf_of(r)) {
                    Seq::empty()
                } else {
                    seq![FactView::Call(CallView { caller, callee: r, span: t.span })]
                },
                None => Seq::empty(),
            },
            None => Seq::empty(),
        }
    } else if t.kind == "new_expression"@ {
        match syntax::field_of(t, "constructor"@) {
            Some(f) => match ts_receiver(f) {
                Some(r) => seq![FactView::Call(CallView { caller, callee: r, span: t.span })],
                None => Seq::empty(),
            },
            None => Seq::empty(),
        }
    } else if t.kind == "jsx_self_closing_element"@ || t.kind == "jsx_opening_element"@ {
        match syntax::field_of(t, "name"@) {
            Some(n) => if n.text.len() > 0 && uppercase_char(n.text[0]) {
                seq![FactView::Use(UseView { owner: caller, type_ref: n.text, span: n.span })]
            } else {
                Seq::empty()
            },
            None => Seq::empty(),
        }
    } else {
        Seq::empty()
    }
}

/// Notes the call or the component that a node itself states.
fn own_calls(node: &SyntaxNode, caller: &str, facts: &mut Vec<Fact>)
    ensures
        file_index::fact_views(final(facts)@) == file_index::fact_views(old(facts)@) + ts_own_calls(node@, caller@),
{
    let ghost start = file_index::fact_views(facts@);
    if node.is("call_expression") {
        if let Some(f) = node.child_by_field_name("function") {
            if let Some(callee) = parse_call_receiver(f) {
                if !is_ts_quiet(callee.leaf_name()) {
                    add_fact(
                        facts,
                        Fact::Call(
                            ParsedCall {
                                caller_stable_key: owned(caller),
                                callee,
                                span: node.span,
                            },
                        ),
                    );
                }
            }
        }
    } else if node.is("new_expression") {
        if let Some(f) = node.child_by_field_name("constructor") {
            if let Some(callee) = parse_call_receiver(f) {
                add_fact(
                    facts,
                    Fact::Call(
                        ParsedCall { caller_stable_key: owned(caller), callee, span: node.span },
                    ),
                );
            }
        }
    } else if node.is("jsx_self_closing_element") || node.is("jsx_opening_element") {
        if let Some(n) = node.child_by_field_name("name") {
            let cs = chars_of(n.text.as_str());
            if cs.len() > 0 && is_upper(cs[0]) {
                add_fact(
                    facts,
                    Fact::Use(
                        ParsedUse {
                            owner_stable_key: owned(caller),
                            type_ref: owned(n.text.as_str()),
                            span: n.span,
                        },
                    ),
                );
            }
        }
    }
    assert(file_index::fact_views(facts@) =~= start + ts_own_calls(node@, caller@));
}

/// The calls and components in a tree.
pub open spec fn ts_calls(t: TreeView, caller: Seq<char>) -> Seq<FactView>
    decreases t,
{
    ts_own_calls(t, caller) + ts_calls_all(t.children, caller)
}

/// The calls and components in named trees.
pub open spec fn ts_calls_all(s: Seq<TreeView>, caller: Seq<char>) -> Seq<FactView>
    decreases s,
{
    if s.len() == 0 {
        Seq::empty()
    } else if s.last().named {
        ts_calls_all(s.drop_last(), caller) + ts_calls(s.last(), caller)
    } else {
        ts_calls_all(s.drop_last(), caller)
    }
}

/// Notes the calls and components in a tree.
fn visit_calls(
    node: &SyntaxNode,
    caller: &str,
    facts: &mut Vec<Fact>,
)
    ensures
        file_index::fact_views(final(facts)@) == file_index::fact_views(old(facts)@) + ts_calls(node@, caller@),
    decreases node,
{
    let ghost start = file_index::fact_views(facts@);
    own_calls(node, caller, facts);
    let ghost base = file_index::fact_views(facts@);
    let ghost s = node@.children;
    let mut i: usize = 0;
    proof {
        syntax::lemma_forest(node.children@);
        assert(s.take(0) =~= Seq::<TreeView>::empty());
        assert(base + ts_calls_all(s.take(0), caller@) =~= base);
    }
    while i < node.children.len()
        invariant
            i <= node.children.len(),
            s == syntax::forest_of(node.children@),
            s.len() == node.children.len(),
            forall|j: int| 0 <= j < s.len() ==> #[trigger] s[j] == syntax::tree_of(node.children@[j]),
            file_index::fact_views(facts@) == base + ts_calls_all(s.take(i as int), caller@),
        decreases node.children.len() - i,
    {
        let c = &node.children[i];
        let ghost before = file_index::fact_views(facts@);
        proof {
            assert(decreases_to!(node => node.children@[i as int]));
            assert(s.take(i + 1).drop_last() =~= s.take(i as int));
            assert(s.take(i + 1).last() == c@);
        }
        if c.named {
            visit_calls(c, caller, facts);
            assert(file_index::fact_views(facts@) =~= base + ts_calls_all(s.take(i + 1), caller@));
        }
        i = i + 1;
    }
    proof {
        assert(s.take(s.len() as int) =~= s);
        assert(file_index::fact_views(facts@) =~= start + ts_calls(node@, caller@));
    }
}

/// The field of `this` that a node names.
pub open spec fn ts_this_field(t: TreeView) -> Option<Seq<char>> {
    if t.kind == "member_expression"@ {
        match (syntax::field_of(t, "object"@), syntax::field_of(t, "property"@)) {
            (Some(o), Some(p)) => if o.kind == "this"@ {
                file_index::some_text(p.text)
            } else {
                None
            },
            _ => None,
        }
    } else {
        None
    }
}

/// Reads the field of `this` that a node names.
fn this_field_from_target(node: &SyntaxNode) -> (r: Option<String>)
    ensures
        syntax::text_view(r) == ts_this_field(node@),
{
    if !node.is("member_expression") {
        return None;
    }
    match (node.child_by_field_name("object"), node.child_by_field_name("property")) {
        (Some(o), Some(p)) => {
            if o.is("this") {
                read_some_text(p.text.as_str())
            } else {
                None
            }
        },
        _ => None,
    }
}

/// The type that a value is made by: the first name of what is called for it.
pub open spec fn ts_made_by(t: TreeView) -> Option<Seq<char>> {
    let f = if t.kind == "new_expression"@ {
        syntax::field_of(t, "constructor"@)
    } else if t.kind == "call_expression"@ {
        syntax::field_of(t, "function"@)
    } else {
        None
    };
    match f {
        Some(c) => match ts_receiver(c) {
            Some(r) => Some(file_index::root_of(r)),
            None => None,
        },
        None => None,
    }
}

/// Reads the type that a value is made by.
fn infer_type_from_expr(node: &SyntaxNode) -> (r: Option<String>)
    ensures
        syntax::text_view(r) == ts_made_by(node@),
{
    let f = if node.is("new_expression") {
        node.child_by_field_name("constructor")
    } else if node.is("call_expression") {
        node.child_by_field_name("function")
    } else {
        None
    };
    match f {
        Some(c) => match parse_call_receiver(c) {
            Some(r) => Some(owned(r.root_bare_name())),
            None => None,
        },
        None => None,
    }
}

/// The field that a node itself sets.
pub open spec fn ts_own_fields(t: TreeView, class: Seq<char>) -> Seq<FactView> {
    if t.kind == "assignment_expression"@ {
        match (syntax::field_of(t, "left"@), syntax::field_of(t, "right"@)) {
            (Some(l), Some(r)) => match (ts_this_field(l), ts_made_by(r)) {
                (Some(field), Some(type_ref)) => if type_ref == "this"@ || type_ref == "self"@ {
                    Seq::empty()
                } else {
                    seq![FactView::Field { class, field, type_ref }]
                },
                _ => Seq::empty(),
            },
            _ => Seq::empty(),
        }
    } else {
        Seq::empty()
    }
}

/// Notes the field that a node itself sets.
fn own_fields(node: &SyntaxNode, class: &str, facts: &mut Vec<Fact>)
    ensures
        file_index::fact_views(final(facts)@) == file_index::fact_views(old(facts)@) + ts_own_fields(node@, class@),
{
    let ghost start = file_index::fact_views(facts@);
    if node.is("assignment_expression") {
        if let (Some(l), Some(r)) = (
            node.child_by_field_name("left"),
            node.child_by_field_name("right"),
        ) {
            if let (Some(field), Some(type_ref)) = (
                this_field_from_target(l),
                infer_type_from_expr(r),
            ) {
                if !same_text(type_ref.as_str(), "this") && !same_text(type_ref.as_str(), "self") {
                    add_fact(facts, Fact::Field { class_key: owned(class), field, type_ref });
                }
            }
        }
    }
    assert(file_index::fact_views(facts@) =~= start + ts_own_fields(node@, class@));
}

/// The fields that a tree sets.
pub open spec fn ts_fields(t: TreeView, class: Seq<char>) -> Seq<FactView>
    decreases t,
{
    ts_own_fields(t, class) + ts_fields_all(t.children, class)
}

/// The fields that named trees set.
pub open spec fn ts_fields_all(s: Seq<TreeView>, class: Seq<char>) -> Seq<FactView>
    decreases s,
{
    if s.len() == 0 {
        Seq::empty()
    } else if s.last().named {
        ts_fields_all(s.drop_last(), class) + ts_fields(s.last(), class)
    } else {
        ts_fields_all(s.drop_last(), class)
    }
}

/// Notes the fields that a tree sets.
fn visit_instance_fields(
    node: &SyntaxNode,
    class: &str,
    facts: &mut Vec<Fact>,
)
    ensures
        file_index::fact_views(final(facts)@) == file_index::fact_views(old(facts)@) + ts_fields(node@, class@),
    decreases node,
{
    let ghost start = file_index::fact_views(facts@);
    own_fields(node, class, facts);
    let ghost base = file_index::fact_views(facts@);
    let ghost s = node@.children;
    let mut i: usize = 0;
    proof {
        syntax::lemma_forest(node.children@);
        assert(s.take(0) =~= Seq::<TreeView>::empty());
        assert(base + ts_fields_all(s.take(0), class@) =~= base);
    }
    while i < node.children.len()
        invariant
            i <= node.children.len(),
            s == syntax::forest_of(node.children@),
            s.len() == node.children.len(),
            forall|j: int| 0 <= j < s.len() ==> #[trigger] s[j] == syntax::tree_of(node.children@[j]),
            file_index::fact_views(facts@) == base + ts_fields_all(s.take(i as int), class@),
        decreases node.children.len() - i,
    {
        let c = &node.children[i];
        let ghost before = file_index::fact_views(facts@);
        proof {
            assert(decreases_to!(node => node.children@[i as int]));
            assert(s.take(i + 1).drop_last() =~= s.take(i as int));
            assert(s.take(i + 1).last() == c@);
        }
        if c.named {
            visit_instance_fields(c, class, facts);
            assert(file_index::fact_views(facts@) =~= base + ts_fields_all(s.take(i + 1), class@));
        }
        i = i + 1;
    }
    proof {
        assert(s.take(s.len() as int) =~= s);
        assert(file_index::fact_views(facts@) =~= start + ts_fields(node@, class@));
    }
}

/// The uses of types in a field of a node.
pub open spec fn ts_types_at(t: TreeView, field: Seq<char>, owner: Seq<char>) -> Seq<FactView> {
    match syntax::field_of(t, field) {
        Some(c) => ts_types(c, owner),
        None => Seq::empty(),
    }
}

/// Notes the uses of types in a field of a node.
fn types_at(
    node: &SyntaxNode,
    field: &str,
    owner: &str,
    facts: &mut Vec<Fact>,
)
    ensures
        file_index::fact_views(final(facts)@) == file_index::fact_views(old(facts)@) + ts_types_at(node@, field@, owner@),
{
    match node.child_by_field_name(field) {
        Some(c) => visit_type_annotations(c, owner, facts),
        None => {
            assert(file_index::fact_views(facts@) + Seq::<FactView>::empty() =~= file_index::fact_views(facts@));
        },
    }
}

/// The calls in a field of a node.
pub open spec fn ts_calls_at(t: TreeView, field: Seq<char>, caller: Seq<char>) -> Seq<FactView> {
    match syntax::field_of(t, field) {
        Some(c) => ts_calls(c, caller),
        None => Seq::empty(),
    }
}

/// Notes the calls in a field of a node.
fn calls_at(
    node: &SyntaxNode,
    field: &str,
    caller: &str,
    facts: &mut Vec<Fact>,
)
    ensures
        file_index::fact_views(final(facts)@) == file_index::fact_views(old(facts)@) + ts_calls_at(node@, field@, caller@),
{
    match node.child_by_field_name(field) {
        Some(c) => visit_calls(c, caller, facts),
        None => {
            assert(file_index::fact_views(facts@) + Seq::<FactView>::empty() =~= file_index::fact_views(facts@));
        },
    }
}

/// The fields that a field of a node sets.
pub open spec fn ts_fields_at(t: TreeView, field: Seq<char>, class: Seq<char>) -> Seq<FactView> {
    match syntax::field_of(t, field) {
        Some(c) => ts_fields(c, class),
        None => Seq::empty(),
    }
}

/// Notes the fields that a field of a node sets.
fn fields_at(
    node: &SyntaxNode,
    field: &str,
    class: &str,
    facts: &mut Vec<Fact>,
)
    ensures
        file_index::fact_views(final(facts)@) == file_index::fact_views(old(facts)@) + ts_fields_at(node@, field@, class@),
{
    match node.child_by_field_name(field) {
        Some(c) => visit_instance_fields(c, class, facts),
        None => {
            assert(file_index::fact_views(facts@) + Seq::<FactView>::empty() =~= file_index::fact_views(facts@));
        },
    }
}

/// What a function states: the types of its signature, and the calls of its body.
pub open spec fn ts_callable(t: TreeView, key: Seq<char>) -> Seq<FactView> {
    ts_types_at(t, "parameters"@, key) + ts_types_at(t, "return_type"@, key) + ts_calls_at(
        t,
        "body"@,
        key,
    )
}

/// Notes what a function states.
fn note_callable(node: &SyntaxNode, key: &str, facts: &mut Vec<Fact>)
    ensures
        file_index::fact_views(final(facts)@) == file_index::fact_views(old(facts)@) + ts_callable(node@, key@),
{
    let ghost start = file_index::fact_views(facts@);
    types_at(node, "parameters", key, facts);
    types_at(node, "return_type", key, facts);
    calls_at(node, "body", key, facts);
    assert(file_index::fact_views(facts@) =~= start + ts_callable(node@, key@));
}

/// The base that a node names; nothing is said of `object`.
pub open spec fn ts_base(t: TreeView, class: Seq<char>) -> Seq<FactView> {
    match ts_type_name(t) {
        Some(base) => if base == "object"@ {
            Seq::empty()
        } else {
            seq![FactView::Extends(ExtendsView { class, base, span: t.span })]
        },
        None => Seq::empty(),
    }
}

/// Notes the base that a node names.
fn note_base(node: &SyntaxNode, class: &str, facts: &mut Vec<Fact>)
    ensures
        file_index::fact_views(final(facts)@) == file_index::fact_views(old(facts)@) + ts_base(node@, class@),
{
    let ghost start = file_index::fact_views(facts@);
    if let Some(base_name) = simple_type_name(node) {
        if !same_text(base_name.as_str(), "object") {
            add_fact(
                facts,
                Fact::Extends(
                    ParsedExtends { class_stable_key: owned(class), base_name, span: node.span },
                ),
            );
        }
    }
    assert(file_index::fact_views(facts@) =~= start + ts_base(node@, class@));
}

/// The bases that named nodes name.
pub open spec fn ts_bases(s: Seq<TreeView>, class: Seq<char>) -> Seq<FactView>
    decreases s.len(),
{
    if s.len() == 0 {
        Seq::empty()
    } else if s.last().named {
        ts_bases(s.drop_last(), class) + ts_base(s.last(), class)
    } else {
        ts_bases(s.drop_last(), class)
    }
}

/// Notes the bases that the children of a node name.
fn note_bases(
    node: &SyntaxNode,
    class: &str,
    facts: &mut Vec<Fact>,
)
    ensures
        file_index::fact_views(final(facts)@) == file_index::fact_views(old(facts)@) + ts_bases(node@.children, class@),
{
    let ghost base = file_index::fact_views(facts@);
    let ghost s = node@.children;
    let mut i: usize = 0;
    proof {
        syntax::lemma_forest(node.children@);
        assert(s.take(0) =~= Seq::<TreeView>::empty());
        assert(base + ts_bases(s.take(0), class@) =~= base);
    }
    while i < node.children.len()
        invariant
            i <= node.children.len(),
            s == syntax::forest_of(node.children@),
            s.len() == node.children.len(),
            forall|j: int| 0 <= j < s.len() ==> #[trigger] s[j] == syntax::tree_of(node.children@[j]),
            file_index::fact_views(facts@) == base + ts_bases(s.take(i as int), class@),
        decreases node.children.len() - i,
    {
        let c = &node.children[i];
        proof {
            assert(s.take(i + 1).drop_last() =~= s.take(i as int));
            assert(s.take(i + 1).last() == c@);
        }
        if c.named {
            note_base(c, class, facts);
            assert(file_index::fact_views(facts@) =~= base + ts_bases(s.take(i + 1), class@));
        }
        i = i + 1;
    }
    assert(s.take(s.len() as int) =~= s);
}

/// The bases that a part of a class header names.
pub open spec fn ts_heritage(t: TreeView, class: Seq<char>) -> Seq<FactView> {
    if t.kind == "extends_clause"@ || t.kind == "implements_clause"@ {
        ts_bases(t.children, class)
    } else {
        ts_base(t, class)
    }
}

/// Notes the bases that a part of a class header names.
fn note_heritage(node: &SyntaxNode, class: &str, facts: &mut Vec<Fact>)
    ensures
        file_index::fact_views(final(facts)@) == file_index::fact_views(old(facts)@) + ts_heritage(node@, class@),
{
    if node.is("extends_clause") || node.is("implements_clause") {
        note_bases(node, class, facts);
    } else {
        note_base(node, class, facts);
    }
}

/// The bases that the parts of a class header name.
pub open spec fn ts_heritages(s: Seq<TreeView>, class: Seq<char>) -> Seq<FactView>
    decreases s.len(),
{
    if s.len() == 0 {
        Seq::empty()
    } else if s.last().named {
        ts_heritages(s.drop_last(), class) + ts_heritage(s.last(), class)
    } else {
        ts_heritages(s.drop_last(), class)
    }
}

/// Notes the bases that a class header names.
fn record_heritage_bases(
    node: &SyntaxNode,
    class: &str,
    facts: &mut Vec<Fact>,
)
    ensures
        file_index::fact_views(final(facts)@) == file_index::fact_views(old(facts)@) + ts_heritages(node@.children, class@),
{
    let ghost base = file_index::fact_views(facts@);
    let ghost s = node@.children;
    let mut i: usize = 0;
    proof {
        syntax::lemma_forest(node.children@);
        assert(s.take(0) =~= Seq::<TreeView>::empty());
        assert(base + ts_heritages(s.take(0), class@) =~= base);
    }
    while i < node.children.len()
        invariant
            i <= node.children.len(),
            s == syntax::forest_of(node.children@),
            s.len() == node.children.len(),
            forall|j: int| 0 <= j < s.len() ==> #[trigger] s[j] == syntax::tree_of(node.children@[j]),
            file_index::fact_views(facts@) == base + ts_heritages(s.take(i as int), class@),
        decreases node.children.len() - i,
    {
        let c = &node.children[i];
        proof {
            assert(s.take(i + 1).drop_last() =~= s.take(i as int));
            assert(s.take(i + 1).last() == c@);
        }
        if c.named {
            note_heritage(c, class, facts);
            assert(file_index::fact_views(facts@) =~= base + ts_heritages(s.take(i + 1), class@));
        }
        i = i + 1;
    }
    assert(s.take(s.len() as int) =~= s);
}

/// The bases that a class header names.
pub open spec fn ts_header(t: TreeView, class: Seq<char>) -> Seq<FactView> {
    ts_heritages(t.children, class)
}

/// The bases that the headers among some nodes name.
pub open spec fn ts_headers(s: Seq<TreeView>, class: Seq<char>) -> Seq<FactView>
    decreases s.len(),
{
    if s.len() == 0 {
        Seq::empty()
    } else if s.last().named && s.last().kind == "class_heritage"@ {
        ts_headers(s.drop_last(), class) + ts_header(s.last(), class)
    } else {
        ts_headers(s.drop_last(), class)
    }
}

/// Notes the bases that the headers of a class name.
fn note_headers(
    node: &SyntaxNode,
    class: &str,
    facts: &mut Vec<Fact>,
)
    ensures
        file_index::fact_views(final(facts)@) == file_index::fact_views(old(facts)@) + ts_headers(node@.children, class@),
{
    let ghost base = file_index::fact_views(facts@);
    let ghost s = node@.children;
    let mut i: usize = 0;
    proof {
        syntax::lemma_forest(node.children@);
        assert(s.take(0) =~= Seq::<TreeView>::empty());
        assert(base + ts_headers(s.take(0), class@) =~= base);
    }
    while i < node.children.len()
        invariant
            i <= node.children.len(),
            s == syntax::forest_of(node.children@),
            s.len() == node.children.len(),
            forall|j: int| 0 <= j < s.len() ==> #[trigger] s[j] == syntax::tree_of(node.children@[j]),
            file_index::fact_views(facts@) == base + ts_headers(s.take(i as int), class@),
        decreases node.children.len() - i,
    {
        let c = &node.children[i];
        proof {
            assert(s.take(i + 1).drop_last() =~= s.take(i as int));
            assert(s.take(i + 1).last() == c@);
        }
        if c.named && c.is("class_heritage") {
            record_heritage_bases(c, class, facts);
            assert(file_index::fact_views(facts@) =~= base + ts_headers(s.take(i + 1), class@));
        }
        i = i + 1;
    }
    assert(s.take(s.len() as int) =~= s);
}

/// A member of a class is a function: a method, or a field whose value is a function.
pub open spec fn ts_member_calls(t: TreeView) -> bool {
    ||| t.kind == "method_definition"@
    ||| t.kind == "method_signature"@
    ||| t.kind == "public_field_definition"@ && (match syntax::field_of(t, "value"@) {
        Some(v) => ts_function_value(v.kind),
        None => false,
    })
}

/// What a member of a class states.
pub open spec fn ts_member(t: TreeView, path: Seq<char>, class: Seq<char>) -> Seq<FactView> {
    let name = syntax::field_text(t, "name"@);
    let key = file_index::member_key(class, name);
    if name.len() > 0 && ts_member_calls(t) {
        seq![FactView::Symbol(file_index::symbol_at(path, key, NodeKind::Function, t.span))] + ts_callable(
            t,
            key,
        ) + ts_fields_at(t, "body"@, class)
    } else {
        Seq::empty()
    }
}

/// Notes what a member of a class states.
fn note_member(node: &SyntaxNode, path: &str, class: &str, facts: &mut Vec<Fact>)
    ensures
        file_index::fact_views(final(facts)@) == file_index::fact_views(old(facts)@) + ts_member(node@, path@, class@),
{
    let ghost start = file_index::fact_views(facts@);
    let name = node.field_text("name");
    let calls = node.is("method_definition") || node.is("method_signature") || (node.is(
        "public_field_definition",
    ) && match node.child_by_field_name("value") {
        Some(v) => is_ts_function_value(v.kind.as_str()),
        None => false,
    });
    let cs = chars_of(name.as_str());
    if cs.len() > 0 && calls {
        let key = member_key_of(class, name.as_str());
        add_fact(
            facts,
            Fact::Symbol(symbol_of(path, key.as_str(), NodeKind::Function, node.span)),
        );
        note_callable(node, key.as_str(), facts);
        fields_at(node, "body", class, facts);
    }
    assert(file_index::fact_views(facts@) =~= start + ts_member(node@, path@, class@));
}

/// What the members of a class state.
pub open spec fn ts_members(s: Seq<TreeView>, path: Seq<char>, class: Seq<char>) -> Seq<FactView>
    decreases s.len(),
{
    if s.len() == 0 {
        Seq::empty()
    } else if s.last().named {
        ts_members(s.drop_last(), path, class) + ts_member(s.last(), path, class)
    } else {
        ts_members(s.drop_last(), path, class)
    }
}

/// Notes what the members of a class state.
fn visit_class_body(
    node: &SyntaxNode,
    path: &str,
    class: &str,
    facts: &mut Vec<Fact>,
)
    ensures
        file_index::fact_views(final(facts)@) == file_index::fact_views(old(facts)@) + ts_members(node@.children, path@, class@),
{
    let ghost base = file_index::fact_views(facts@);
    let ghost s = node@.children;
    let mut i: usize = 0;
    proof {
        syntax::lemma_forest(node.children@);
        assert(s.take(0) =~= Seq::<TreeView>::empty());
        assert(base + ts_members(s.take(0), path@, class@) =~= base);
    }
    while i < node.children.len()
        invariant
            i <= node.children.len(),
            s == syntax::forest_of(node.children@),
            s.len() == node.children.len(),
            forall|j: int| 0 <= j < s.len() ==> #[trigger] s[j] == syntax::tree_of(node.children@[j]),
            file_index::fact_views(facts@) == base + ts_members(s.take(i as int), path@, class@),
        decreases node.children.len() - i,
    {
        let c = &node.children[i];
        proof {
            assert(s.take(i + 1).drop_last() =~= s.take(i as int));
            assert(s.take(i + 1).last() == c@);
        }
        if c.named {
            note_member(c, path, class, facts);
            assert(file_index::fact_views(facts@) =~= base + ts_members(s.take(i + 1), path@, class@));
        }
        i = i + 1;
    }
    assert(s.take(s.len() as int) =~= s);
}

/// What a class states: itself, its bases, the types of its parameters, and its members.
pub open spec fn ts_class(t: TreeView, path: Seq<char>) -> Seq<FactView> {
    let name = syntax::field_text(t, "name"@);
    if name.len() == 0 {
        Seq::empty()
    } else {
        seq![FactView::Symbol(file_index::symbol_at(path, name, NodeKind::Class, t.span))] + ts_headers(
            t.children,
            name,
        ) + ts_types_at(t, "type_parameters"@, name) + (match syntax::field_of(t, "body"@) {
            Some(b) => ts_members(b.children, path, name),
            None => Seq::empty(),
        })
    }
}

/// Notes what a class states.
fn index_class_like(node: &SyntaxNode, path: &str, facts: &mut Vec<Fact>)
    ensures
        file_index::fact_views(final(facts)@) == file_index::fact_views(old(facts)@) + ts_class(node@, path@),
{
    let ghost start = file_index::fact_views(facts@);
    let name = node.field_text("name");
    let cs = chars_of(name.as_str());
    if cs.len() > 0 {
        add_fact(
            facts,
            Fact::Symbol(symbol_of(path, name.as_str(), NodeKind::Class, node.span)),
        );
        note_headers(node, name.as_str(), facts);
        types_at(node, "type_parameters", name.as_str(), facts);
        if let Some(body) = node.child_by_field_name("body") {
            visit_class_body(body, path, name.as_str(), facts);
        }
    }
    assert(file_index::fact_views(facts@) =~= start + ts_class(node@, path@));
}

/// What a function declaration states.
pub open spec fn ts_function(t: TreeView, path: Seq<char>) -> Seq<FactView> {
    let name = syntax::field_text(t, "name"@);
    if name.len() == 0 {
        Seq::empty()
    } else {
        seq![FactView::Symbol(file_index::symbol_at(path, name, NodeKind::Function, t.span))] + ts_callable(
            t,
            name,
        )
    }
}

/// Notes what a function declaration states.
fn note_function(node: &SyntaxNode, path: &str, facts: &mut Vec<Fact>)
    ensures
        file_index::fact_views(final(facts)@) == file_index::fact_views(old(facts)@) + ts_function(node@, path@),
{
    let ghost start = file_index::fact_views(facts@);
    let name = node.field_text("name");
    let cs = chars_of(name.as_str());
    if cs.len() > 0 {
        add_fact(
            facts,
            Fact::Symbol(symbol_of(path, name.as_str(), NodeKind::Function, node.span)),
        );
        note_callable(node, name.as_str(), facts);
    }
    assert(file_index::fact_views(facts@) =~= start + ts_function(node@, path@));
}

/// The interface that a node names as a base.
pub open spec fn ts_parent(t: TreeView, class: Seq<char>) -> Seq<FactView> {
    match ts_type_name(t) {
        Some(base) => seq![FactView::Extends(ExtendsView { class, base, span: t.span })],
        None => Seq::empty(),
    }
}

/// Notes the interface that a node names as a base.
fn note_parent(node: &SyntaxNode, class: &str, facts: &mut Vec<Fact>)
    ensures
        file_index::fact_views(final(facts)@) == file_index::fact_views(old(facts)@) + ts_parent(node@, class@),
{
    let ghost start = file_index::fact_views(facts@);
    if let Some(base_name) = simple_type_name(node) {
        add_fact(
            facts,
            Fact::Extends(
                ParsedExtends { class_stable_key: owned(class), base_name, span: node.span },
            ),
        );
    }
    assert(file_index::fact_views(facts@) =~= start + ts_parent(node@, class@));
}

/// The interfaces that named nodes name as bases.
pub open spec fn ts_parents(s: Seq<TreeView>, class: Seq<char>) -> Seq<FactView>
    decreases s.len(),
{
    if s.len() == 0 {
        Seq::empty()
    } else if s.last().named {
        ts_parents(s.drop_last(), class) + ts_parent(s.last(), class)
    } else {
        ts_parents(s.drop_last(), class)
    }
}

/// Notes the interfaces that the children of a node name as bases.
fn note_parents(
    node: &SyntaxNode,
    class: &str,
    facts: &mut Vec<Fact>,
)
    ensures
        file_index::fact_views(final(facts)@) == file_index::fact_views(old(facts)@) + ts_parents(node@.children, class@),
{
    let ghost base = file_index::fact_views(facts@);
    let ghost s = node@.children;
    let mut i: usize = 0;
    proof {
        syntax::lemma_forest(node.children@);
        assert(s.take(0) =~= Seq::<TreeView>::empty());
        assert(base + ts_parents(s.take(0), class@) =~= base);
    }
    while i < node.children.len()
        invariant
            i <= node.children.len(),
            s == syntax::forest_of(node.children@),
            s.len() == node.children.len(),
            forall|j: int| 0 <= j < s.len() ==> #[trigger] s[j] == syntax::tree_of(node.children@[j]),
            file_index::fact_views(facts@) == base + ts_parents(s.take(i as int), class@),
        decreases node.children.len() - i,
    {
        let c = &node.children[i];
        proof {
            assert(s.take(i + 1).drop_last() =~= s.take(i as int));
            assert(s.take(i + 1).last() == c@);
        }
        if c.named {
            note_parent(c, class, facts);
            assert(file_index::fact_views(facts@) =~= base + ts_parents(s.take(i + 1), class@));
        }
        i = i + 1;
    }
    assert(s.take(s.len() as int) =~= s);
}

/// The interfaces that a clause names as bases.
pub open spec fn ts_clause(t: TreeView, class: Seq<char>) -> Seq<FactView> {
    ts_parents(t.children, class)
}

/// The interfaces that the clauses among some nodes name as bases.
pub open spec fn ts_clauses(s: Seq<TreeView>, class: Seq<char>) -> Seq<FactView>
    decreases s.len(),
{
    if s.len() == 0 {
        Seq::empty()
    } else if s.last().named && (s.last().kind == "extends_type_clause"@ || s.last().kind == "extends_clause"@) {
        ts_clauses(s.drop_last(), class) + ts_clause(s.last(), class)
    } else {
        ts_clauses(s.drop_last(), class)
    }
}

/// Notes the interfaces that the clauses of an interface name as bases.
fn note_clauses(
    node: &SyntaxNode,
    class: &str,
    facts: &mut Vec<Fact>,
)
    ensures
        file_index::fact_views(final(facts)@) == file_index::fact_views(old(facts)@) + ts_clauses(node@.children, class@),
{
    let ghost base = file_index::fact_views(facts@);
    let ghost s = node@.children;
    let mut i: usize = 0;
    proof {
        syntax::lemma_forest(node.children@);
        assert(s.take(0) =~= Seq::<TreeView>::empty());
        assert(base + ts_clauses(s.take(0), class@) =~= base);
    }
    while i < node.children.len()
        invariant
            i <= node.children.len(),
            s == syntax::forest_of(node.children@),
            s.len() == node.children.len(),
            forall|j: int| 0 <= j < s.len() ==> #[trigger] s[j] == syntax::tree_of(node.children@[j]),
            file_index::fact_views(facts@) == base + ts_clauses(s.take(i as int), class@),
        decreases node.children.len() - i,
    {
        let c = &node.children[i];
        proof {
            assert(s.take(i + 1).drop_last() =~= s.take(i as int));
            assert(s.take(i + 1).last() == c@);
        }
        if c.named && (c.is("extends_type_clause") || c.is("extends_clause")) {
            note_parents(c, class, facts);
            assert(file_index::fact_views(facts@) =~= base + ts_clauses(s.take(i + 1), class@));
        }
        i = i + 1;
    }
    assert(s.take(s.len() as int) =~= s);
}

/// What an interface, an alias of a type or an enumeration states.
pub open spec fn ts_named_type(t: TreeView, path: Seq<char>) -> Seq<FactView> {
    let name = syntax::field_text(t, "name"@);
    if name.len() == 0 {
        Seq::empty()
    } else {
        seq![FactView::Symbol(file_index::symbol_at(path, name, NodeKind::Class, t.span))] + (if t.kind
            == "interface_declaration"@ {
            ts_clauses(t.children, name)
        } else if t.kind == "type_alias_declaration"@ {
            ts_types_at(t, "value"@, name)
        } else {
            Seq::empty()
        })
    }
}

/// Notes what an interface, an alias of a type or an enumeration states.
fn note_named_type(node: &SyntaxNode, path: &str, facts: &mut Vec<Fact>)
    ensures
        file_index::fact_views(final(facts)@) == file_index::fact_views(old(facts)@) + ts_named_type(node@, path@),
{
    let ghost start = file_index::fact_views(facts@);
    let name = node.field_text("name");
    let cs = chars_of(name.as_str());
    if cs.len() > 0 {
        add_fact(
            facts,
            Fact::Symbol(symbol_of(path, name.as_str(), NodeKind::Class, node.span)),
        );
        if node.is("interface_declaration") {
            note_clauses(node, name.as_str(), facts);
        } else if node.is("type_alias_declaration") {
            types_at(node, "value", name.as_str(), facts);
        }
    }
    assert(file_index::fact_views(facts@) =~= start + ts_named_type(node@, path@));
}

/// A value is a function.
pub open spec fn ts_function_at(t: TreeView) -> bool {
    match syntax::field_of(t, "value"@) {
        Some(v) => ts_function_value(v.kind) || v.kind == "generator_function"@,
        None => false,
    }
}

/// What a variable with its value states: a function is a symbol; the types of another variable
/// are used by the file.
pub open spec fn ts_variable(t: TreeView, path: Seq<char>) -> Seq<FactView> {
    let functional = ts_function_at(t);
    let own = match (syntax::field_of(t, "name"@), syntax::field_of(t, "value"@)) {
        (Some(n), Some(v)) => if n.kind == "identifier"@ && functional {
            seq![FactView::Symbol(file_index::symbol_at(path, n.text, NodeKind::Function, t.span))]
                + ts_callable(v, n.text)
        } else {
            Seq::empty()
        },
        _ => Seq::empty(),
    };
    let owner = if functional {
        match syntax::field_of(t, "name"@) {
            Some(n) => n.text,
            None => "$file"@,
        }
    } else {
        "$file"@
    };
    own + ts_types_at(t, "type"@, owner)
}

/// Notes what a variable with its value states.
fn note_variable(node: &SyntaxNode, path: &str, facts: &mut Vec<Fact>)
    ensures
        file_index::fact_views(final(facts)@) == file_index::fact_views(old(facts)@) + ts_variable(node@, path@),
{
    let ghost start = file_index::fact_views(facts@);
    let functional = match node.child_by_field_name("value") {
        Some(v) => is_ts_function_value(v.kind.as_str()) || v.is("generator_function"),
        None => false,
    };
    if let (Some(n), Some(v)) = (
        node.child_by_field_name("name"),
        node.child_by_field_name("value"),
    ) {
        if n.is("identifier") && functional {
            add_fact(
                facts,
                Fact::Symbol(symbol_of(path, n.text.as_str(), NodeKind::Function, node.span)),
            );
            note_callable(v, n.text.as_str(), facts);
        }
    }
    let owner = if functional {
        match node.child_by_field_name("name") {
            Some(n) => owned(n.text.as_str()),
            None => owned("$file"),
        }
    } else {
        owned("$file")
    };
    types_at(node, "type", owner.as_str(), facts);
    assert(file_index::fact_views(facts@) =~= start + ts_variable(node@, path@));
}

/// What the variables among some nodes state.
pub open spec fn ts_variables(s: Seq<TreeView>, path: Seq<char>) -> Seq<FactView>
    decreases s.len(),
{
    if s.len() == 0 {
        Seq::empty()
    } else if s.last().named && s.last().kind == "variable_declarator"@ {
        ts_variables(s.drop_last(), path) + ts_variable(s.last(), path)
    } else {
        ts_variables(s.drop_last(), path)
    }
}

/// Notes what the variables of a declaration state.
fn note_variables(
    node: &SyntaxNode,
    path: &str,
    facts: &mut Vec<Fact>,
)
    ensures
        file_index::fact_views(final(facts)@) == file_index::fact_views(old(facts)@) + ts_variables(node@.children, path@),
{
    let ghost base = file_index::fact_views(facts@);
    let ghost s = node@.children;
    let mut i: usize = 0;
    proof {
        syntax::lemma_forest(node.children@);
        assert(s.take(0) =~= Seq::<TreeView>::empty());
        assert(base + ts_variables(s.take(0), path@) =~= base);
    }
    while i < node.children.len()
        invariant
            i <= node.children.len(),
            s == syntax::forest_of(node.children@),
            s.len() == node.children.len(),
            forall|j: int| 0 <= j < s.len() ==> #[trigger] s[j] == syntax::tree_of(node.children@[j]),
            file_index::fact_views(facts@) == base + ts_variables(s.take(i as int), path@),
        decreases node.children.len() - i,
    {
        let c = &node.children[i];
        proof {
            assert(s.take(i + 1).drop_last() =~= s.take(i as int));
            assert(s.take(i + 1).last() == c@);
        }
        if c.named && c.is("variable_declarator") {
            note_variable(c, path, facts);
            assert(file_index::fact_views(facts@) =~= base + ts_variables(s.take(i + 1), path@));
        }
        i = i + 1;
    }
    assert(s.take(s.len() as int) =~= s);
}

/// A kind of node that declares something.
pub open spec fn ts_declares(name: Seq<char>) -> bool {
    name == "function_declaration"@ || name == "generator_function_declaration"@ ||
    name == "class_declaration"@ || name == "abstract_class_declaration"@ ||
    name == "interface_declaration"@ || name == "type_alias_declaration"@ ||
    name == "enum_declaration"@ || name == "lexical_declaration"@ ||
    name == "variable_declaration"@
}

/// Whether it is a kind of node that declares something.
fn is_ts_declares(name: &str) -> (r: bool)
    ensures
        r == ts_declares(name@),
{
    same_text(name, "function_declaration") ||
    same_text(name, "generator_function_declaration") ||
    same_text(name, "class_declaration") || same_text(name, "abstract_class_declaration") ||
    same_text(name, "interface_declaration") || same_text(name, "type_alias_declaration") ||
    same_text(name, "enum_declaration") || same_text(name, "lexical_declaration") ||
    same_text(name, "variable_declaration")
}

/// What a declaration states.
pub open spec fn ts_declaration(t: TreeView, path: Seq<char>) -> Seq<FactView> {
    if t.kind == "function_declaration"@ || t.kind == "generator_function_declaration"@ {
        ts_function(t, path)
    } else if t.kind == "class_declaration"@ || t.kind == "abstract_class_declaration"@ {
        ts_class(t, path)
    } else if t.kind == "lexical_declaration"@ || t.kind == "variable_declaration"@ {
        ts_variables(t.children, path)
    } else {
        ts_named_type(t, path)
    }
}

/// Notes what a declaration states.
fn note_declaration(node: &SyntaxNode, path: &str, facts: &mut Vec<Fact>)
    ensures
        file_index::fact_views(final(facts)@) == file_index::fact_views(old(facts)@) + ts_declaration(node@, path@),
{
    if node.is("function_declaration") || node.is("generator_function_declaration") {
        note_function(node, path, facts);
    } else if node.is("class_declaration") || node.is("abstract_class_declaration") {
        index_class_like(node, path, facts);
    } else if node.is("lexical_declaration") || node.is("variable_declaration") {
        note_variables(node, path, facts);
    } else {
        note_named_type(node, path, facts);
    }
}

/// What a tree declares; what stands inside a declaration is left to it.
pub open spec fn ts_visit(t: TreeView, path: Seq<char>) -> Seq<FactView>
    decreases t,
{
    if ts_declares(t.kind) {
        ts_declaration(t, path)
    } else {
        ts_visit_all(t.children, path)
    }
}

/// What named trees declare.
pub open spec fn ts_visit_all(s: Seq<TreeView>, path: Seq<char>) -> Seq<FactView>
    decreases s,
{
    if s.len() == 0 {
        Seq::empty()
    } else if s.last().named {
        ts_visit_all(s.drop_last(), path) + ts_visit(s.last(), path)
    } else {
        ts_visit_all(s.drop_last(), path)
    }
}

/// Notes what a tree declares.
fn visit(
    node: &SyntaxNode,
    path: &str,
    facts: &mut Vec<Fact>,
)
    ensures
        file_index::fact_views(final(facts)@) == file_index::fact_views(old(facts)@) + ts_visit(node@, path@),
    decreases node,
{
    if is_ts_declares(node.kind.as_str()) {
        note_declaration(node, path, facts);
        return;
    }
    let ghost base = file_index::fact_views(facts@);
    let ghost s = node@.children;
    let mut i: usize = 0;
    proof {
        syntax::lemma_forest(node.children@);
        assert(s.take(0) =~= Seq::<TreeView>::empty());
        assert(base + ts_visit_all(s.take(0), path@) =~= base);
    }
    while i < node.children.len()
        invariant
            i <= node.children.len(),
            s == syntax::forest_of(node.children@),
            s.len() == node.children.len(),
            forall|j: int| 0 <= j < s.len() ==> #[trigger] s[j] == syntax::tree_of(node.children@[j]),
            file_index::fact_views(facts@) == base + ts_visit_all(s.take(i as int), path@),
        decreases node.children.len() - i,
    {
        let c = &node.children[i];
        proof {
            assert(decreases_to!(node => node.children@[i as int]));
            assert(s.take(i + 1).drop_last() =~= s.take(i as int));
            assert(s.take(i + 1).last() == c@);
        }
        if c.named {
            visit(c, path, facts);
            assert(file_index::fact_views(facts@) =~= base + ts_visit_all(s.take(i + 1), path@));
        }
        i = i + 1;
    }
    assert(s.take(s.len() as int) =~= s);
}

/// The calls of the expressions among some statements.
pub open spec fn ts_statement_calls(s: Seq<TreeView>, caller: Seq<char>) -> Seq<FactView>
    decreases s.len(),
{
    if s.len() == 0 {
        Seq::empty()
    } else if s.last().named && s.last().kind == "expression_statement"@ {
        ts_statement_calls(s.drop_last(), caller) + ts_calls(s.last(), caller)
    } else {
        ts_statement_calls(s.drop_last(), caller)
    }
}

/// Notes the calls of the expressions at the top of a file.
fn visit_module_level_calls(
    node: &SyntaxNode,
    caller: &str,
    facts: &mut Vec<Fact>,
)
    ensures
        file_index::fact_views(final(facts)@) == file_index::fact_views(old(facts)@) + ts_statement_calls(node@.children, caller@),
{
    let ghost base = file_index::fact_views(facts@);
    let ghost s = node@.children;
    let mut i: usize = 0;
    proof {
        syntax::lemma_forest(node.children@);
        assert(s.take(0) =~= Seq::<TreeView>::empty());
        assert(base + ts_statement_calls(s.take(0), caller@) =~= base);
    }
    while i < node.children.len()
        invariant
            i <= node.children.len(),
            s == syntax::forest_of(node.children@),
            s.len() == node.children.len(),
            forall|j: int| 0 <= j < s.len() ==> #[trigger] s[j] == syntax::tree_of(node.children@[j]),
            file_index::fact_views(facts@) == base + ts_statement_calls(s.take(i as int), caller@),
        decreases node.children.len() - i,
    {
        let c = &node.children[i];
        proof {
            assert(s.take(i + 1).drop_last() =~= s.take(i as int));
            assert(s.take(i + 1).last() == c@);
        }
        if c.named && c.is("expression_statement") {
            visit_calls(c, caller, facts);
            assert(file_index::fact_views(facts@) =~= base + ts_statement_calls(s.take(i + 1), caller@));
        }
        i = i + 1;
    }
    assert(s.take(s.len() as int) =~= s);
}

/// The names that an import brings in so far, and how.
pub struct Imported {
    pub names: Vec<String>,
    pub style: ImportStyle,
}

impl View for Imported {
    type V = (Seq<Seq<char>>, ImportStyle);

    open spec fn view(&self) -> (Seq<Seq<char>>, ImportStyle) {
        (text::texts(self.names@), self.style)
    }
}

/// The name that an import goes by here: its alias, or else its own name.
pub open spec fn ts_local_name(t: TreeView) -> Seq<Seq<char>> {
    let local = match syntax::field_of(t, "alias"@) {
        Some(a) => a.text,
        None => syntax::field_text(t, "name"@),
    };
    if t.kind == "import_specifier"@ && local.len() > 0 {
        seq![local]
    } else {
        Seq::empty()
    }
}

/// The names that the imports among some nodes go by.
pub open spec fn ts_local_names(s: Seq<TreeView>) -> Seq<Seq<char>>
    decreases s.len(),
{
    if s.len() == 0 {
        Seq::empty()
    } else if s.last().named {
        ts_local_names(s.drop_last()) + ts_local_name(s.last())
    } else {
        ts_local_names(s.drop_last())
    }
}

/// Collects the names that imports go by.
fn collect_named_imports(node: &SyntaxNode, names: &mut Vec<String>)
    ensures
        text::texts(final(names)@) == text::texts(old(names)@) + ts_local_names(node@.children),
{
    let ghost base = text::texts(names@);
    let ghost s = node@.children;
    let mut i: usize = 0;
    proof {
        syntax::lemma_forest(node.children@);
        assert(s.take(0) =~= Seq::<TreeView>::empty());
        assert(base + ts_local_names(s.take(0)) =~= base);
    }
    while i < node.children.len()
        invariant
            i <= node.children.len(),
            s == syntax::forest_of(node.children@),
            s.len() == node.children.len(),
            forall|j: int| 0 <= j < s.len() ==> #[trigger] s[j] == syntax::tree_of(node.children@[j]),
            text::texts(names@) == base + ts_local_names(s.take(i as int)),
        decreases node.children.len() - i,
    {
        let c = &node.children[i];
        proof {
            assert(s.take(i + 1).drop_last() =~= s.take(i as int));
            assert(s.take(i + 1).last() == c@);
        }
        if c.named {
            let local = match c.child_by_field_name("alias") {
                Some(a) => owned(a.text.as_str()),
                None => c.field_text("name"),
            };
            let cs = chars_of(local.as_str());
            if c.is("import_specifier") && cs.len() > 0 {
                add_name(names, local);
            }
            assert(text::texts(names@) =~= base + ts_local_names(s.take(i + 1)));
        }
        i = i + 1;
    }
    assert(s.take(s.len() as int) =~= s);
}

/// What is imported with one more part of an import; the parts of a clause name what they bring in
/// as a whole.
pub open spec fn ts_import_part(
    x: (Seq<Seq<char>>, ImportStyle),
    t: TreeView,
    in_clause: bool,
) -> (Seq<Seq<char>>, ImportStyle) {
    let (names, style) = x;
    if t.kind == "identifier"@ {
        (names.push(t.text), ImportStyle::Names)
    } else if t.kind == "named_imports"@ {
        (names + ts_local_names(t.children), ImportStyle::Names)
    } else if t.kind == "namespace_import"@ {
        (
            match syntax::field_of(t, "name"@) {
                Some(a) => if in_clause {
                    names.push(a.text)
                } else {
                    names
                },
                None => names,
            },
            ImportStyle::Star,
        )
    } else {
        x
    }
}

impl Imported {
    /// Takes in one more part of an import.
    fn add_part(&mut self, node: &SyntaxNode, in_clause: bool)
        ensures
            final(self)@ == ts_import_part(old(self)@, node@, in_clause),
    {
        if node.is("identifier") {
            add_name(&mut self.names, owned(node.text.as_str()));
            self.style = ImportStyle::Names;
        } else if node.is("named_imports") {
            collect_named_imports(node, &mut self.names);
            self.style = ImportStyle::Names;
        } else if node.is("namespace_import") {
            if let Some(a) = node.child_by_field_name("name") {
                if in_clause {
                    add_name(&mut self.names, owned(a.text.as_str()));
                }
            }
            self.style = ImportStyle::Star;
        }
    }
}

/// What is imported with the named parts of a clause.
pub open spec fn ts_import_clause(
    x: (Seq<Seq<char>>, ImportStyle),
    s: Seq<TreeView>,
) -> (Seq<Seq<char>>, ImportStyle)
    decreases s.len(),
{
    if s.len() == 0 {
        x
    } else if s.last().named {
        ts_import_part(ts_import_clause(x, s.drop_last()), s.last(), true)
    } else {
        ts_import_clause(x, s.drop_last())
    }
}

/// What is imported with the named parts of an import.
pub open spec fn ts_import_parts(
    x: (Seq<Seq<char>>, ImportStyle),
    s: Seq<TreeView>,
) -> (Seq<Seq<char>>, ImportStyle)
    decreases s.len(),
{
    if s.len() == 0 {
        x
    } else {
        let y = ts_import_parts(x, s.drop_last());
        if !s.last().named {
            y
        } else if s.last().kind == "import_clause"@ {
            ts_import_clause(y, s.last().children)
        } else {
            ts_import_part(y, s.last(), false)
        }
    }
}

impl Imported {
    /// Takes in the parts of a clause.
    fn add_clause(&mut self, node: &SyntaxNode)
        ensures
            final(self)@ == ts_import_clause(old(self)@, node@.children),
    {
        let ghost base = self@;
        let ghost s = node@.children;
        let mut i: usize = 0;
        proof {
            syntax::lemma_forest(node.children@);
            assert(s.take(0) =~= Seq::<TreeView>::empty());
        }
        while i < node.children.len()
            invariant
                i <= node.children.len(),
                s == syntax::forest_of(node.children@),
                s.len() == node.children.len(),
                forall|j: int| 0 <= j < s.len() ==> #[trigger] s[j] == syntax::tree_of(node.children@[j]),
                self@ == ts_import_clause(base, s.take(i as int)),
            decreases node.children.len() - i,
        {
            let c = &node.children[i];
            proof {
                assert(s.take(i + 1).drop_last() =~= s.take(i as int));
                assert(s.take(i + 1).last() == c@);
            }
            if c.named {
                self.add_part(c, true);
            }
            i = i + 1;
        }
        assert(s.take(s.len() as int) =~= s);
    }

    /// Takes in the parts of an import.
    fn add_parts(&mut self, node: &SyntaxNode)
        ensures
            final(self)@ == ts_import_parts(old(self)@, node@.children),
    {
        let ghost base = self@;
        let ghost s = node@.children;
        let mut i: usize = 0;
        proof {
            syntax::lemma_forest(node.children@);
            assert(s.take(0) =~= Seq::<TreeView>::empty());
        }
        while i < node.children.len()
            invariant
                i <= node.children.len(),
                s == syntax::forest_of(node.children@),
                s.len() == node.children.len(),
                forall|j: int| 0 <= j < s.len() ==> #[trigger] s[j] == syntax::tree_of(node.children@[j]),
                self@ == ts_import_parts(base, s.take(i as int)),
            decreases node.children.len() - i,
        {
            let c = &node.children[i];
            proof {
                assert(s.take(i + 1).drop_last() =~= s.take(i as int));
                assert(s.take(i + 1).last() == c@);
            }
            if c.named {
                if c.is("import_clause") {
                    self.add_clause(c);
                } else {
                    self.add_part(c, false);
                }
            }
            i = i + 1;
        }
        assert(s.take(s.len() as int) =~= s);
    }
}

/// An import: the module without its quotation marks, and what is brought in from it.
pub open spec fn ts_import(t: TreeView) -> ImportView {
    let (names, style) = ts_import_parts((Seq::empty(), ImportStyle::ModuleOnly), t.children);
    ImportView {
        module: text::stripped(text::stripped(syntax::field_text(t, "source"@), '\''), '"'),
        style,
        names,
        span: t.span,
    }
}

/// Reads an import.
fn extract_single_import(node: &SyntaxNode) -> (r: ParsedImport)
    ensures
        r@ == ts_import(node@),
{
    let source = node.field_text("source");
    let bare = text_strip(source.as_str(), '\'');
    let module = text_strip(bare.as_str(), '"');
    let mut x = Imported { names: Vec::new(), style: ImportStyle::ModuleOnly };
    assert(x@.0 =~= Seq::empty());
    x.add_parts(node);
    ParsedImport { module, style: x.style, names: x.names, span: node.span }
}

/// The imports among some statements.
pub open spec fn ts_imports(s: Seq<TreeView>) -> Seq<ImportView>
    decreases s.len(),
{
    if s.len() == 0 {
        Seq::empty()
    } else if s.last().named && s.last().kind == "import_statement"@ {
        ts_imports(s.drop_last()).push(ts_import(s.last()))
    } else {
        ts_imports(s.drop_last())
    }
}

/// Reads the imports of a file.
fn extract_imports(node: &SyntaxNode) -> (r: Vec<ParsedImport>)
    ensures
        file_index::import_views(r@) == ts_imports(node@.children),
{
    let ghost s = node@.children;
    let mut out: Vec<ParsedImport> = Vec::new();
    let mut i: usize = 0;
    proof {
        syntax::lemma_forest(node.children@);
        assert(s.take(0) =~= Seq::<TreeView>::empty());
        assert(file_index::import_views(out@) =~= Seq::empty());
    }
    while i < node.children.len()
        invariant
            i <= node.children.len(),
            s == syntax::forest_of(node.children@),
            s.len() == node.children.len(),
            forall|j: int| 0 <= j < s.len() ==> #[trigger] s[j] == syntax::tree_of(node.children@[j]),
            file_index::import_views(out@) == ts_imports(s.take(i as int)),
        decreases node.children.len() - i,
    {
        let c = &node.children[i];
        let ghost before = file_index::import_views(out@);
        proof {
            assert(s.take(i + 1).drop_last() =~= s.take(i as int));
            assert(s.take(i + 1).last() == c@);
        }
        if c.named && c.is("import_statement") {
            let x = extract_single_import(c);
            let ghost xv = x@;
            out.push(x);
            assert(file_index::import_views(out@) =~= before.push(xv));
        }
        i = i + 1;
    }
    assert(s.take(s.len() as int) =~= s);
    out
}

/// What is known of a TypeScript file by its syntax tree.
pub open spec fn ts_index(path: Seq<char>, content: Seq<char>, t: TreeView) -> IndexView {
    let facts = seq![FactView::Symbol(file_index::file_symbol(path, content))] + ts_visit(t, path)
        + ts_statement_calls(t.children, "$file"@);
    let x = file_index::with_facts(file_index::empty_index(), facts);
    IndexView { symbols: file_index::told_apart(x.symbols), imports: ts_imports(t.children), ..x }
}

/// Finds what is known of a TypeScript file by its syntax tree.
pub fn index_typescript_tree(path: &str, content: &str, root: &SyntaxNode) -> (r: FileIndex)
    ensures
        r@ == ts_index(path@, content@, root@),
{
    let mut facts: Vec<Fact> = Vec::new();
    assert(file_index::fact_views(facts@) =~= Seq::empty());
    add_fact(&mut facts, Fact::Symbol(file_symbol_of(path, content)));
    visit(root, path, &mut facts);
    visit_module_level_calls(root, "$file", &mut facts);
    assert(file_index::fact_views(facts@) =~= seq![FactView::Symbol(file_index::file_symbol(path@, content@))] + ts_visit(
        root@,
        path@,
    ) + ts_statement_calls(root@.children, "$file"@));
    let mut idx = FileIndex::new();
    idx.learn_all(facts);
    idx.imports = extract_imports(root);
    assign_collision_disambiguators(&mut idx);
    idx
}

/// The expression for functions.
pub const TS_FUNCTION_PATTERN: &'static str =
    "(?m)(?:export\\s+)?(?:async\\s+)?function\\s+([A-Za-z_][A-Za-z0-9_]*)\\s*\\(";

/// The expression for imports.
pub const TS_IMPORT_PATTERN: &'static str =
    "(?m)^import\\s+(?:\\{([^}]+)\\}|([A-Za-z_][\\w]*))\\s+from\\s+['\"]([^'\"]+)['\"]";

/// The expression for calls of names.
pub const TS_CALL_PATTERN: &'static str = "\\b([A-Za-z_][A-Za-z0-9_]*)\\s*\\(";

/// The expression for calls of members.
pub const TS_MEMBER_CALL_PATTERN: &'static str =
    "\\b([A-Za-z_][A-Za-z0-9_]*)\\.([A-Za-z_][A-Za-z0-9_]*)\\s*\\(";

/// The call of a member that a match is.
pub open spec fn member_call(c: CaptureView, content: Seq<char>, caller: Seq<char>) -> Seq<
    FactView,
> {
    match (regexes::group_of(c, 1), regexes::group_of(c, 2)) {
        (Some(base), Some(name)) => seq![
            FactView::Call(
                CallView {
                    caller,
                    callee: ReceiverView::Attr {
                        object: Box::new(ReceiverView::Bare(base)),
                        name,
                    },
                    span: spans::span_between(content, c.start as nat, c.end as nat),
                },
            ),
        ],
        _ => Seq::empty(),
    }
}

/// Notes the call of a member that a match is.
fn note_member_call(c: &Capture, content: &Vec<char>, caller: &str, facts: &mut Vec<Fact>)
    ensures
        file_index::fact_views(final(facts)@) == file_index::fact_views(old(facts)@) + member_call(
            c@,
            content@,
            caller@,
        ),
{
    let ghost start = file_index::fact_views(facts@);
    if let (Some(base), Some(name)) = (c.group(1), c.group(2)) {
        add_fact(
            facts,
            Fact::Call(
                ParsedCall {
                    caller_stable_key: owned(caller),
                    callee: CallReceiver::Attr {
                        object: Box::new(CallReceiver::Bare(base)),
                        name,
                    },
                    span: span_from_byte_range(content, c.start, c.end),
                },
            ),
        );
    }
    proof {
        reveal_with_fuel(file_index::receiver_view, 2);
    }
    assert(file_index::fact_views(facts@) =~= start + member_call(c@, content@, caller@));
}

/// The calls of members that matches are.
pub open spec fn member_calls(s: Seq<CaptureView>, content: Seq<char>, caller: Seq<char>) -> Seq<FactView>
    decreases s.len(),
{
    if s.len() == 0 {
        Seq::empty()
    } else {
        member_calls(s.drop_last(), content, caller) + member_call(s.last(), content, caller)
    }
}

/// Notes the calls of members that matches are.
pub fn note_member_calls(
    captures: &Vec<Capture>,
    content: &Vec<char>,
    caller: &str,
    facts: &mut Vec<Fact>,
)
    ensures
        file_index::fact_views(final(facts)@) == file_index::fact_views(old(facts)@) + member_calls(
            regexes::capture_views(captures@), content@, caller@,
        ),
{
    let ghost base = file_index::fact_views(facts@);
    let ghost s = regexes::capture_views(captures@);
    let mut i: usize = 0;
    proof {
        assert(s.take(0) =~= Seq::<CaptureView>::empty());
        assert(base + member_calls(s.take(0), content@, caller@) =~= base);
    }
    while i < captures.len()
        invariant
            i <= captures.len(),
            s == regexes::capture_views(captures@),
            file_index::fact_views(facts@) == base + member_calls(s.take(i as int), content@, caller@),
        decreases captures.len() - i,
    {
        let c = &captures[i];
        note_member_call(c, content, caller, facts);
        proof {
            assert(s.take(i + 1).drop_last() =~= s.take(i as int));
            assert(s.take(i + 1).last() == c@);
            assert(file_index::fact_views(facts@) =~= base + member_calls(s.take(i + 1), content@, caller@));
        }
        i = i + 1;
    }
    assert(s.take(s.len() as int) =~= s);
}

/// The call of a name that a match is: not of a member, not of the caller itself.
pub open spec fn ts_name_call(c: CaptureView, content: Seq<char>, caller: Seq<char>) -> Seq<
    FactView,
> {
    match regexes::group_of(c, 1) {
        Some(n) => if regexes::behind_point(content, c.start) || n == "function"@ || n == caller {
            Seq::empty()
        } else {
            seq![
                FactView::Call(
                    CallView {
                        caller,
                        callee: ReceiverView::Bare(n),
                        span: spans::span_between(content, c.start as nat, c.end as nat),
                    },
                ),
            ]
        },
        None => Seq::empty(),
    }
}

/// Notes the call of a name that a match is.
fn note_name_call(c: &Capture, content: &Vec<char>, caller: &str, facts: &mut Vec<Fact>)
    ensures
        file_index::fact_views(final(facts)@) == file_index::fact_views(old(facts)@) + ts_name_call(
            c@,
            content@,
            caller@,
        ),
{
    let ghost start = file_index::fact_views(facts@);
    if let Some(n) = c.group(1) {
        if !is_behind_point(content, c.start) && !same_text(n.as_str(), "function") && !same_text(
            n.as_str(),
            caller,
        ) {
            add_fact(
                facts,
                Fact::Call(
                    ParsedCall {
                        caller_stable_key: owned(caller),
                        callee: CallReceiver::Bare(n),
                        span: span_from_byte_range(content, c.start, c.end),
                    },
                ),
            );
        }
    }
    assert(file_index::fact_views(facts@) =~= start + ts_name_call(c@, content@, caller@));
}

/// The calls of names that matches are.
pub open spec fn ts_name_calls(s: Seq<CaptureView>, content: Seq<char>, caller: Seq<char>) -> Seq<FactView>
    decreases s.len(),
{
    if s.len() == 0 {
        Seq::empty()
    } else {
        ts_name_calls(s.drop_last(), content, caller) + ts_name_call(s.last(), content, caller)
    }
}

/// Notes the calls of names that matches are.
pub fn note_name_calls(
    captures: &Vec<Capture>,
    content: &Vec<char>,
    caller: &str,
    facts: &mut Vec<Fact>,
)
    ensures
        file_index::fact_views(final(facts)@) == file_index::fact_views(old(facts)@) + ts_name_calls(
            regexes::capture_views(captures@), content@, caller@,
        ),
{
    let ghost base = file_index::fact_views(facts@);
    let ghost s = regexes::capture_views(captures@);
    let mut i: usize = 0;
    proof {
        assert(s.take(0) =~= Seq::<CaptureView>::empty());
        assert(base + ts_name_calls(s.take(0), content@, caller@) =~= base);
    }
    while i < captures.len()
        invariant
            i <= captures.len(),
            s == regexes::capture_views(captures@),
            file_index::fact_views(facts@) == base + ts_name_calls(s.take(i as int), content@, caller@),
        decreases captures.len() - i,
    {
        let c = &captures[i];
        note_name_call(c, content, caller, facts);
        proof {
            assert(s.take(i + 1).drop_last() =~= s.take(i as int));
            assert(s.take(i + 1).last() == c@);
            assert(file_index::fact_views(facts@) =~= base + ts_name_calls(s.take(i + 1), content@, caller@));
        }
        i = i + 1;
    }
    assert(s.take(s.len() as int) =~= s);
}

/// The calls that each function is taken to make: all those of the file.
pub open spec fn ts_file_calls(
    functions: Seq<CaptureView>,
    members: Seq<CaptureView>,
    names: Seq<CaptureView>,
    content: Seq<char>,
) -> Seq<FactView>
    decreases functions.len(),
{
    if functions.len() == 0 {
        Seq::empty()
    } else {
        ts_file_calls(functions.drop_last(), members, names, content) + (match regexes::group_of(
            functions.last(),
            1,
        ) {
            Some(f) => member_calls(members, content, f) + ts_name_calls(names, content, f),
            None => Seq::empty(),
        })
    }
}

/// Notes the calls that each function is taken to make.
fn extract_calls_ts_regex(
    functions: &Vec<Capture>,
    members: &Vec<Capture>,
    names: &Vec<Capture>,
    content: &Vec<char>,
    facts: &mut Vec<Fact>,
)
    ensures
        file_index::fact_views(final(facts)@) == file_index::fact_views(old(facts)@) + ts_file_calls(
            regexes::capture_views(functions@),
            regexes::capture_views(members@),
            regexes::capture_views(names@),
            content@,
        ),
{
    let ghost base = file_index::fact_views(facts@);
    let ghost s = regexes::capture_views(functions@);
    let ghost ms = regexes::capture_views(members@);
    let ghost ns = regexes::capture_views(names@);
    let mut i: usize = 0;
    proof {
        assert(s.take(0) =~= Seq::<CaptureView>::empty());
        assert(base + ts_file_calls(s.take(0), ms, ns, content@) =~= base);
    }
    while i < functions.len()
        invariant
            i <= functions.len(),
            s == regexes::capture_views(functions@),
            ms == regexes::capture_views(members@),
            ns == regexes::capture_views(names@),
            file_index::fact_views(facts@) == base + ts_file_calls(s.take(i as int), ms, ns, content@),
        decreases functions.len() - i,
    {
        let c = &functions[i];
        if let Some(f) = c.group(1) {
            note_member_calls(members, content, f.as_str(), facts);
            note_name_calls(names, content, f.as_str(), facts);
        }
        proof {
            assert(s.take(i + 1).drop_last() =~= s.take(i as int));
            assert(s.take(i + 1).last() == c@);
            assert(file_index::fact_views(facts@) =~= base + ts_file_calls(s.take(i + 1), ms, ns, content@));
        }
        i = i + 1;
    }
    assert(s.take(s.len() as int) =~= s);
}

/// The name that a part of an import list brings in: what stands in front of a colon.
pub open spec fn ts_listed_name(part: Seq<char>) -> Seq<char> {
    text::trimmed(text::pieces(text::trimmed(part), ':')[0])
}

/// The names that the parts of an import list bring in.
pub open spec fn ts_listed_names(parts: Seq<Seq<char>>) -> Seq<Seq<char>>
    decreases parts.len(),
{
    if parts.len() == 0 {
        Seq::empty()
    } else {
        let n = ts_listed_name(parts.last());
        if n.len() == 0 {
            ts_listed_names(parts.drop_last())
        } else {
            ts_listed_names(parts.drop_last()).push(n)
        }
    }
}

/// Reads the names of an import list.
fn parse_import_list(list: &str) -> (r: Vec<String>)
    ensures
        text::texts(r@) == ts_listed_names(text::pieces(list@, ',')),
{
    let cs = chars_of(list);
    let parts = chars_split(&cs, ',');
    let ghost s = text::chars_views(parts@);
    let mut out: Vec<String> = Vec::new();
    let mut i: usize = 0;
    proof {
        assert(s.take(0) =~= Seq::<Seq<char>>::empty());
        assert(text::texts(out@) =~= Seq::empty());
    }
    while i < parts.len()
        invariant
            i <= parts.len(),
            s == text::chars_views(parts@),
            text::texts(out@) == ts_listed_names(s.take(i as int)),
        decreases parts.len() - i,
    {
        let part = text_of(&parts[i]);
        let whole = text_trim(part.as_str());
        let inner = chars_split(&chars_of(whole.as_str()), ':');
        proof {
            text::lemma_pieces_nonempty(whole@, ':');
            assert(text::chars_views(inner@)[0] == inner@[0]@);
            assert(s.take(i + 1).drop_last() =~= s.take(i as int));
            assert(s.take(i + 1).last() == parts@[i as int]@);
        }
        let first = text_of(&inner[0]);
        let name = text_trim(first.as_str());
        let ncs = chars_of(name.as_str());
        if ncs.len() > 0 {
            add_name(&mut out, name);
        }
        i = i + 1;
    }
    assert(s.take(s.len() as int) =~= s);
    out
}

/// The import that a match is: of a list of names, or of one name.
pub open spec fn ts_matched_import(c: CaptureView, content: Seq<char>) -> ImportView {
    let list = regexes::group_or_nothing(c, 1);
    let span = spans::span_between(content, c.start as nat, c.end as nat);
    let module = regexes::group_or_nothing(c, 3);
    if list.len() > 0 {
        ImportView {
            module,
            style: ImportStyle::Names,
            names: ts_listed_names(text::pieces(list, ',')),
            span,
        }
    } else {
        match regexes::group_of(c, 2) {
            Some(n) => ImportView { module, style: ImportStyle::Names, names: seq![n], span },
            None => ImportView {
                module,
                style: ImportStyle::ModuleOnly,
                names: Seq::empty(),
                span,
            },
        }
    }
}

/// The imports that matches are.
pub open spec fn ts_matched_imports(s: Seq<CaptureView>, content: Seq<char>) -> Seq<ImportView> {
    s.map_values(|c: CaptureView| ts_matched_import(c, content))
}

/// Reads the import that a match is.
fn read_matched_import(c: &Capture, content: &Vec<char>) -> (r: ParsedImport)
    ensures
        r@ == ts_matched_import(c@, content@),
{
    let list = c.group_or_empty(1);
    let span = span_from_byte_range(content, c.start, c.end);
    let module = c.group_or_empty(3);
    let cs = chars_of(list.as_str());
    if cs.len() > 0 {
        let names = parse_import_list(list.as_str());
        return ParsedImport { module, style: ImportStyle::Names, names, span };
    }
    let mut names: Vec<String> = Vec::new();
    assert(text::texts(names@) =~= Seq::empty());
    match c.group(2) {
        Some(n) => {
            add_name(&mut names, n);
            assert(text::texts(names@) =~= seq![n@]);
            ParsedImport { module, style: ImportStyle::Names, names, span }
        },
        None => ParsedImport { module, style: ImportStyle::ModuleOnly, names, span },
    }
}

/// Reads the imports that matches are.
pub fn extract_imports_ts_regex(captures: &Vec<Capture>, content: &Vec<char>) -> (r: Vec<
    ParsedImport,
>)
    ensures
        file_index::import_views(r@) == ts_matched_imports(regexes::capture_views(captures@), content@),
{
    let mut out: Vec<ParsedImport> = Vec::new();
    let mut i: usize = 0;
    let ghost all = ts_matched_imports(regexes::capture_views(captures@), content@);
    assert(file_index::import_views(out@) =~= all.take(0));
    while i < captures.len()
        invariant
            i <= captures.len(),
            all == ts_matched_imports(regexes::capture_views(captures@), content@),
            file_index::import_views(out@) == all.take(i as int),
        decreases captures.len() - i,
    {
        let ghost before = file_index::import_views(out@);
        let x = read_matched_import(&captures[i], content);
        let ghost xv = x@;
        out.push(x);
        assert(file_index::import_views(out@) =~= before.push(xv));
        assert(all[i as int] == xv);
        assert(file_index::import_views(out@) =~= all.take(i + 1));
        i = i + 1;
    }
    assert(all.take(all.len() as int) =~= all);
    out
}

/// What is known of a TypeScript file by matches in it.
pub open spec fn ts_matched_index(
    path: Seq<char>,
    content: Seq<char>,
    functions: Seq<CaptureView>,
    imports: Seq<CaptureView>,
    members: Seq<CaptureView>,
    names: Seq<CaptureView>,
) -> IndexView {
    let facts = seq![FactView::Symbol(file_index::file_symbol(path, content))] + matched_facts::named_functions(
        functions,
        path,
        content,
    ) + ts_file_calls(functions, members, names, content);
    let x = file_index::with_facts(file_index::empty_index(), facts);
    IndexView {
        symbols: file_index::told_apart(x.symbols),
        imports: ts_matched_imports(imports, content),
        ..x
    }
}

/// Finds what is known of a TypeScript file by matches in it.
pub fn index_typescript_matches(
    path: &str,
    content: &str,
    functions: &Vec<Capture>,
    imports: &Vec<Capture>,
    members: &Vec<Capture>,
    names: &Vec<Capture>,
) -> (r: FileIndex)
    ensures
        r@ == ts_matched_index(
            path@,
            content@,
            regexes::capture_views(functions@),
            regexes::capture_views(imports@),
            regexes::capture_views(members@),
            regexes::capture_views(names@),
        ),
{
    let cs = chars_of(content);
    let mut facts: Vec<Fact> = Vec::new();
    assert(file_index::fact_views(facts@) =~= Seq::empty());
    add_fact(&mut facts, Fact::Symbol(file_symbol_of(path, content)));
    note_named_functions(functions, path, &cs, &mut facts);
    extract_calls_ts_regex(functions, members, names, &cs, &mut facts);
    assert(file_index::fact_views(facts@) =~= seq![FactView::Symbol(file_index::file_symbol(path@, content@))]
        + matched_facts::named_functions(regexes::capture_views(functions@), path@, content@) + ts_file_calls(
        regexes::capture_views(functions@),
        regexes::capture_views(members@),
        regexes::capture_views(names@),
        content@,
    ));
    let mut idx = FileIndex::new();
    idx.learn_all(facts);
    idx.imports = extract_imports_ts_regex(imports, &cs);
    assign_collision_disambiguators(&mut idx);
    idx
}

/// The matches in a text for an expression of two that are both taken.
pub open spec fn captures_of_pair(pattern: Seq<char>, other: Seq<char>, text: Seq<char>) -> Seq<
    CaptureView,
> {
    if regexes::regex_accepts(other) {
        regexes::captures_or_nothing(pattern, text)
    } else {
        Seq::empty()
    }
}

/// What is known of a TypeScript file without its syntax tree.
pub open spec fn ts_regex_index(path: Seq<char>, content: Seq<char>) -> Option<IndexView> {
    if regexes::regex_accepts(TS_FUNCTION_PATTERN@) {
        Some(
            ts_matched_index(
                path,
                content,
                regexes::regex_captures(TS_FUNCTION_PATTERN@, content),
                regexes::captures_or_nothing(TS_IMPORT_PATTERN@, content),
                captures_of_pair(TS_MEMBER_CALL_PATTERN@, TS_CALL_PATTERN@, content),
                captures_of_pair(TS_CALL_PATTERN@, TS_MEMBER_CALL_PATTERN@, content),
            ),
        )
    } else {
        None
    }
}

/// Finds what is known of a TypeScript file without its syntax tree.
pub fn index_typescript_file_regex(path: &str, content: &str) -> (r: Result<FileIndex, IndexError>)
    ensures
        language_indexer::index_view(r) == ts_regex_index(path@, content@),
{
    let functions = match find_captures(TS_FUNCTION_PATTERN, content) {
        Some(f) => f,
        None => {
            return Err(IndexError::ParseFailed);
        },
    };
    let imports = find_captures_or_nothing(TS_IMPORT_PATTERN, content);
    let none: Vec<Capture> = Vec::new();
    assert(regexes::capture_views(none@) =~= Seq::empty());
    match (
        find_captures(TS_MEMBER_CALL_PATTERN, content),
        find_captures(TS_CALL_PATTERN, content),
    ) {
        (Some(members), Some(names)) => Ok(
            index_typescript_matches(path, content, &functions, &imports, &members, &names),
        ),
        _ => Ok(index_typescript_matches(path, content, &functions, &imports, &none, &none)),
    }
}

/// The grammar of a TypeScript file.
pub open spec fn ts_grammar(path: Seq<char>) -> Grammar {
    if text::finishes_with(path, ".tsx"@) {
        Grammar::Tsx
    } else {
        Grammar::TypeScript
    }
}

/// What is known of a TypeScript file: by its syntax tree, or else by matches.
pub open spec fn ts_file_index(path: Seq<char>, content: Seq<char>) -> Option<IndexView> {
    match syntax::source_tree(ts_grammar(path), content) {
        Some((bad, t)) => Some(ts_index(path, content, t)),
        None => ts_regex_index(path, content),
    }
}

/// Finds what is known of a TypeScript file.
pub fn index_typescript_file(path: &str, content: &str) -> (r: Result<FileIndex, IndexError>)
    ensures
        language_indexer::index_view(r) == ts_file_index(path@, content@),
{
    let grammar = if text_finishes_with(path, ".tsx") {
        Grammar::Tsx
    } else {
        Grammar::TypeScript
    };
    match parse_source(grammar, content) {
        Some((bad, t)) => Ok(index_typescript_tree(path, content, &t)),
        None => index_typescript_file_regex(path, content),
    }
}

/// The module that a TypeScript file is: its path without the ending, with points between the parts.
pub open spec fn ts_module_key(path: Seq<char>) -> Seq<char> {
    text::replaced(text::without_endings(text::without_endings(path, ".ts"@), ".tsx"@), '/', '.')
}

/// Builds the name of the module that a TypeScript file is.
pub fn path_to_typescript_module_key(rel_path: &str) -> (r: String)
    ensures
        r@ == ts_module_key(rel_path@),
{
    let a = text_drop_endings(rel_path, ".ts");
    let b = text_drop_endings(a.as_str(), ".tsx");
    let cs = chars_of(b.as_str());
    text_of(&chars_replace(&cs, '/', '.'))
}

/// The indexer of TypeScript files.
#[derive(Debug, Clone, Copy)]
pub struct TypeScriptIndexer;

impl LanguageIndexer for TypeScriptIndexer {
    open spec fn index_of(&self, path: Seq<char>, content: Seq<char>) -> Option<IndexView> {
        ts_file_index(path, content)
    }

    open spec fn module_of(&self, rel_path: Seq<char>) -> Seq<char> {
        ts_module_key(rel_path)
    }

    open spec fn language_spec(&self) -> Language {
        Language::TypeScript
    }

    open spec fn extension_spec(&self) -> Seq<char> {
        "ts"@
    }

    fn language(&self) -> (r: Language) {
        Language::TypeScript
    }

    fn index_file(&self, path: &str, content: &str) -> (r: Result<FileIndex, IndexError>) {
        index_typescript_file(path, content)
    }

    fn module_key(&self, rel_path: &str) -> (r: String) {
        path_to_typescript_module_key(rel_path)
    }

    fn file_extension(&self) -> (r: &'static str) {
        "ts"
    }
}

/// The indexer of TypeScript files with components.
#[derive(Debug, Clone, Copy)]
pub struct TypeScriptTsxIndexer;

impl LanguageIndexer for TypeScriptTsxIndexer {
    open spec fn index_of(&self, path: Seq<char>, content: Seq<char>) -> Option<IndexView> {
        ts_file_index(path, content)
    }

    open spec fn module_of(&self, rel_path: Seq<char>) -> Seq<char> {
        ts_module_key(rel_path)
    }

    open spec fn language_spec(&self) -> Language {
        Language::TypeScript
    }

    open spec fn extension_spec(&self) -> Seq<char> {
        "tsx"@
    }

    fn language(&self) -> (r: Language) {
        Language::TypeScript
    }

    fn index_file(&self, path: &str, content: &str) -> (r: Result<FileIndex, IndexError>) {
        index_typescript_file(path, content)
    }

    fn module_key(&self, rel_path: &str) -> (r: String) {
        path_to_typescript_module_key(rel_path)
    }

    fn file_extension(&self) -> (r: &'static str) {
        "tsx"
    }
}

} // verus!
