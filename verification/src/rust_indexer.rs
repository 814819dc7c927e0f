//! Rust source files: what their syntax trees say.

use crate::file_index;
use crate::file_index::{
    CallReceiver, CallView, ExtendsView, Fact, FactView, FileIndex, ImportStyle, ImportView,
    IndexView, ParsedCall, ParsedExtends, ParsedImport, ParsedUse, ReceiverView, UseView,
    add_fact, add_name, assign_collision_disambiguators, file_symbol_of, member_key_of,
    read_some_text, symbol_of,
};
use crate::graph::{Language, NodeKind};
use crate::language_indexer;
use crate::language_indexer::{IndexError, LanguageIndexer};
use crate::syntax;
use crate::syntax::{Grammar, SyntaxNode, TreeView, parse_source};
use crate::text;
use crate::text::{
    append_text, chars_of, chars_replace, cut, owned, same_text, text_after_last, text_before,
    text_contains, text_drop_beginnings, text_drop_endings, text_finishes_with, text_of,
    text_replace, text_trim,
};
use vstd::prelude::*;

verus! {

/// A type that is part of the language.
pub open spec fn rs_builtin(name: Seq<char>) -> bool {
    name == "bool"@ || name == "char"@ || name == "u8"@ || name == "u16"@ || name == "u32"@ ||
    name == "u64"@ || name == "u128"@ || name == "usize"@ || name == "i8"@ || name == "i16"@ ||
    name == "i32"@ || name == "i64"@ || name == "i128"@ || name == "isize"@ ||
    name == "f32"@ || name == "f64"@ || name == "str"@ || name == "String"@ ||
    name == "Self"@ || name == "self"@
}

/// Whether it is a type that is part of the language.
fn is_rs_builtin(name: &str) -> (r: bool)
    ensures
        r == rs_builtin(name@),
{
    same_text(name, "bool") || same_text(name, "char") || same_text(name, "u8") ||
    same_text(name, "u16") || same_text(name, "u32") || same_text(name, "u64") ||
    same_text(name, "u128") || same_text(name, "usize") || same_text(name, "i8") ||
    same_text(name, "i16") || same_text(name, "i32") || same_text(name, "i64") ||
    same_text(name, "i128") || same_text(name, "isize") || same_text(name, "f32") ||
    same_text(name, "f64") || same_text(name, "str") || same_text(name, "String") ||
    same_text(name, "Self") || same_text(name, "self")
}

/// A name whose calls are of no interest.
pub open spec fn rs_quiet(name: Seq<char>) -> bool {
    name == "println"@ || name == "eprintln"@ || name == "format"@ || name == "panic"@ ||
    name == "todo"@ || name == "unimplemented"@ || name == "dbg"@ || name == "assert"@ ||
    name == "assert_eq"@ || name == "assert_ne"@ || name == "vec"@
}

/// Whether it is a name whose calls are of no interest.
fn is_rs_quiet(name: &str) -> (r: bool)
    ensures
        r == rs_quiet(name@),
{
    same_text(name, "println") || same_text(name, "eprintln") || same_text(name, "format") ||
    same_text(name, "panic") || same_text(name, "todo") || same_text(name, "unimplemented") ||
    same_text(name, "dbg") || same_text(name, "assert") || same_text(name, "assert_eq") ||
    same_text(name, "assert_ne") || same_text(name, "vec")
}

/// A further macro whose calls are of no interest.
pub open spec fn rs_quiet_macro(name: Seq<char>) -> bool {
    name == "cfg"@ || name == "derive"@ || name == "include"@ || name == "env"@ ||
    name == "concat"@ || name == "stringify"@ || name == "write"@ || name == "writeln"@ ||
    name == "log"@ || name == "info"@ || name == "warn"@ || name == "error"@ ||
    name == "debug"@ || name == "trace"@
}

/// Whether it is a further macro whose calls are of no interest.
fn is_rs_quiet_macro(name: &str) -> (r: bool)
    ensures
        r == rs_quiet_macro(name@),
{
    same_text(name, "cfg") || same_text(name, "derive") || same_text(name, "include") ||
    same_text(name, "env") || same_text(name, "concat") || same_text(name, "stringify") ||
    same_text(name, "write") || same_text(name, "writeln") || same_text(name, "log") ||
    same_text(name, "info") || same_text(name, "warn") || same_text(name, "error") ||
    same_text(name, "debug") || same_text(name, "trace")
}

/// What is called: a name, a field of a value, or a name behind a path.
pub open spec fn rs_receiver(t: TreeView) -> Option<ReceiverView>
    decreases t,
{
    if t.kind == "identifier"@ || t.kind == "field_identifier"@ || t.kind == "type_identifier"@ {
        Some(ReceiverView::Bare(t.text))
    } else if t.kind == "field_expression"@ {
        proof {
            syntax::lemma_field_smaller(t, "value"@);
        }
        match (syntax::field_of(t, "value"@), syntax::field_of(t, "field"@)) {
            (Some(o), Some(f)) => match rs_receiver(o) {
                Some(r) => Some(ReceiverView::Attr { object: Box::new(r), name: f.text }),
                None => None,
            },
            _ => None,
        }
    } else if t.kind == "scoped_identifier"@ {
        proof {
            syntax::lemma_field_smaller(t, "path"@);
        }
        match syntax::field_of(t, "name"@) {
            Some(n) => {
                let object = match syntax::field_of(t, "path"@) {
                    Some(p) => rs_receiver(p),
                    None => None,
                };
                match object {
                    Some(r) => Some(ReceiverView::Attr { object: Box::new(r), name: n.text }),
                    None => Some(ReceiverView::Bare(n.text)),
                }
            },
            None => None,
        }
    } else {
        None
    }
}

/// Reads what is called.
fn parse_call_receiver(node: &SyntaxNode) -> (r: Option<CallReceiver>)
    ensures
        match r {
            Some(c) => rs_receiver(node@) == Some(c@),
            None => rs_receiver(node@) is None,
        },
    decreases node,
{
    if node.is("identifier") || node.is("field_identifier") || node.is("type_identifier") {
        Some(CallReceiver::Bare(owned(node.text.as_str())))
    } else if node.is("field_expression") {
        match (node.child_by_field_name("value"), node.child_by_field_name("field")) {
            (Some(o), Some(f)) => match parse_call_receiver(o) {
                Some(c) => Some(
                    CallReceiver::Attr { object: Box::new(c), name: owned(f.text.as_str()) },
                ),
                None => None,
            },
            _ => None,
        }
    } else if node.is("scoped_identifier") {
        match node.child_by_field_name("name") {
            Some(n) => {
                let object = match node.child_by_field_name("path") {
                    Some(p) => parse_call_receiver(p),
                    None => None,
                };
                match object {
                    Some(c) => Some(
                        CallReceiver::Attr { object: Box::new(c), name: owned(n.text.as_str()) },
                    ),
                    None => Some(CallReceiver::Bare(owned(n.text.as_str()))),
                }
            },
            None => None,
        }
    } else {
        None
    }
}

/// The name of a type.
pub open spec fn rs_type_of(t: TreeView) -> Option<Seq<char>>
    decreases t,
{
    if t.kind == "type_identifier"@ || t.kind == "identifier"@ {
        file_index::some_text(t.text)
    } else if t.kind == "scoped_type_identifier"@ || t.kind == "scoped_identifier"@ {
        match syntax::field_of(t, "name"@) {
            Some(n) => file_index::some_text(n.text),
            None => None,
        }
    } else if t.kind == "generic_type"@ || t.kind == "reference_type"@ {
        proof {
            syntax::lemma_field_smaller(t, "type"@);
        }
        match syntax::field_of(t, "type"@) {
            Some(c) => rs_type_of(c),
            None => None,
        }
    } else {
        None
    }
}

/// Reads the name of a type.
fn simple_type_name(node: &SyntaxNode) -> (r: Option<String>)
    ensures
        syntax::text_view(r) == rs_type_of(node@),
    decreases node,
{
    if node.is("type_identifier") || node.is("identifier") {
        read_some_text(node.text.as_str())
    } else if node.is("scoped_type_identifier") || node.is("scoped_identifier") {
        match node.child_by_field_name("name") {
            Some(n) => read_some_text(n.text.as_str()),
            None => None,
        }
    } else if node.is("generic_type") || node.is("reference_type") {
        match node.child_by_field_name("type") {
            Some(c) => simple_type_name(c),
            None => None,
        }
    } else {
        None
    }
}

/// The use of a type that a node is, unless the type is part of the language.
pub open spec fn rs_type_use(t: TreeView, owner: Seq<char>) -> Seq<FactView> {
    match rs_type_of(t) {
        Some(n) => if rs_builtin(n) {
            Seq::empty()
        } else {
            seq![FactView::Use(UseView { owner, type_ref: n, span: t.span })]
        },
        None => Seq::empty(),
    }
}

/// Notes the use of a type that a node is.
fn record_type_use(node: &SyntaxNode, owner: &str, facts: &mut Vec<Fact>)
    ensures
        file_index::fact_views(final(facts)@) == file_index::fact_views(old(facts)@) + rs_type_use(node@, owner@),
{
    let ghost start = file_index::fact_views(facts@);
    if let Some(n) = simple_type_name(node) {
        if !is_rs_builtin(n.as_str()) {
            add_fact(
                facts,
                Fact::Use(
                    ParsedUse { owner_stable_key: owned(owner), type_ref: n, span: node.span },
                ),
            );
        }
    }
    assert(file_index::fact_views(facts@) =~= start + rs_type_use(node@, owner@));
}

/// The uses of types that named nodes are.
pub open spec fn rs_type_uses(s: Seq<TreeView>, owner: Seq<char>) -> Seq<FactView>
    decreases s.len(),
{
    if s.len() == 0 {
        Seq::empty()
    } else if s.last().named {
        rs_type_uses(s.drop_last(), owner) + rs_type_use(s.last(), owner)
    } else {
        rs_type_uses(s.drop_last(), owner)
    }
}

/// Notes the uses of types that the children of a node are.
fn record_type_uses(
    node: &SyntaxNode,
    owner: &str,
    facts: &mut Vec<Fact>,
)
    ensures
        file_index::fact_views(final(facts)@) == file_index::fact_views(old(facts)@) + rs_type_uses(node@.children, owner@),
{
    let ghost base = file_index::fact_views(facts@);
    let ghost s = node@.children;
    let mut i: usize = 0;
    proof {
        syntax::lemma_forest(node.children@);
        assert(s.take(0) =~= Seq::<TreeView>::empty());
        assert(base + rs_type_uses(s.take(0), owner@) =~= base);
    }
    while i < node.children.len()
        invariant
            i <= node.children.len(),
            s == syntax::forest_of(node.children@),
            s.len() == node.children.len(),
            forall|j: int| 0 <= j < s.len() ==> #[trigger] s[j] == syntax::tree_of(node.children@[j]),
            file_index::fact_views(facts@) == base + rs_type_uses(s.take(i as int), owner@),
        decreases node.children.len() - i,
    {
        let c = &node.children[i];
        proof {
            assert(s.take(i + 1).drop_last() =~= s.take(i as int));
            assert(s.take(i + 1).last() == c@);
        }
        if c.named {
            record_type_use(c, owner, facts);
            assert(file_index::fact_views(facts@) =~= base + rs_type_uses(s.take(i + 1), owner@));
        }
        i = i + 1;
    }
    assert(s.take(s.len() as int) =~= s);
}

/// The use of a type that a node itself states.
pub open spec fn rs_own_types(t: TreeView, owner: Seq<char>) -> Seq<FactView> {
    if t.kind == "type_identifier"@ || t.kind == "scoped_type_identifier"@ || t.kind
        == "generic_type"@ {
        rs_type_use(t, owner)
    } else {
        Seq::empty()
    }
}

/// Notes the use of a type that a node itself states.
fn own_types(node: &SyntaxNode, owner: &str, facts: &mut Vec<Fact>)
    ensures
        file_index::fact_views(final(facts)@) == file_index::fact_views(old(facts)@) + rs_own_types(node@, owner@),
{
    let ghost start = file_index::fact_views(facts@);
    if node.is("type_identifier") || node.is("scoped_type_identifier") || node.is("generic_type") {
        record_type_use(node, owner, facts);
    }
    assert(file_index::fact_views(facts@) =~= start + rs_own_types(node@, owner@));
}

/// The uses of types in a tree.
pub open spec fn rs_types(t: TreeView, owner: Seq<char>) -> Seq<FactView>
    decreases t,
{
    rs_own_types(t, owner) + rs_types_all(t.children, owner)
}

/// The uses of types in named trees.
pub open spec fn rs_types_all(s: Seq<TreeView>, owner: Seq<char>) -> Seq<FactView>
    decreases s,
{
    if s.len() == 0 {
        Seq::empty()
    } else if s.last().named {
        rs_types_all(s.drop_last(), owner) + rs_types(s.last(), owner)
    } else {
        rs_types_all(s.drop_last(), owner)
    }
}

/// Notes the uses of types in a tree.
fn visit_type_annotations(
    node: &SyntaxNode,
    owner: &str,
    facts: &mut Vec<Fact>,
)
    ensures
        file_index::fact_views(final(facts)@) == file_index::fact_views(old(facts)@) + rs_types(node@, owner@),
    decreases node,
{
    let ghost start = file_index::fact_views(facts@);
    own_types(node, owner, facts);
    let ghost base = file_index::fact_views(facts@);
    let ghost s = node@.children;
    let mut i: usize = 0;
    proof {
        syntax::lemma_forest(node.children@);
        assert(s.take(0) =~= Seq::<TreeView>::empty());
        assert(base + rs_types_all(s.take(0), owner@) =~= base);
    }
    while i < node.children.len()
        invariant
            i <= node.children.len(),
            s == syntax::forest_of(node.children@),
            s.len() == node.children.len(),
            forall|j: int| 0 <= j < s.len() ==> #[trigger] s[j] == syntax::tree_of(node.children@[j]),
            file_index::fact_views(facts@) == base + rs_types_all(s.take(i as int), owner@),
        decreases node.children.len() - i,
    {
        let c = &node.children[i];
        let ghost before = file_index::fact_views(facts@);
        proof {
            assert(decreases_to!(node => node.children@[i as int]));
            assert(s.take(i + 1).drop_last() =~= s.take(i as int));
            assert(s.take(i + 1).last() == c@);
        }
        if c.named {
            visit_type_annotations(c, owner, facts);
            assert(file_index::fact_views(facts@) =~= base + rs_types_all(s.take(i + 1), owner@));
        }
        i = i + 1;
    }
    proof {
        assert(s.take(s.len() as int) =~= s);
        assert(file_index::fact_views(facts@) =~= start + rs_types(node@, owner@));
    }
}

/// The call that a node itself is; a macro is marked as such.
pub open spec fn rs_own_calls(t: TreeView, caller: Seq<char>) -> Seq<FactView> {
    if t.kind == "call_expression"@ {
        match syntax::field_of(t, "function"@) {
            Some(f) => match rs_receiver(f) {
                Some(r) => if rs_quiet(file_index::leaf_of(r)) {
                    Seq::empty()
                } else {
                    seq![FactView::Call(CallView { caller, callee: r, span: t.span })]
                },
                None => Seq::empty(),
            },
            None => Seq::empty(),
        }
    } else if t.kind == "macro_invocation"@ {
        match syntax::field_of(t, "macro"@) {
            Some(m) => if rs_quiet(m.text) || rs_quiet_macro(m.text) {
                Seq::empty()
            } else {
                seq![
                    FactView::Call(
                        CallView {
                            caller,
                            callee: ReceiverView::Bare(m.text + "!"@),
                            span: t.span,
                        },
                    ),
                ]
            },
            None => Seq::empty(),
        }
    } else {
        Seq::empty()
    }
}

/// Notes the call that a node itself is.
fn own_calls(node: &SyntaxNode, caller: &str, facts: &mut Vec<Fact>)
    ensures
        file_index::fact_views(final(facts)@) == file_index::fact_views(old(facts)@) + rs_own_calls(node@, caller@),
{
    let ghost start = file_index::fact_views(facts@);
    if node.is("call_expression") {
        if let Some(f) = node.child_by_field_name("function") {
            if let Some(callee) = parse_call_receiver(f) {
                if !is_rs_quiet(callee.leaf_name()) {
                    add_fact(
                        facts,
                        Fact::Call(
                            ParsedCall {
                                caller_stable_key: owned(caller),
                                callee,
                                span: node.span,
                            },
                        ),
                    );
                }
            }
        }
    } else if node.is("macro_invocation") {
        if let Some(m) = node.child_by_field_name("macro") {
            if !is_rs_quiet(m.text.as_str()) && !is_rs_quiet_macro(m.text.as_str()) {
                let mut name = owned(m.text.as_str());
                append_text(&mut name, "!");
                add_fact(
                    facts,
                    Fact::Call(
                        ParsedCall {
                            caller_stable_key: owned(caller),
                            callee: CallReceiver::Bare(name),
                            span: node.span,
                        },
                    ),
                );
            }
        }
    }
    assert(file_index::fact_views(facts@) =~= start + rs_own_calls(node@, caller@));
}

/// The calls in a tree.
pub open spec fn rs_calls(t: TreeView, caller: Seq<char>) -> Seq<FactView>
    decreases t,
{
    rs_own_calls(t, caller) + rs_calls_all(t.children, caller)
}

/// The calls in named trees.
pub open spec fn rs_calls_all(s: Seq<TreeView>, caller: Seq<char>) -> Seq<FactView>
    decreases s,
{
    if s.len() == 0 {
        Seq::empty()
    } else if s.last().named {
        rs_calls_all(s.drop_last(), caller) + rs_calls(s.last(), caller)
    } else {
        rs_calls_all(s.drop_last(), caller)
    }
}

/// Notes the calls in a tree.
fn visit_calls(
    node: &SyntaxNode,
    caller: &str,
    facts: &mut Vec<Fact>,
)
    ensures
        file_index::fact_views(final(facts)@) == file_index::fact_views(old(facts)@) + rs_calls(node@, caller@),
    decreases node,
{
    let ghost start = file_index::fact_views(facts@);
    own_calls(node, caller, facts);
    let ghost base = file_index::fact_views(facts@);
    let ghost s = node@.children;
    let mut i: usize = 0;
    proof {
        syntax::lemma_forest(node.children@);
        assert(s.take(0) =~= Seq::<TreeView>::empty());
        assert(base + rs_calls_all(s.take(0), caller@) =~= base);
    }
    while i < node.children.len()
        invariant
            i <= node.children.len(),
            s == syntax::forest_of(node.children@),
            s.len() == node.children.len(),
            forall|j: int| 0 <= j < s.len() ==> #[trigger] s[j] == syntax::tree_of(node.children@[j]),
            file_index::fact_views(facts@) == base + rs_calls_all(s.take(i as int), caller@),
        decreases node.children.len() - i,
    {
        let c = &node.children[i];
        let ghost before = file_index::fact_views(facts@);
        proof {
            assert(decreases_to!(node => node.children@[i as int]));
            assert(s.take(i + 1).drop_last() =~= s.take(i as int));
            assert(s.take(i + 1).last() == c@);
        }
        if c.named {
            visit_calls(c, caller, facts);
            assert(file_index::fact_views(facts@) =~= base + rs_calls_all(s.take(i + 1), caller@));
        }
        i = i + 1;
    }
    proof {
        assert(s.take(s.len() as int) =~= s);
        assert(file_index::fact_views(facts@) =~= start + rs_calls(node@, caller@));
    }
}

/// The uses of types in a field of a node.
pub open spec fn rs_types_at(t: TreeView, field: Seq<char>, owner: Seq<char>) -> Seq<FactView> {
    match syntax::field_of(t, field) {
        Some(c) => rs_types(c, owner),
        None => Seq::empty(),
    }
}

/// Notes the uses of types in a field of a node.
fn types_at(
    node: &SyntaxNode,
    field: &str,
    owner: &str,
    facts: &mut Vec<Fact>,
)
    ensures
        file_index::fact_views(final(facts)@) == file_index::fact_views(old(facts)@) + rs_types_at(node@, field@, owner@),
{
    match node.child_by_field_name(field) {
        Some(c) => visit_type_annotations(c, owner, facts),
        None => {
            assert(file_index::fact_views(facts@) + Seq::<FactView>::empty() =~= file_index::fact_views(facts@));
        },
    }
}

/// The use of a type that a field of a node is.
pub open spec fn rs_type_use_at(t: TreeView, field: Seq<char>, owner: Seq<char>) -> Seq<FactView> {
    match syntax::field_of(t, field) {
        Some(c) => rs_type_use(c, owner),
        None => Seq::empty(),
    }
}

/// Notes the use of a type that a field of a node is.
fn type_use_at(
    node: &SyntaxNode,
    field: &str,
    owner: &str,
    facts: &mut Vec<Fact>,
)
    ensures
        file_index::fact_views(final(facts)@) == file_index::fact_views(old(facts)@) + rs_type_use_at(node@, field@, owner@),
{
    match node.child_by_field_name(field) {
        Some(c) => record_type_use(c, owner, facts),
        None => {
            assert(file_index::fact_views(facts@) + Seq::<FactView>::empty() =~= file_index::fact_views(facts@));
        },
    }
}

/// The calls in a field of a node.
pub open spec fn rs_calls_at(t: TreeView, field: Seq<char>, caller: Seq<char>) -> Seq<FactView> {
    match syntax::field_of(t, field) {
        Some(c) => rs_calls(c, caller),
        None => Seq::empty(),
    }
}

/// Notes the calls in a field of a node.
fn calls_at(
    node: &SyntaxNode,
    field: &str,
    caller: &str,
    facts: &mut Vec<Fact>,
)
    ensures
        file_index::fact_views(final(facts)@) == file_index::fact_views(old(facts)@) + rs_calls_at(node@, field@, caller@),
{
    match node.child_by_field_name(field) {
        Some(c) => visit_calls(c, caller, facts),
        None => {
            assert(file_index::fact_views(facts@) + Seq::<FactView>::empty() =~= file_index::fact_views(facts@));
        },
    }
}

/// The key of what is defined under a name: behind what it stands in, if anything.
pub open spec fn rs_key(scope: Seq<char>, name: Seq<char>) -> Seq<char> {
    if scope.len() == 0 {
        name
    } else {
        file_index::member_key(scope, name)
    }
}

/// Builds the key of what is defined under a name.
fn key_in(scope: &str, name: &str) -> (r: String)
    ensures
        r@ == rs_key(scope@, name@),
{
    let cs = chars_of(scope);
    if cs.len() == 0 {
        owned(name)
    } else {
        member_key_of(scope, name)
    }
}

/// A kind of item that holds no further items.
pub open spec fn rs_leaf_item(name: Seq<char>) -> bool {
    name == "function_item"@ || name == "struct_item"@ || name == "enum_item"@ ||
    name == "const_item"@ || name == "static_item"@ || name == "type_item"@
}

/// Whether it is a kind of item that holds no further items.
fn is_rs_leaf_item(name: &str) -> (r: bool)
    ensures
        r == rs_leaf_item(name@),
{
    same_text(name, "function_item") || same_text(name, "struct_item") ||
    same_text(name, "enum_item") || same_text(name, "const_item") ||
    same_text(name, "static_item") || same_text(name, "type_item")
}

/// What an item that holds no further items states.
pub open spec fn rs_leaf(t: TreeView, path: Seq<char>, scope: Seq<char>) -> Seq<FactView> {
    let name = syntax::field_text(t, "name"@);
    let key = rs_key(scope, name);
    if name.len() == 0 {
        Seq::empty()
    } else if t.kind == "function_item"@ {
        seq![FactView::Symbol(file_index::symbol_at(path, key, NodeKind::Function, t.span))] + rs_types_at(
            t,
            "parameters"@,
            key,
        ) + rs_type_use_at(t, "return_type"@, key) + rs_calls_at(t, "body"@, key)
    } else if t.kind == "struct_item"@ || t.kind == "enum_item"@ {
        seq![FactView::Symbol(file_index::symbol_at(path, key, NodeKind::Class, t.span))] + rs_types_at(
            t,
            "body"@,
            key,
        )
    } else if t.kind == "type_item"@ {
        seq![FactView::Symbol(file_index::symbol_at(path, key, NodeKind::Class, t.span))] + rs_type_use_at(
            t,
            "type"@,
            key,
        )
    } else {
        seq![FactView::Symbol(file_index::symbol_at(path, key, NodeKind::Function, t.span))] + rs_type_use_at(
            t,
            "type"@,
            key,
        )
    }
}

/// Notes what an item that holds no further items states.
fn note_leaf(node: &SyntaxNode, path: &str, scope: &str, facts: &mut Vec<Fact>)
    ensures
        file_index::fact_views(final(facts)@) == file_index::fact_views(old(facts)@) + rs_leaf(node@, path@, scope@),
{
    let ghost start = file_index::fact_views(facts@);
    let name = node.field_text("name");
    let key = key_in(scope, name.as_str());
    let cs = chars_of(name.as_str());
    if cs.len() > 0 {
        let class = node.is("struct_item") || node.is("enum_item") || node.is("type_item");
        let kind = if class {
            NodeKind::Class
        } else {
            NodeKind::Function
        };
        add_fact(facts, Fact::Symbol(symbol_of(path, key.as_str(), kind, node.span)));
        if node.is("function_item") {
            types_at(node, "parameters", key.as_str(), facts);
            type_use_at(node, "return_type", key.as_str(), facts);
            calls_at(node, "body", key.as_str(), facts);
        } else if node.is("struct_item") || node.is("enum_item") {
            types_at(node, "body", key.as_str(), facts);
        } else {
            type_use_at(node, "type", key.as_str(), facts);
        }
    }
    proof {
        reveal_strlit("function_item");
        reveal_strlit("struct_item");
        reveal_strlit("enum_item");
        reveal_strlit("type_item");
        assert("function_item"@.len() != "struct_item"@.len());
        assert("function_item"@.len() != "enum_item"@.len());
        assert("function_item"@.len() != "type_item"@.len());
        assert("struct_item"@.len() != "type_item"@.len());
        assert("enum_item"@[0] != "type_item"@[0]);
    }
    assert(file_index::fact_views(facts@) =~= start + rs_leaf(node@, path@, scope@));
}

/// What a trait states of itself: that it is there, and its bounds.
pub open spec fn rs_trait(t: TreeView, path: Seq<char>, key: Seq<char>) -> Seq<FactView> {
    seq![FactView::Symbol(file_index::symbol_at(path, key, NodeKind::Class, t.span))] + (match syntax::field_of(
        t,
        "bounds"@,
    ) {
        Some(b) => rs_type_uses(b.children, key),
        None => Seq::empty(),
    })
}

/// Notes what a trait states of itself.
fn note_trait(node: &SyntaxNode, path: &str, key: &str, facts: &mut Vec<Fact>)
    ensures
        file_index::fact_views(final(facts)@) == file_index::fact_views(old(facts)@) + rs_trait(node@, path@, key@),
{
    let ghost start = file_index::fact_views(facts@);
    add_fact(facts, Fact::Symbol(symbol_of(path, key, NodeKind::Class, node.span)));
    if let Some(b) = node.child_by_field_name("bounds") {
        record_type_uses(b, key, facts);
    }
    assert(file_index::fact_views(facts@) =~= start + rs_trait(node@, path@, key@));
}

/// The type that an `impl` is for, without its arguments.
pub open spec fn rs_impl_type(t: TreeView) -> Seq<char> {
    text::trimmed(text::before(syntax::field_text(t, "type"@), "<"@))
}

/// The trait that an `impl` is of.
pub open spec fn rs_impl(t: TreeView) -> Seq<FactView> {
    match syntax::field_of(t, "trait"@) {
        Some(c) => match rs_type_of(c) {
            Some(base) => seq![
                FactView::Extends(ExtendsView { class: rs_impl_type(t), base, span: c.span }),
            ],
            None => Seq::empty(),
        },
        None => Seq::empty(),
    }
}

/// Notes the trait that an `impl` is of.
fn note_impl(node: &SyntaxNode, class: &str, facts: &mut Vec<Fact>)
    requires
        class@ == rs_impl_type(node@),
    ensures
        file_index::fact_views(final(facts)@) == file_index::fact_views(old(facts)@) + rs_impl(node@),
{
    let ghost start = file_index::fact_views(facts@);
    if let Some(c) = node.child_by_field_name("trait") {
        if let Some(base_name) = simple_type_name(c) {
            add_fact(
                facts,
                Fact::Extends(
                    ParsedExtends { class_stable_key: owned(class), base_name, span: c.span },
                ),
            );
        }
    }
    assert(file_index::fact_views(facts@) =~= start + rs_impl(node@));
}

/// What a tree defines inside of what it stands in.
pub open spec fn rs_visit(t: TreeView, path: Seq<char>, scope: Seq<char>) -> Seq<FactView>
    decreases t,
{
    let name = syntax::field_text(t, "name"@);
    if t.kind == "attribute_item"@ || t.kind == "inner_attribute_item"@ {
        Seq::empty()
    } else if rs_leaf_item(t.kind) {
        rs_leaf(t, path, scope)
    } else if t.kind == "trait_item"@ || t.kind == "impl_item"@ || t.kind == "mod_item"@ {
        proof {
            syntax::lemma_field_smaller(t, "body"@);
            if let Some(b) = syntax::field_of(t, "body"@) {
                assert(decreases_to!(b => b.children));
            }
        }
        let inner = if t.kind == "impl_item"@ {
            rs_impl_type(t)
        } else {
            name
        };
        let own = if t.kind == "trait_item"@ {
            rs_trait(t, path, rs_key(scope, name))
        } else if t.kind == "impl_item"@ {
            rs_impl(t)
        } else {
            Seq::empty()
        };
        if inner.len() == 0 {
            Seq::empty()
        } else {
            match syntax::field_of(t, "body"@) {
                Some(b) => own + rs_visit_all(b.children, path, rs_key(scope, inner)),
                None => own,
            }
        }
    } else {
        rs_visit_all(t.children, path, scope)
    }
}

/// What named trees define.
pub open spec fn rs_visit_all(s: Seq<TreeView>, path: Seq<char>, scope: Seq<char>) -> Seq<FactView>
    decreases s,
{
    if s.len() == 0 {
        Seq::empty()
    } else if s.last().named {
        rs_visit_all(s.drop_last(), path, scope) + rs_visit(s.last(), path, scope)
    } else {
        rs_visit_all(s.drop_last(), path, scope)
    }
}

/// Notes what a tree defines.
fn visit(node: &SyntaxNode, path: &str, scope: &str, facts: &mut Vec<Fact>)
    ensures
        file_index::fact_views(final(facts)@) == file_index::fact_views(old(facts)@) + rs_visit(node@, path@, scope@),
    decreases node, 1int,
{
    let ghost start = file_index::fact_views(facts@);
    if node.is("attribute_item") || node.is("inner_attribute_item") {
        assert(file_index::fact_views(facts@) =~= start + rs_visit(node@, path@, scope@));
    } else if is_rs_leaf_item(node.kind.as_str()) {
        note_leaf(node, path, scope, facts);
    } else if node.is("trait_item") || node.is("impl_item") || node.is("mod_item") {
        let inner = if node.is("impl_item") {
            let whole = node.field_text("type");
            let front = text_before(whole.as_str(), "<");
            text_trim(front.as_str())
        } else {
            node.field_text("name")
        };
        let cs = chars_of(inner.as_str());
        let key = key_in(scope, inner.as_str());
        proof {
            reveal_strlit("trait_item");
            reveal_strlit("impl_item");
            assert("trait_item"@.len() != "impl_item"@.len());
        }
        if cs.len() > 0 {
            if node.is("trait_item") {
                note_trait(node, path, key.as_str(), facts);
            } else if node.is("impl_item") {
                note_impl(node, inner.as_str(), facts);
            }
            if let Some(b) = node.child_by_field_name("body") {
                visit_children(b, path, key.as_str(), facts);
            }
        }
        assert(file_index::fact_views(facts@) =~= start + rs_visit(node@, path@, scope@));
    } else {
        visit_children(node, path, scope, facts);
    }
}

/// Notes what the children of a node define.
fn visit_children(node: &SyntaxNode, path: &str, scope: &str, facts: &mut Vec<Fact>)
    ensures
        file_index::fact_views(final(facts)@) == file_index::fact_views(old(facts)@) + rs_visit_all(
            node@.children,
            path@,
            scope@,
        ),
    decreases node, 0int,
{
    let ghost base = file_index::fact_views(facts@);
    let ghost s = node@.children;
    let mut i: usize = 0;
    proof {
        syntax::lemma_forest(node.children@);
        assert(s.take(0) =~= Seq::<TreeView>::empty());
        assert(base + rs_visit_all(s.take(0), path@, scope@) =~= base);
    }
    while i < node.children.len()
        invariant
            i <= node.children.len(),
            s == syntax::forest_of(node.children@),
            s.len() == node.children.len(),
            forall|j: int| 0 <= j < s.len() ==> #[trigger] s[j] == syntax::tree_of(node.children@[j]),
            file_index::fact_views(facts@) == base + rs_visit_all(s.take(i as int), path@, scope@),
        decreases node.children.len() - i,
    {
        let c = &node.children[i];
        proof {
            assert(decreases_to!(node => node.children@[i as int]));
            assert(s.take(i + 1).drop_last() =~= s.take(i as int));
            assert(s.take(i + 1).last() == c@);
        }
        if c.named {
            visit(c, path, scope, facts);
            assert(file_index::fact_views(facts@) =~= base + rs_visit_all(s.take(i + 1), path@, scope@));
        }
        i = i + 1;
    }
    assert(s.take(s.len() as int) =~= s);
}

/// The names that a tree of a `use` brings in.
pub open spec fn rs_use_names(t: TreeView) -> Seq<Seq<char>>
    decreases t,
{
    if t.kind == "use_as_clause"@ {
        match syntax::field_of(t, "alias"@) {
            Some(a) => seq![a.text],
            None => match syntax::field_of(t, "path"@) {
                Some(p) => match syntax::field_of(p, "name"@) {
                    Some(n) => seq![n.text],
                    None => Seq::empty(),
                },
                None => Seq::empty(),
            },
        }
    } else if t.kind == "identifier"@ {
        seq![t.text]
    } else if t.kind == "scoped_identifier"@ {
        match syntax::field_of(t, "name"@) {
            Some(n) => seq![n.text],
            None => Seq::empty(),
        }
    } else {
        rs_use_names_all(t.children)
    }
}

/// The names that named trees of a `use` bring in.
pub open spec fn rs_use_names_all(s: Seq<TreeView>) -> Seq<Seq<char>>
    decreases s,
{
    if s.len() == 0 {
        Seq::empty()
    } else if s.last().named {
        rs_use_names_all(s.drop_last()) + rs_use_names(s.last())
    } else {
        rs_use_names_all(s.drop_last())
    }
}

/// Collects the names that a tree of a `use` brings in.
fn collect_use_names(node: &SyntaxNode, names: &mut Vec<String>)
    ensures
        text::texts(final(names)@) == text::texts(old(names)@) + rs_use_names(node@),
    decreases node,
{
    let ghost base = text::texts(names@);
    if node.is("use_as_clause") {
        match node.child_by_field_name("alias") {
            Some(a) => add_name(names, owned(a.text.as_str())),
            None => {
                if let Some(p) = node.child_by_field_name("path") {
                    if let Some(n) = p.child_by_field_name("name") {
                        add_name(names, owned(n.text.as_str()));
                    }
                }
            },
        }
        assert(text::texts(names@) =~= base + rs_use_names(node@));
        return ;
    }
    if node.is("identifier") {
        add_name(names, owned(node.text.as_str()));
        assert(text::texts(names@) =~= base + rs_use_names(node@));
        return ;
    }
    if node.is("scoped_identifier") {
        if let Some(n) = node.child_by_field_name("name") {
            add_name(names, owned(n.text.as_str()));
        }
        assert(text::texts(names@) =~= base + rs_use_names(node@));
        return ;
    }
    let ghost s = node@.children;
    let mut i: usize = 0;
    proof {
        syntax::lemma_forest(node.children@);
        assert(s.take(0) =~= Seq::<TreeView>::empty());
        assert(base + rs_use_names_all(s.take(0)) =~= base);
    }
    while i < node.children.len()
        invariant
            i <= node.children.len(),
            s == syntax::forest_of(node.children@),
            s.len() == node.children.len(),
            forall|j: int| 0 <= j < s.len() ==> #[trigger] s[j] == syntax::tree_of(node.children@[j]),
            text::texts(names@) == base + rs_use_names_all(s.take(i as int)),
        decreases node.children.len() - i,
    {
        let c = &node.children[i];
        proof {
            assert(decreases_to!(node => node.children@[i as int]));
            assert(s.take(i + 1).drop_last() =~= s.take(i as int));
            assert(s.take(i + 1).last() == c@);
        }
        if c.named {
            collect_use_names(c, names);
            assert(text::texts(names@) =~= base + rs_use_names_all(s.take(i + 1)));
        }
        i = i + 1;
    }
    assert(s.take(s.len() as int) =~= s);
}

/// The path in front of the names of a `use`.
pub open spec fn rs_use_path(t: TreeView) -> Seq<char> {
    match syntax::field_of(t, "argument"@) {
        Some(a) => if a.kind == "use_as_clause"@ || a.kind == "scoped_identifier"@ || a.kind
            == "identifier"@ || a.kind == "scoped_use_list"@ {
            text::without_endings(text::before(a.text, "{"@), "::"@)
        } else if a.kind == "use_wildcard"@ {
            text::without_endings(a.text, "::*"@)
        } else if a.kind == "use_list"@ {
            text::without_endings(text::before(t.text, "{"@), "::"@)
        } else {
            a.text
        },
        None => text::without_endings(text::without_beginnings(t.text, "use "@), ";"@),
    }
}

/// Reads the path in front of the names of a `use`.
fn extract_use_path_module(node: &SyntaxNode) -> (r: String)
    ensures
        r@ == rs_use_path(node@),
{
    match node.child_by_field_name("argument") {
        Some(a) => {
            if a.is("use_as_clause") || a.is("scoped_identifier") || a.is("identifier") || a.is(
                "scoped_use_list",
            ) {
                let front = text_before(a.text.as_str(), "{");
                text_drop_endings(front.as_str(), "::")
            } else if a.is("use_wildcard") {
                text_drop_endings(a.text.as_str(), "::*")
            } else if a.is("use_list") {
                let front = text_before(node.text.as_str(), "{");
                text_drop_endings(front.as_str(), "::")
            } else {
                owned(a.text.as_str())
            }
        },
        None => {
            let rest = text_drop_beginnings(node.text.as_str(), "use ");
            text_drop_endings(rest.as_str(), ";")
        },
    }
}

/// The import that a `use` is.
pub open spec fn rs_import(t: TreeView) -> ImportView {
    let path = rs_use_path(t);
    let module = text::replaced_text(path, "::"@, "."@);
    if text::contains_text(t.text, "::*"@) {
        ImportView { module, style: ImportStyle::Star, names: Seq::empty(), span: t.span }
    } else {
        let names = rs_use_names(t);
        ImportView {
            module,
            style: ImportStyle::Names,
            names: if names.len() == 0 {
                seq![text::after_last(path, "::"@)]
            } else {
                names
            },
            span: t.span,
        }
    }
}

/// Reads the import that a `use` is.
fn extract_use_tree(node: &SyntaxNode) -> (r: ParsedImport)
    ensures
        r@ == rs_import(node@),
{
    let path = extract_use_path_module(node);
    let module = text_replace(path.as_str(), "::", ".");
    let mut names: Vec<String> = Vec::new();
    assert(text::texts(names@) =~= Seq::empty());
    if text_contains(node.text.as_str(), "::*") {
        return ParsedImport { module, style: ImportStyle::Star, names, span: node.span };
    }
    collect_use_names(node, &mut names);
    assert(text::texts(names@) =~= rs_use_names(node@));
    assert(text::texts(names@).len() == names@.len());
    if names.len() == 0 {
        let last = text_after_last(path.as_str(), "::");
        add_name(&mut names, last);
        assert(text::texts(names@) =~= seq![text::after_last(path@, "::"@)]);
    }
    ParsedImport { module, style: ImportStyle::Names, names, span: node.span }
}

/// The imports among some items.
pub open spec fn rs_imports(s: Seq<TreeView>) -> Seq<ImportView>
    decreases s.len(),
{
    if s.len() == 0 {
        Seq::empty()
    } else if s.last().named && s.last().kind == "use_declaration"@ {
        rs_imports(s.drop_last()).push(rs_import(s.last()))
    } else {
        rs_imports(s.drop_last())
    }
}

/// Reads the imports of a file.
fn extract_use_declarations(node: &SyntaxNode) -> (r: Vec<ParsedImport>)
    ensures
        file_index::import_views(r@) == rs_imports(node@.children),
{
    let ghost s = node@.children;
    let mut out: Vec<ParsedImport> = Vec::new();
    let mut i: usize = 0;
    proof {
        syntax::lemma_forest(node.children@);
        assert(s.take(0) =~= Seq::<TreeView>::empty());
        assert(file_index::import_views(out@) =~= Seq::empty());
    }
    while i < node.children.len()
        invariant
            i <= node.children.len(),
            s == syntax::forest_of(node.children@),
            s.len() == node.children.len(),
            forall|j: int| 0 <= j < s.len() ==> #[trigger] s[j] == syntax::tree_of(node.children@[j]),
            file_index::import_views(out@) == rs_imports(s.take(i as int)),
        decreases node.children.len() - i,
    {
        let c = &node.children[i];
        let ghost so_far = file_index::import_views(out@);
        proof {
            assert(s.take(i + 1).drop_last() =~= s.take(i as int));
            assert(s.take(i + 1).last() == c@);
        }
        if c.named && c.is("use_declaration") {
            let x = extract_use_tree(c);
            let ghost xv = x@;
            out.push(x);
            assert(file_index::import_views(out@) =~= so_far.push(xv));
        }
        i = i + 1;
    }
    assert(s.take(s.len() as int) =~= s);
    out
}

/// What is known of a Rust file by its syntax tree.
pub open spec fn rs_index(path: Seq<char>, content: Seq<char>, t: TreeView) -> IndexView {
    let facts = seq![FactView::Symbol(file_index::file_symbol(path, content))] + rs_visit(
        t,
        path,
        Seq::empty(),
    );
    let x = file_index::with_facts(file_index::empty_index(), facts);
    IndexView { symbols: file_index::told_apart(x.symbols), imports: rs_imports(t.children), ..x }
}

/// Finds what is known of a Rust file by its syntax tree.
pub fn index_rust_tree(path: &str, content: &str, root: &SyntaxNode) -> (r: FileIndex)
    ensures
        r@ == rs_index(path@, content@, root@),
{
    let mut facts: Vec<Fact> = Vec::new();
    proof {
        assert(file_index::fact_views(facts@) =~= Seq::empty());
        reveal_strlit("");
        assert(""@ =~= Seq::<char>::empty());
    }
    add_fact(&mut facts, Fact::Symbol(file_symbol_of(path, content)));
    visit(root, path, "", &mut facts);
    assert(file_index::fact_views(facts@) =~= seq![FactView::Symbol(file_index::file_symbol(path@, content@))] + rs_visit(
        root@,
        path@,
        Seq::empty(),
    ));
    let mut idx = FileIndex::new();
    idx.learn_all(facts);
    idx.imports = extract_use_declarations(root);
    assign_collision_disambiguators(&mut idx);
    idx
}

/// What is known of a Rust file; nothing where it has no syntax tree.
pub open spec fn rs_file_index(path: Seq<char>, content: Seq<char>) -> Option<IndexView> {
    match syntax::source_tree(Grammar::Rust, content) {
        Some((bad, t)) => Some(rs_index(path, content, t)),
        None => None,
    }
}

/// Finds what is known of a Rust file.
pub fn index_rust_file(path: &str, content: &str) -> (r: Result<FileIndex, IndexError>)
    ensures
        language_indexer::index_view(r) == rs_file_index(path@, content@),
{
    match parse_source(Grammar::Rust, content) {
        Some((bad, t)) => Ok(index_rust_tree(path, content, &t)),
        None => Err(IndexError::ParseFailed),
    }
}

/// The module that a Rust file is: its path without the ending, with points between the parts;
/// `mod`, `lib` and `main` stand for the directory.
pub open spec fn rs_module_key(path: Seq<char>) -> Seq<char> {
    let base = text::replaced(text::without_endings(path, ".rs"@), '/', '.');
    if text::finishes_with(base, ".mod"@) {
        text::without_endings(base, ".mod"@)
    } else if text::finishes_with(base, ".lib"@) {
        base.take(base.len() - 4)
    } else if text::finishes_with(base, ".main"@) {
        base.take(base.len() - 5)
    } else {
        base
    }
}

/// Builds the name of the module that a Rust file is.
pub fn path_to_rust_module_key(rel_path: &str) -> (r: String)
    ensures
        r@ == rs_module_key(rel_path@),
{
    let a = text_drop_endings(rel_path, ".rs");
    let cs = chars_of(a.as_str());
    let bs = chars_replace(&cs, '/', '.');
    let base = text_of(&bs);
    proof {
        reveal_strlit(".lib");
        reveal_strlit(".main");
    }
    if text_finishes_with(base.as_str(), ".mod") {
        text_drop_endings(base.as_str(), ".mod")
    } else if text_finishes_with(base.as_str(), ".lib") {
        let part = cut(&bs, 0, bs.len() - 4);
        assert(part@ =~= base@.take(base@.len() - 4));
        text_of(&part)
    } else if text_finishes_with(base.as_str(), ".main") {
        let part = cut(&bs, 0, bs.len() - 5);
        assert(part@ =~= base@.take(base@.len() - 5));
        text_of(&part)
    } else {
        base
    }
}

/// The indexer of Rust files.
#[derive(Debug, Clone, Copy)]
pub struct RustIndexer;

impl LanguageIndexer for RustIndexer {
    open spec fn index_of(&self, path: Seq<char>, content: Seq<char>) -> Option<IndexView> {
        rs_file_index(path, content)
    }

    open spec fn module_of(&self, rel_path: Seq<char>) -> Seq<char> {
        rs_module_key(rel_path)
    }

    open spec fn language_spec(&self) -> Language {
        Language::Rust
    }

    open spec fn extension_spec(&self) -> Seq<char> {
        "rs"@
    }

    fn language(&self) -> (r: Language) {
        Language::Rust
    }

    fn index_file(&self, path: &str, content: &str) -> (r: Result<FileIndex, IndexError>) {
        index_rust_file(path, content)
    }

    fn module_key(&self, rel_path: &str) -> (r: String) {
        path_to_rust_module_key(rel_path)
    }

    fn file_extension(&self) -> (r: &'static str) {
        "rs"
    }
}

} // verus!
