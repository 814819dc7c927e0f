//! What the index of a Rust file holds, told by the tree of the file.

use crate::file_index;
use crate::file_index::{
    CallView, ExtendsView, FactView, ImportStyle, ImportView, ReceiverView, SymbolView, UseView,
};
use crate::graph::{NodeKind, SourceSpan};
use crate::rust_indexer;
use crate::spans;
use crate::syntax;
use crate::syntax::TreeView;
use crate::text;
use crate::tree_laws;
use vstd::prelude::*;

verus! {

proof fn lemma_rs_calls_all(s: Seq<TreeView>, caller: Seq<char>, x: FactView)
    ensures
        rust_indexer::rs_calls_all(s, caller).contains(x) <==> tree_laws::given(s, |c: TreeView| rust_indexer::rs_calls(c, caller), x),
{
    let f = |c: TreeView| rust_indexer::rs_calls(c, caller);
    lemma_rs_calls_all_gather(s, caller);
    tree_laws::lemma_gathered(s, f, x);
}

proof fn lemma_rs_calls_all_gather(s: Seq<TreeView>, caller: Seq<char>)
    ensures
        rust_indexer::rs_calls_all(s, caller) == tree_laws::gathered(s, |c: TreeView| rust_indexer::rs_calls(c, caller)),
    decreases s.len(),
{
    let f = |c: TreeView| rust_indexer::rs_calls(c, caller);
    if s.len() > 0 {
        lemma_rs_calls_all_gather(s.drop_last(), caller);
    }
}

/// What rs calls holds comes from a node inside.
proof fn lemma_rs_calls(t: TreeView, caller: Seq<char>, x: FactView)
    ensures
        rust_indexer::rs_calls(t, caller).contains(x) <==> tree_laws::found(t, |n: TreeView| rust_indexer::rs_own_calls(n, caller), x),
    decreases t,
{
    let own = |n: TreeView| rust_indexer::rs_own_calls(n, caller);
    let f = |c: TreeView| rust_indexer::rs_calls(c, caller);
    lemma_rs_calls_all(t.children, caller, x);
    tree_laws::lemma_both(rust_indexer::rs_own_calls(t, caller), rust_indexer::rs_calls_all(t.children, caller), x);
    if tree_laws::found(t, own, x) {
        let n = choose|n: TreeView| #[trigger] tree_laws::within(t, n) && own(n).contains(x);
        if n != t {
            let c = tree_laws::lemma_below(t, n);
            lemma_rs_calls(c, caller, x);
            assert(tree_laws::within(c, n) && own(n).contains(x));
            assert(t.children.contains(c) && c.named && f(c).contains(x));
        }
    }
    if tree_laws::given(t.children, f, x) {
        let c = choose|c: TreeView| #[trigger] t.children.contains(c) && c.named && f(c).contains(x);
        tree_laws::lemma_child_smaller(t, c);
        lemma_rs_calls(c, caller, x);
        let n = choose|n: TreeView| #[trigger] tree_laws::within(c, n) && own(n).contains(x);
        tree_laws::lemma_inside(t, c, n);
        assert(tree_laws::within(t, n) && own(n).contains(x));
    }
    assert(tree_laws::within(t, t));
}

proof fn lemma_rs_types_all(s: Seq<TreeView>, owner: Seq<char>, x: FactView)
    ensures
        rust_indexer::rs_types_all(s, owner).contains(x) <==> tree_laws::given(s, |c: TreeView| rust_indexer::rs_types(c, owner), x),
{
    let f = |c: TreeView| rust_indexer::rs_types(c, owner);
    lemma_rs_types_all_gather(s, owner);
    tree_laws::lemma_gathered(s, f, x);
}

proof fn lemma_rs_types_all_gather(s: Seq<TreeView>, owner: Seq<char>)
    ensures
        rust_indexer::rs_types_all(s, owner) == tree_laws::gathered(s, |c: TreeView| rust_indexer::rs_types(c, owner)),
    decreases s.len(),
{
    let f = |c: TreeView| rust_indexer::rs_types(c, owner);
    if s.len() > 0 {
        lemma_rs_types_all_gather(s.drop_last(), owner);
    }
}

/// What rs types holds comes from a node inside.
proof fn lemma_rs_types(t: TreeView, owner: Seq<char>, x: FactView)
    ensures
        rust_indexer::rs_types(t, owner).contains(x) <==> tree_laws::found(t, |n: TreeView| rust_indexer::rs_own_types(n, owner), x),
    decreases t,
{
    let own = |n: TreeView| rust_indexer::rs_own_types(n, owner);
    let f = |c: TreeView| rust_indexer::rs_types(c, owner);
    lemma_rs_types_all(t.children, owner, x);
    tree_laws::lemma_both(rust_indexer::rs_own_types(t, owner), rust_indexer::rs_types_all(t.children, owner), x);
    if tree_laws::found(t, own, x) {
        let n = choose|n: TreeView| #[trigger] tree_laws::within(t, n) && own(n).contains(x);
        if n != t {
            let c = tree_laws::lemma_below(t, n);
            lemma_rs_types(c, owner, x);
            assert(tree_laws::within(c, n) && own(n).contains(x));
            assert(t.children.contains(c) && c.named && f(c).contains(x));
        }
    }
    if tree_laws::given(t.children, f, x) {
        let c = choose|c: TreeView| #[trigger] t.children.contains(c) && c.named && f(c).contains(x);
        tree_laws::lemma_child_smaller(t, c);
        lemma_rs_types(c, owner, x);
        let n = choose|n: TreeView| #[trigger] tree_laws::within(c, n) && own(n).contains(x);
        tree_laws::lemma_inside(t, c, n);
        assert(tree_laws::within(t, n) && own(n).contains(x));
    }
    assert(tree_laws::within(t, t));
}

proof fn lemma_rs_type_uses(s: Seq<TreeView>, owner: Seq<char>, x: FactView)
    ensures
        rust_indexer::rs_type_uses(s, owner).contains(x) <==> tree_laws::given(s, |c: TreeView| rust_indexer::rs_type_use(c, owner), x),
{
    let f = |c: TreeView| rust_indexer::rs_type_use(c, owner);
    lemma_rs_type_uses_gather(s, owner);
    tree_laws::lemma_gathered(s, f, x);
}

proof fn lemma_rs_type_uses_gather(s: Seq<TreeView>, owner: Seq<char>)
    ensures
        rust_indexer::rs_type_uses(s, owner) == tree_laws::gathered(s, |c: TreeView| rust_indexer::rs_type_use(c, owner)),
    decreases s.len(),
{
    let f = |c: TreeView| rust_indexer::rs_type_use(c, owner);
    if s.len() > 0 {
        lemma_rs_type_uses_gather(s.drop_last(), owner);
    }
}

proof fn lemma_rs_visit_all(s: Seq<TreeView>, path: Seq<char>, scope: Seq<char>, x: FactView)
    ensures
        rust_indexer::rs_visit_all(s, path, scope).contains(x) <==> tree_laws::given(s, |c: TreeView| rust_indexer::rs_visit(c, path, scope), x),
{
    let f = |c: TreeView| rust_indexer::rs_visit(c, path, scope);
    lemma_rs_visit_all_gather(s, path, scope);
    tree_laws::lemma_gathered(s, f, x);
}

proof fn lemma_rs_visit_all_gather(s: Seq<TreeView>, path: Seq<char>, scope: Seq<char>)
    ensures
        rust_indexer::rs_visit_all(s, path, scope) == tree_laws::gathered(s, |c: TreeView| rust_indexer::rs_visit(c, path, scope)),
    decreases s.len(),
{
    let f = |c: TreeView| rust_indexer::rs_visit(c, path, scope);
    if s.len() > 0 {
        lemma_rs_visit_all_gather(s.drop_last(), path, scope);
    }
}

proof fn lemma_rs_use_names_all(s: Seq<TreeView>, x: Seq<char>)
    ensures
        rust_indexer::rs_use_names_all(s).contains(x) <==> tree_laws::given(s, |c: TreeView| rust_indexer::rs_use_names(c), x),
{
    let f = |c: TreeView| rust_indexer::rs_use_names(c);
    lemma_rs_use_names_all_gather(s);
    tree_laws::lemma_gathered(s, f, x);
}

proof fn lemma_rs_use_names_all_gather(s: Seq<TreeView>)
    ensures
        rust_indexer::rs_use_names_all(s) == tree_laws::gathered(s, |c: TreeView| rust_indexer::rs_use_names(c)),
    decreases s.len(),
{
    let f = |c: TreeView| rust_indexer::rs_use_names(c);
    if s.len() > 0 {
        lemma_rs_use_names_all_gather(s.drop_last());
    }
}

/// What a node calls: a name is itself; a field is a member of what it is taken from; a name behind a path
/// is a member of what the path calls, or itself where the path calls nothing; nothing else is called.
pub proof fn law_rust_chain(t: TreeView, o: TreeView, n: TreeView)
    ensures
        t.kind == "identifier"@ || t.kind == "field_identifier"@ || t.kind == "type_identifier"@
            ==> rust_indexer::rs_receiver(t) == Some(ReceiverView::Bare(t.text)),
        t.kind == "field_expression"@ && syntax::field_of(t, "value"@) == Some(o) && syntax::field_of(
            t,
            "field"@,
        ) == Some(n) ==> rust_indexer::rs_receiver(t) == (match rust_indexer::rs_receiver(o) {
            Some(r) => Some(ReceiverView::Attr { object: Box::new(r), name: n.text }),
            None => None,
        }),
        t.kind == "scoped_identifier"@ && syntax::field_of(t, "path"@) == Some(o) && syntax::field_of(
            t,
            "name"@,
        ) == Some(n) ==> rust_indexer::rs_receiver(t) == (match rust_indexer::rs_receiver(o) {
            Some(r) => Some(ReceiverView::Attr { object: Box::new(r), name: n.text }),
            None => Some(ReceiverView::Bare(n.text)),
        }),
        t.kind == "scoped_identifier"@ && syntax::field_of(t, "path"@) is None && syntax::field_of(
            t,
            "name"@,
        ) is Some ==> rust_indexer::rs_receiver(t) == Some(
            ReceiverView::Bare(syntax::field_of(t, "name"@)->0.text),
        ),
        t.kind != "identifier"@ && t.kind != "field_identifier"@ && t.kind != "type_identifier"@ && t.kind
            != "field_expression"@ && t.kind != "scoped_identifier"@ ==> rust_indexer::rs_receiver(t) is None,
{
    reveal_strlit("identifier");
    reveal_strlit("field_identifier");
    reveal_strlit("type_identifier");
    reveal_strlit("field_expression");
    reveal_strlit("scoped_identifier");
    assert("identifier"@.len() == 10 && "field_identifier"@.len() == 16 && "type_identifier"@.len() == 15
        && "field_expression"@.len() == 16 && "scoped_identifier"@.len() == 17);
    assert("field_identifier"@[6] == 'i' && "field_expression"@[6] == 'e');
}

/// The name of a type: that of a plain name is its text without the space around it; that of a name
/// behind a path is the name; that of a type with arguments or of a reference is the type's inside; no
/// other node names a type.
pub proof fn law_rust_type_names(t: TreeView, c: TreeView)
    ensures
        t.kind == "type_identifier"@ || t.kind == "identifier"@ ==> rust_indexer::rs_type_of(t) == (
        if text::trimmed(t.text).len() > 0 {
            Some(text::trimmed(t.text))
        } else {
            None
        }),
        (t.kind == "scoped_type_identifier"@ || t.kind == "scoped_identifier"@) && syntax::field_of(
            t,
            "name"@,
        ) == Some(c) && text::trimmed(c.text).len() > 0 ==> rust_indexer::rs_type_of(t) == Some(
            text::trimmed(c.text),
        ),
        (t.kind == "generic_type"@ || t.kind == "reference_type"@) && syntax::field_of(t, "type"@) == Some(c)
            ==> rust_indexer::rs_type_of(t) == rust_indexer::rs_type_of(c),
        t.kind != "type_identifier"@ && t.kind != "identifier"@ && t.kind != "scoped_type_identifier"@
            && t.kind != "scoped_identifier"@ && t.kind != "generic_type"@ && t.kind != "reference_type"@
            ==> rust_indexer::rs_type_of(t) is None,
{
    reveal_strlit("type_identifier");
    reveal_strlit("identifier");
    reveal_strlit("scoped_type_identifier");
    reveal_strlit("scoped_identifier");
    reveal_strlit("generic_type");
    reveal_strlit("reference_type");
    assert("type_identifier"@.len() == 15 && "identifier"@.len() == 10 && "scoped_type_identifier"@.len()
        == 22 && "scoped_identifier"@.len() == 17 && "generic_type"@.len() == 12 && "reference_type"@.len()
        == 14);
}

/// Names whose calls are not followed.
pub open spec fn rs_unheard() -> Seq<Seq<char>> {
    seq![
        "println"@, "eprintln"@, "format"@, "panic"@, "todo"@, "unimplemented"@, "dbg"@, "assert"@,
        "assert_eq"@, "assert_ne"@, "vec"@,
    ]
}

/// Macros that are not followed, besides those names.
pub open spec fn rs_unheard_macros() -> Seq<Seq<char>> {
    seq![
        "cfg"@, "derive"@, "include"@, "env"@, "concat"@, "stringify"@, "write"@, "writeln"@, "log"@, "info"@,
        "warn"@, "error"@, "debug"@, "trace"@,
    ]
}

/// Types that the language has, and those that stand for the type at hand.
pub open spec fn rs_native() -> Seq<Seq<char>> {
    seq![
        "bool"@, "char"@, "u8"@, "u16"@, "u32"@, "u64"@, "u128"@, "usize"@, "i8"@, "i16"@, "i32"@, "i64"@,
        "i128"@, "isize"@, "f32"@, "f64"@, "str"@, "String"@, "Self"@, "self"@,
    ]
}

proof fn lemma_unheard(n: Seq<char>)
    ensures
        rust_indexer::rs_quiet(n) <==> rs_unheard().contains(n),
{
    let s = rs_unheard();
    assert(s[0] == "println"@ && s[1] == "eprintln"@ && s[2] == "format"@ && s[3] == "panic"@ && s[4]
        == "todo"@ && s[5] == "unimplemented"@ && s[6] == "dbg"@ && s[7] == "assert"@ && s[8]
        == "assert_eq"@ && s[9] == "assert_ne"@ && s[10] == "vec"@);
}

proof fn lemma_unheard_macros(n: Seq<char>)
    ensures
        rust_indexer::rs_quiet_macro(n) <==> rs_unheard_macros().contains(n),
{
    let s = rs_unheard_macros();
    assert(s[0] == "cfg"@ && s[1] == "derive"@ && s[2] == "include"@ && s[3] == "env"@ && s[4] == "concat"@
        && s[5] == "stringify"@ && s[6] == "write"@ && s[7] == "writeln"@ && s[8] == "log"@ && s[9]
        == "info"@ && s[10] == "warn"@ && s[11] == "error"@ && s[12] == "debug"@ && s[13] == "trace"@);
}

proof fn lemma_native(n: Seq<char>)
    ensures
        rust_indexer::rs_builtin(n) <==> rs_native().contains(n),
{
    let s = rs_native();
    assert(s[0] == "bool"@ && s[1] == "char"@ && s[2] == "u8"@ && s[3] == "u16"@ && s[4] == "u32"@ && s[5]
        == "u64"@ && s[6] == "u128"@ && s[7] == "usize"@ && s[8] == "i8"@ && s[9] == "i16"@ && s[10]
        == "i32"@ && s[11] == "i64"@ && s[12] == "i128"@ && s[13] == "isize"@ && s[14] == "f32"@ && s[15]
        == "f64"@ && s[16] == "str"@ && s[17] == "String"@ && s[18] == "Self"@ && s[19] == "self"@);
}

/// A node calls something: a function whose name is heard of, or a macro that is, which is named with
/// its mark.
pub open spec fn rs_call(n: TreeView, r: ReceiverView) -> bool {
    ||| n.kind == "call_expression"@ && !rs_unheard().contains(tree_laws::end_of_chain(r)) && (
    match syntax::field_of(n, "function"@) {
        Some(f) => rust_indexer::rs_receiver(f) == Some(r),
        None => false,
    })
    ||| n.kind == "macro_invocation"@ && (match syntax::field_of(n, "macro"@) {
        Some(m) => !rs_unheard().contains(m.text) && !rs_unheard_macros().contains(m.text) && r
            == ReceiverView::Bare(m.text + "!"@),
        None => false,
    })
}

/// Something is called inside a node.
pub open spec fn rs_calls_in(t: TreeView, r: ReceiverView, span: SourceSpan) -> bool {
    match syntax::field_of(t, "body"@) {
        Some(b) => exists|n: TreeView| #[trigger] tree_laws::within(b, n) && rs_call(n, r) && span == n.span,
        None => false,
    }
}

/// A node is a type that the language does not have.
pub open spec fn rs_states(at: TreeView, name: Seq<char>) -> bool {
    rust_indexer::rs_type_of(at) == Some(name) && !rs_native().contains(name)
}

/// A type is stated inside the child of a node in a field.
pub open spec fn rs_states_in(t: TreeView, field: Seq<char>, name: Seq<char>, span: SourceSpan) -> bool {
    match syntax::field_of(t, field) {
        Some(p) => exists|n: TreeView| #[trigger]
            tree_laws::within(p, n) && rs_states(n, name) && span == n.span && (n.kind == "type_identifier"@
                || n.kind == "scoped_type_identifier"@ || n.kind == "generic_type"@),
        None => false,
    }
}

/// The child of a node in a field is a type.
pub open spec fn rs_states_at(t: TreeView, field: Seq<char>, name: Seq<char>, span: SourceSpan) -> bool {
    match syntax::field_of(t, field) {
        Some(p) => rs_states(p, name) && span == p.span,
        None => false,
    }
}

proof fn lemma_calls_at(t: TreeView, key: Seq<char>, x: FactView)
    ensures
        rust_indexer::rs_calls_at(t, "body"@, key).contains(x) <==> match x {
            FactView::Call(c) => c.caller == key && rs_calls_in(t, c.callee, c.span),
            _ => false,
        },
{
    if let Some(b) = syntax::field_of(t, "body"@) {
        let own = |n: TreeView| rust_indexer::rs_own_calls(n, key);
        lemma_rs_calls(b, key, x);
        if tree_laws::found(b, own, x) {
            let n = choose|n: TreeView| #[trigger] tree_laws::within(b, n) && own(n).contains(x);
            lemma_own_call(n, key, x);
        }
        if let FactView::Call(c) = x {
            if c.caller == key && rs_calls_in(t, c.callee, c.span) {
                let n = choose|n: TreeView| #[trigger]
                    tree_laws::within(b, n) && rs_call(n, c.callee) && c.span == n.span;
                lemma_own_call(n, key, x);
                assert(tree_laws::within(b, n) && own(n).contains(x));
            }
        }
    }
}

proof fn lemma_own_call(n: TreeView, key: Seq<char>, x: FactView)
    ensures
        rust_indexer::rs_own_calls(n, key).contains(x) <==> match x {
            FactView::Call(c) => c.caller == key && rs_call(n, c.callee) && c.span == n.span,
            _ => false,
        },
{
    reveal_strlit("call_expression");
    reveal_strlit("macro_invocation");
    assert("call_expression"@.len() == 15 && "macro_invocation"@.len() == 16);
    if n.kind == "call_expression"@ {
        if let Some(f) = syntax::field_of(n, "function"@) {
            if let Some(r) = rust_indexer::rs_receiver(f) {
                tree_laws::law_chain_ends(r);
                lemma_unheard(tree_laws::end_of_chain(r));
                tree_laws::lemma_one(FactView::Call(CallView { caller: key, callee: r, span: n.span }), x);
            }
        }
    } else if n.kind == "macro_invocation"@ {
        if let Some(m) = syntax::field_of(n, "macro"@) {
            lemma_unheard(m.text);
            lemma_unheard_macros(m.text);
            tree_laws::lemma_one(
                FactView::Call(
                    CallView { caller: key, callee: ReceiverView::Bare(m.text + "!"@), span: n.span },
                ),
                x,
            );
        }
    }
}

proof fn lemma_type_use(at: TreeView, owner: Seq<char>, x: FactView)
    ensures
        rust_indexer::rs_type_use(at, owner).contains(x) <==> match x {
            FactView::Use(u) => u.owner == owner && rs_states(at, u.type_ref) && u.span == at.span,
            _ => false,
        },
{
    if let Some(n) = rust_indexer::rs_type_of(at) {
        lemma_native(n);
        tree_laws::lemma_one(FactView::Use(UseView { owner, type_ref: n, span: at.span }), x);
    }
}

proof fn lemma_types_at(t: TreeView, field: Seq<char>, owner: Seq<char>, x: FactView)
    ensures
        rust_indexer::rs_types_at(t, field, owner).contains(x) <==> match x {
            FactView::Use(u) => u.owner == owner && rs_states_in(t, field, u.type_ref, u.span),
            _ => false,
        },
        rust_indexer::rs_type_use_at(t, field, owner).contains(x) <==> match x {
            FactView::Use(u) => u.owner == owner && rs_states_at(t, field, u.type_ref, u.span),
            _ => false,
        },
{
    if let Some(p) = syntax::field_of(t, field) {
        let own = |n: TreeView| rust_indexer::rs_own_types(n, owner);
        lemma_rs_types(p, owner, x);
        lemma_type_use(p, owner, x);
        if tree_laws::found(p, own, x) {
            let n = choose|n: TreeView| #[trigger] tree_laws::within(p, n) && own(n).contains(x);
            lemma_type_use(n, owner, x);
        }
        if let FactView::Use(u) = x {
            if u.owner == owner && rs_states_in(t, field, u.type_ref, u.span) {
                let n = choose|n: TreeView| #[trigger]
                    tree_laws::within(p, n) && rs_states(n, u.type_ref) && u.span == n.span && (n.kind
                        == "type_identifier"@ || n.kind == "scoped_type_identifier"@ || n.kind
                        == "generic_type"@);
                lemma_type_use(n, owner, x);
                assert(tree_laws::within(p, n) && own(n).contains(x));
            }
        }
    }
}

/// The key of a name in a scope.
pub open spec fn rs_named(scope: Seq<char>, name: Seq<char>) -> Seq<char> {
    if scope.len() == 0 {
        name
    } else {
        scope + "."@ + name
    }
}

/// The name of what an item holds: the type of an implementation without its arguments; else its own.
pub open spec fn rs_inner(t: TreeView) -> Seq<char> {
    if t.kind == "impl_item"@ {
        text::trimmed(text::before(syntax::field_text(t, "type"@), "<"@))
    } else {
        syntax::field_text(t, "name"@)
    }
}

/// An item that holds no others.
pub open spec fn rs_plain(t: TreeView) -> bool {
    t.kind == "function_item"@ || t.kind == "struct_item"@ || t.kind == "enum_item"@ || t.kind
        == "const_item"@ || t.kind == "static_item"@ || t.kind == "type_item"@
}

/// An item that holds others.
pub open spec fn rs_holder(t: TreeView) -> bool {
    t.kind == "trait_item"@ || t.kind == "impl_item"@ || t.kind == "mod_item"@
}

/// An item `d` stands inside `t`, and the scope that it stands in where `t` stands in a scope: the names
/// of the traits, the implementations and the modules round it. What stands in an attribute is no item,
/// nor what stands in a holder without a name.
pub open spec fn rs_placed(t: TreeView, scope: Seq<char>, d: TreeView, at: Seq<char>) -> bool
    decreases t,
{
    if t.kind == "attribute_item"@ || t.kind == "inner_attribute_item"@ {
        false
    } else if rs_plain(t) {
        d == t && at == scope
    } else if rs_holder(t) {
        proof {
            syntax::lemma_field_smaller(t, "body"@);
        }
        rs_inner(t).len() > 0 && (d == t && at == scope || (match syntax::field_of(t, "body"@) {
            Some(b) => exists|i: int|
                0 <= i < b.children.len() && b.children[i].named && rs_placed(
                    #[trigger] b.children[i],
                    rs_named(scope, rs_inner(t)),
                    d,
                    at,
                ),
            None => false,
        }))
    } else {
        exists|i: int|
            0 <= i < t.children.len() && t.children[i].named && rs_placed(
                #[trigger] t.children[i],
                scope,
                d,
                at,
            )
    }
}

/// What an item tells under its key.
pub open spec fn rs_tells(d: TreeView, path: Seq<char>, at: Seq<char>, x: FactView) -> bool {
    let name = syntax::field_text(d, "name"@);
    let key = rs_named(at, name);
    match x {
        FactView::Symbol(s) => {
            ||| name.len() > 0 && (d.kind == "function_item"@ || d.kind == "const_item"@ || d.kind
                == "static_item"@) && tree_laws::stands_for(s, path, key, NodeKind::Function, d.span)
            ||| name.len() > 0 && (d.kind == "struct_item"@ || d.kind == "enum_item"@ || d.kind == "type_item"@
                || d.kind == "trait_item"@) && tree_laws::stands_for(s, path, key, NodeKind::Class, d.span)
        },
        FactView::Call(c) => name.len() > 0 && d.kind == "function_item"@ && c.caller == key && rs_calls_in(
            d,
            c.callee,
            c.span,
        ),
        FactView::Use(u) => name.len() > 0 && u.owner == key && {
            ||| d.kind == "function_item"@ && (rs_states_in(d, "parameters"@, u.type_ref, u.span)
                || rs_states_at(d, "return_type"@, u.type_ref, u.span))
            ||| (d.kind == "struct_item"@ || d.kind == "enum_item"@) && rs_states_in(
                d,
                "body"@,
                u.type_ref,
                u.span,
            )
            ||| (d.kind == "type_item"@ || d.kind == "const_item"@ || d.kind == "static_item"@)
                && rs_states_at(d, "type"@, u.type_ref, u.span)
            ||| d.kind == "trait_item"@ && rs_bound(d, u.type_ref, u.span)
        },
        FactView::Extends(e) => d.kind == "impl_item"@ && e.class == rs_inner(d) && (match syntax::field_of(
            d,
            "trait"@,
        ) {
            Some(c) => rust_indexer::rs_type_of(c) == Some(e.base) && e.span == c.span,
            None => false,
        }),
        _ => false,
    }
}

/// A trait has a bound.
pub open spec fn rs_bound(d: TreeView, name: Seq<char>, span: SourceSpan) -> bool {
    match syntax::field_of(d, "bounds"@) {
        Some(b) => exists|c: TreeView| #[trigger]
            tree_laws::child_of(b, c) && rs_states(c, name) && span == c.span,
        None => false,
    }
}

proof fn lemma_kinds()
    ensures
        "function_item"@.len() == 13,
        "struct_item"@.len() == 11,
        "enum_item"@.len() == 9,
        "const_item"@.len() == 10,
        "static_item"@.len() == 11,
        "type_item"@.len() == 9,
        "trait_item"@.len() == 10,
        "impl_item"@.len() == 9,
        "mod_item"@.len() == 8,
        "struct_item"@[2] == 'r',
        "static_item"@[2] == 'a',
        "enum_item"@[0] == 'e',
        "type_item"@[0] == 't',
        "impl_item"@[0] == 'i',
        "const_item"@[0] == 'c',
        "trait_item"@[0] == 't',
        "attribute_item"@.len() == 14,
        "inner_attribute_item"@.len() == 20,
{
    reveal_strlit("function_item");
    reveal_strlit("struct_item");
    reveal_strlit("enum_item");
    reveal_strlit("const_item");
    reveal_strlit("static_item");
    reveal_strlit("type_item");
    reveal_strlit("trait_item");
    reveal_strlit("impl_item");
    reveal_strlit("mod_item");
    reveal_strlit("attribute_item");
    reveal_strlit("inner_attribute_item");
}

proof fn lemma_leaf(d: TreeView, path: Seq<char>, at: Seq<char>, x: FactView)
    requires
        rs_plain(d),
    ensures
        rust_indexer::rs_leaf(d, path, at).contains(x) <==> rs_tells(d, path, at, x),
{
    lemma_kinds();
    let name = syntax::field_text(d, "name"@);
    let key = rs_named(at, name);
    assert(key == rust_indexer::rs_key(at, name));
    if name.len() > 0 {
        let kind = if d.kind == "function_item"@ || d.kind == "const_item"@ || d.kind == "static_item"@ {
            NodeKind::Function
        } else {
            NodeKind::Class
        };
        let s = FactView::Symbol(file_index::symbol_at(path, key, kind, d.span));
        let a = rust_indexer::rs_types_at(d, "parameters"@, key);
        let b = rust_indexer::rs_type_use_at(d, "return_type"@, key);
        let c = rust_indexer::rs_calls_at(d, "body"@, key);
        tree_laws::lemma_one(s, x);
        tree_laws::lemma_both(seq![s] + a + b, c, x);
        tree_laws::lemma_both(seq![s] + a, b, x);
        tree_laws::lemma_both(seq![s], a, x);
        tree_laws::lemma_both(seq![s], rust_indexer::rs_types_at(d, "body"@, key), x);
        tree_laws::lemma_both(seq![s], rust_indexer::rs_type_use_at(d, "type"@, key), x);
        lemma_types_at(d, "parameters"@, key, x);
        lemma_types_at(d, "return_type"@, key, x);
        lemma_types_at(d, "body"@, key, x);
        lemma_types_at(d, "type"@, key, x);
        lemma_calls_at(d, key, x);
        if let FactView::Symbol(q) = x {
            if tree_laws::stands_for(q, path, key, kind, d.span) {
                assert(q =~= s->Symbol_0);
            }
        }
    }
}

/// What a holder tells of itself.
spec fn own_of(t: TreeView, path: Seq<char>, scope: Seq<char>) -> Seq<FactView> {
    if t.kind == "trait_item"@ {
        rust_indexer::rs_trait(t, path, rust_indexer::rs_key(scope, syntax::field_text(t, "name"@)))
    } else if t.kind == "impl_item"@ {
        rust_indexer::rs_impl(t)
    } else {
        Seq::empty()
    }
}

proof fn lemma_holder(d: TreeView, path: Seq<char>, at: Seq<char>, x: FactView)
    requires
        rs_holder(d),
        rs_inner(d).len() > 0,
    ensures
        own_of(d, path, at).contains(x) <==> rs_tells(d, path, at, x),
{
    lemma_kinds();
    let name = syntax::field_text(d, "name"@);
    let key = rs_named(at, name);
    if d.kind == "trait_item"@ {
        let s = FactView::Symbol(file_index::symbol_at(path, key, NodeKind::Class, d.span));
        let rest = match syntax::field_of(d, "bounds"@) {
            Some(b) => rust_indexer::rs_type_uses(b.children, key),
            None => Seq::empty(),
        };
        tree_laws::lemma_one(s, x);
        tree_laws::lemma_both(seq![s], rest, x);
        if let FactView::Symbol(q) = x {
            if tree_laws::stands_for(q, path, key, NodeKind::Class, d.span) {
                assert(q =~= s->Symbol_0);
            }
        }
        if let Some(b) = syntax::field_of(d, "bounds"@) {
            let f = |c: TreeView| rust_indexer::rs_type_use(c, key);
            lemma_rs_type_uses(b.children, key, x);
            if tree_laws::given(b.children, f, x) {
                let c = choose|c: TreeView| #[trigger] b.children.contains(c) && c.named && f(c).contains(x);
                lemma_type_use(c, key, x);
                assert(tree_laws::child_of(b, c));
            }
            if let FactView::Use(u) = x {
                if u.owner == key && rs_bound(d, u.type_ref, u.span) {
                    let c = choose|c: TreeView| #[trigger]
                        tree_laws::child_of(b, c) && rs_states(c, u.type_ref) && u.span == c.span;
                    lemma_type_use(c, key, x);
                    assert(b.children.contains(c) && c.named && f(c).contains(x));
                }
            }
        }
    } else if d.kind == "impl_item"@ {
        if let Some(c) = syntax::field_of(d, "trait"@) {
            if let Some(base) = rust_indexer::rs_type_of(c) {
                tree_laws::lemma_one(
                    FactView::Extends(ExtendsView { class: rs_inner(d), base, span: c.span }),
                    x,
                );
            }
        }
    }
}

/// An item of a tree tells something.
pub open spec fn rs_told_in(t: TreeView, path: Seq<char>, scope: Seq<char>, x: FactView) -> bool {
    exists|d: TreeView, at: Seq<char>| #[trigger] rs_placed(t, scope, d, at) && rs_tells(d, path, at, x)
}

/// An item among the children of a node tells something.
spec fn told_below(s: Seq<TreeView>, path: Seq<char>, scope: Seq<char>, x: FactView) -> bool {
    exists|c: TreeView| #[trigger] s.contains(c) && c.named && rs_told_in(c, path, scope, x)
}

proof fn lemma_visit_all(b: TreeView, path: Seq<char>, scope: Seq<char>, x: FactView)
    ensures
        rust_indexer::rs_visit_all(b.children, path, scope).contains(x) <==> told_below(
            b.children,
            path,
            scope,
            x,
        ),
    decreases b, 0nat,
{
    let f = |c: TreeView| rust_indexer::rs_visit(c, path, scope);
    lemma_rs_visit_all(b.children, path, scope, x);
    if tree_laws::given(b.children, f, x) {
        let c = choose|c: TreeView| #[trigger] b.children.contains(c) && c.named && f(c).contains(x);
        tree_laws::lemma_child_smaller(b, c);
        lemma_visit(c, path, scope, x);
    }
    if told_below(b.children, path, scope, x) {
        let c = choose|c: TreeView| #[trigger]
            b.children.contains(c) && c.named && rs_told_in(c, path, scope, x);
        tree_laws::lemma_child_smaller(b, c);
        lemma_visit(c, path, scope, x);
        assert(b.children.contains(c) && c.named && f(c).contains(x));
    }
}

proof fn lemma_visit(t: TreeView, path: Seq<char>, scope: Seq<char>, x: FactView)
    ensures
        rust_indexer::rs_visit(t, path, scope).contains(x) <==> rs_told_in(t, path, scope, x),
    decreases t, 1nat,
{
    lemma_kinds();
    if t.kind == "attribute_item"@ || t.kind == "inner_attribute_item"@ {
    } else if rs_plain(t) {
        lemma_leaf(t, path, scope, x);
        assert(rs_placed(t, scope, t, scope));
    } else if rs_holder(t) {
        lemma_visit_holder(t, path, scope, x);
    } else {
        lemma_visit_all(t, path, scope, x);
        if told_below(t.children, path, scope, x) {
            let c = choose|c: TreeView| #[trigger]
                t.children.contains(c) && c.named && rs_told_in(c, path, scope, x);
            let (d, at) = choose|d: TreeView, at: Seq<char>| #[trigger]
                rs_placed(c, scope, d, at) && rs_tells(d, path, at, x);
            let i = choose|i: int| 0 <= i < t.children.len() && t.children[i] == c;
            assert(t.children[i].named && rs_placed(t.children[i], scope, d, at));
            assert(rs_placed(t, scope, d, at));
        }
        if rs_told_in(t, path, scope, x) {
            let (d, at) = choose|d: TreeView, at: Seq<char>| #[trigger]
                rs_placed(t, scope, d, at) && rs_tells(d, path, at, x);
            let i = choose|i: int|
                0 <= i < t.children.len() && t.children[i].named && rs_placed(
                    #[trigger] t.children[i],
                    scope,
                    d,
                    at,
                );
            assert(t.children.contains(t.children[i]) && rs_told_in(t.children[i], path, scope, x));
        }
    }
}

proof fn lemma_visit_holder(t: TreeView, path: Seq<char>, scope: Seq<char>, x: FactView)
    requires
        rs_holder(t),
    ensures
        rust_indexer::rs_visit(t, path, scope).contains(x) <==> rs_told_in(t, path, scope, x),
    decreases t, 0nat,
{
    lemma_kinds();
    syntax::lemma_field_smaller(t, "body"@);
    if rs_inner(t).len() > 0 {
        let own = own_of(t, path, scope);
        let inner = rs_named(scope, rs_inner(t));
        lemma_holder(t, path, scope, x);
        assert(rs_placed(t, scope, t, scope));
        if let Some(b) = syntax::field_of(t, "body"@) {
            lemma_visit_all(b, path, inner, x);
            tree_laws::lemma_both(own, rust_indexer::rs_visit_all(b.children, path, inner), x);
            assert(rust_indexer::rs_visit(t, path, scope) == own + rust_indexer::rs_visit_all(
                b.children,
                path,
                inner,
            ));
            if told_below(b.children, path, inner, x) {
                let c = choose|c: TreeView| #[trigger]
                    b.children.contains(c) && c.named && rs_told_in(c, path, inner, x);
                let (d, at) = choose|d: TreeView, at: Seq<char>| #[trigger]
                    rs_placed(c, inner, d, at) && rs_tells(d, path, at, x);
                let i = choose|i: int| 0 <= i < b.children.len() && b.children[i] == c;
                assert(b.children[i].named && rs_placed(b.children[i], inner, d, at));
                assert(rs_placed(t, scope, d, at));
            }
            if rs_told_in(t, path, scope, x) {
                let (d, at) = choose|d: TreeView, at: Seq<char>| #[trigger]
                    rs_placed(t, scope, d, at) && rs_tells(d, path, at, x);
                if !(d == t && at == scope) {
                    let i = choose|i: int|
                        0 <= i < b.children.len() && b.children[i].named && rs_placed(
                            #[trigger] b.children[i],
                            inner,
                            d,
                            at,
                        );
                    assert(b.children.contains(b.children[i]) && rs_told_in(b.children[i], path, inner, x));
                }
            }
        } else {
            assert(rust_indexer::rs_visit(t, path, scope) == own);
        }
    }
}

/// The facts that a file gives.
spec fn facts_of(path: Seq<char>, content: Seq<char>, t: TreeView) -> Seq<FactView> {
    seq![FactView::Symbol(file_index::file_symbol(path, content))] + rust_indexer::rs_visit(
        t,
        path,
        Seq::empty(),
    )
}

proof fn lemma_facts(path: Seq<char>, content: Seq<char>, t: TreeView, x: FactView)
    ensures
        facts_of(path, content, t).contains(x) <==> {
            ||| x == FactView::Symbol(file_index::file_symbol(path, content))
            ||| rs_told_in(t, path, Seq::empty(), x)
        },
{
    let s = FactView::Symbol(file_index::file_symbol(path, content));
    tree_laws::lemma_both(seq![s], rust_indexer::rs_visit(t, path, Seq::empty()), x);
    tree_laws::lemma_one(s, x);
    lemma_visit(t, path, Seq::empty(), x);
}

/// What the index of a file says, besides its symbols, its items say: a function calls what its body
/// calls, however deep it stands; items use the types that they state; an implementation has its trait
/// for a base. Nothing else is called, used or a base.
pub proof fn law_rust_index(path: Seq<char>, content: Seq<char>, t: TreeView, c: CallView, u: UseView, e: ExtendsView)
    ensures
        ({
            let x = rust_indexer::rs_index(path, content, t);
            &&& x.calls.contains(c) <==> exists|d: TreeView, at: Seq<char>| #[trigger]
                rs_placed(t, Seq::empty(), d, at) && rs_tells(d, path, at, FactView::Call(c))
            &&& x.uses.contains(u) <==> exists|d: TreeView, at: Seq<char>| #[trigger]
                rs_placed(t, Seq::empty(), d, at) && rs_tells(d, path, at, FactView::Use(u))
            &&& x.extends.contains(e) <==> exists|d: TreeView, at: Seq<char>| #[trigger]
                rs_placed(t, Seq::empty(), d, at) && rs_tells(d, path, at, FactView::Extends(e))
        }),
{
    let facts = facts_of(path, content, t);
    tree_laws::law_index_knows_the_facts(facts, FactView::Call(c));
    tree_laws::law_index_knows_the_facts(facts, FactView::Use(u));
    tree_laws::law_index_knows_the_facts(facts, FactView::Extends(e));
    lemma_facts(path, content, t, FactView::Call(c));
    lemma_facts(path, content, t, FactView::Use(u));
    lemma_facts(path, content, t, FactView::Extends(e));
}

/// The symbols of a file: the file itself, and its items that have a name.
pub proof fn law_rust_symbols(path: Seq<char>, content: Seq<char>, t: TreeView, s: SymbolView)
    requires
        s.disambiguator == Seq::<char>::empty(),
    ensures
        tree_laws::lists(rust_indexer::rs_index(path, content, t).symbols, s) <==> {
            ||| s.key == "$file"@ && s.name == path && s.kind == NodeKind::File && s.span == spans::whole_span(
                content,
            )
            ||| exists|d: TreeView, at: Seq<char>| #[trigger]
                rs_placed(t, Seq::empty(), d, at) && rs_tells(d, path, at, FactView::Symbol(s))
        },
{
    let x = FactView::Symbol(s);
    let facts = facts_of(path, content, t);
    let given = file_index::with_facts(file_index::empty_index(), facts).symbols;
    tree_laws::law_index_knows_the_facts(facts, x);
    lemma_facts(path, content, t, x);
    assert forall|i: int| 0 <= i < given.len() implies (#[trigger] given[i]).disambiguator
        == Seq::<char>::empty() by {
        let y = FactView::Symbol(given[i]);
        assert(given.contains(given[i]));
        tree_laws::law_index_knows_the_facts(facts, y);
        lemma_facts(path, content, t, y);
    }
    tree_laws::lemma_listed(given, s);
    if s.key == "$file"@ && s.name == path && s.kind == NodeKind::File && s.span == spans::whole_span(
        content,
    ) {
        assert(s =~= file_index::file_symbol(path, content));
    }
}

/// A node of a use declaration that stands for a name of its own.
pub open spec fn rs_use_leaf(t: TreeView) -> bool {
    t.kind == "use_as_clause"@ || t.kind == "identifier"@ || t.kind == "scoped_identifier"@
}

/// A node that stands for a name stands inside `t`, and inside no other such.
pub open spec fn rs_use_at(t: TreeView, d: TreeView) -> bool
    decreases t,
{
    if rs_use_leaf(t) {
        d == t
    } else {
        exists|i: int| 0 <= i < t.children.len() && t.children[i].named && rs_use_at(#[trigger] t.children[i], d)
    }
}

/// The name that such a node gives: its text; the last part of a path; the name behind `as`, and the last
/// part of the path where there is none.
pub open spec fn rs_use_name(d: TreeView, n: Seq<char>) -> bool {
    ||| d.kind == "identifier"@ && n == d.text
    ||| d.kind == "scoped_identifier"@ && (match syntax::field_of(d, "name"@) {
        Some(c) => n == c.text,
        None => false,
    })
    ||| d.kind == "use_as_clause"@ && (match syntax::field_of(d, "alias"@) {
        Some(a) => n == a.text,
        None => match syntax::field_of(d, "path"@) {
            Some(p) => match syntax::field_of(p, "name"@) {
                Some(c) => n == c.text,
                None => false,
            },
            None => false,
        },
    })
}

/// The names that a use declaration gives are those of the nodes in it that stand for one.
pub proof fn law_rust_use_names(t: TreeView, n: Seq<char>)
    ensures
        rust_indexer::rs_use_names(t).contains(n) <==> exists|d: TreeView| #[trigger]
            rs_use_at(t, d) && rs_use_name(d, n),
    decreases t,
{
    reveal_strlit("use_as_clause");
    reveal_strlit("identifier");
    reveal_strlit("scoped_identifier");
    assert("use_as_clause"@.len() == 13 && "identifier"@.len() == 10 && "scoped_identifier"@.len() == 17);
    if rs_use_leaf(t) {
        let r = rust_indexer::rs_use_names(t);
        if r.len() > 0 {
            assert(r =~= seq![r[0]]);
            tree_laws::lemma_one(r[0], n);
        }
        assert(rs_use_at(t, t));
        assert(r.contains(n) <==> rs_use_name(t, n));
    } else {
        let f = |c: TreeView| rust_indexer::rs_use_names(c);
        lemma_rs_use_names_all(t.children, n);
        if tree_laws::given(t.children, f, n) {
            let c = choose|c: TreeView| #[trigger] t.children.contains(c) && c.named && f(c).contains(n);
            tree_laws::lemma_child_smaller(t, c);
            law_rust_use_names(c, n);
            let d = choose|d: TreeView| #[trigger] rs_use_at(c, d) && rs_use_name(d, n);
            let i = choose|i: int| 0 <= i < t.children.len() && t.children[i] == c;
            assert(t.children[i].named && rs_use_at(t.children[i], d));
            assert(rs_use_at(t, d));
        }
        if exists|d: TreeView| #[trigger] rs_use_at(t, d) && rs_use_name(d, n) {
            let d = choose|d: TreeView| #[trigger] rs_use_at(t, d) && rs_use_name(d, n);
            let i = choose|i: int|
                0 <= i < t.children.len() && t.children[i].named && rs_use_at(#[trigger] t.children[i], d);
            let c = t.children[i];
            tree_laws::lemma_child_smaller(t, c);
            law_rust_use_names(c, n);
            assert(t.children.contains(c) && c.named && f(c).contains(n));
        }
    }
}

/// What a use declaration imports: all of a module where it ends in a star; else the names that it gives,
/// and where it gives none, the last part of its path.
pub proof fn law_rust_imports(t: TreeView, n: Seq<char>)
    ensures
        ({
            let r = rust_indexer::rs_import(t);
            let star = text::contains_text(t.text, "::*"@);
            &&& r.span == t.span
            &&& r.module == text::replaced_text(rust_indexer::rs_use_path(t), "::"@, "."@)
            &&& star ==> r.style == ImportStyle::Star && r.names.len() == 0
            &&& !star ==> r.style == ImportStyle::Names && r.names.len() > 0
            &&& !star && (exists|d: TreeView| #[trigger] rs_use_at(t, d) && rs_use_name(d, n)) ==> r.names.contains(n)
            &&& !star && rust_indexer::rs_use_names(t).len() == 0 ==> r.names == seq![
                text::after_last(rust_indexer::rs_use_path(t), "::"@),
            ]
        }),
{
    law_rust_use_names(t, n);
}

/// The path of a use declaration: what stands before a brace, without the last colons; without the star;
/// any other as it is.
pub proof fn law_rust_use_path(t: TreeView, a: TreeView)
    requires
        syntax::field_of(t, "argument"@) == Some(a),
    ensures
        a.kind == "scoped_identifier"@ || a.kind == "identifier"@ || a.kind == "use_as_clause"@ || a.kind
            == "scoped_use_list"@ ==> rust_indexer::rs_use_path(t) == text::without_endings(
            text::before(a.text, "{"@),
            "::"@,
        ),
        a.kind == "use_wildcard"@ ==> rust_indexer::rs_use_path(t) == text::without_endings(a.text, "::*"@),
{
    reveal_strlit("scoped_identifier");
    reveal_strlit("identifier");
    reveal_strlit("use_as_clause");
    reveal_strlit("scoped_use_list");
    reveal_strlit("use_wildcard");
    assert("scoped_identifier"@.len() == 17 && "identifier"@.len() == 10 && "use_as_clause"@.len() == 13
        && "scoped_use_list"@.len() == 15 && "use_wildcard"@.len() == 12);
}

proof fn lemma_imports(s: Seq<TreeView>, i: ImportView)
    ensures
        rust_indexer::rs_imports(s).contains(i) <==> exists|c: TreeView| #[trigger]
            s.contains(c) && c.named && c.kind == "use_declaration"@ && i == rust_indexer::rs_import(c),
    decreases s.len(),
{
    if s.len() > 0 {
        let front = s.drop_last();
        let l = s.last();
        lemma_imports(front, i);
        if l.named && l.kind == "use_declaration"@ {
            let a = rust_indexer::rs_imports(front);
            let e = rust_indexer::rs_import(l);
            assert(a.push(e) =~= a + seq![e]);
            tree_laws::lemma_both(a, seq![e], i);
            tree_laws::lemma_one(e, i);
        }
        assert forall|c: TreeView| #[trigger] s.contains(c) implies (front.contains(c) || c == l) by {
            tree_laws::lemma_ends(s, c);
        }
        assert forall|c: TreeView| #[trigger] front.contains(c) implies s.contains(c) by {
            tree_laws::lemma_ends(s, c);
        }
        tree_laws::lemma_ends(s, l);
    }
}

/// The imports of a file are the use declarations at its top.
pub proof fn law_rust_use_declarations(path: Seq<char>, content: Seq<char>, t: TreeView, i: ImportView)
    ensures
        rust_indexer::rs_index(path, content, t).imports.contains(i) <==> exists|c: TreeView| #[trigger]
            tree_laws::child_of(t, c) && c.kind == "use_declaration"@ && i == rust_indexer::rs_import(c),
{
    lemma_imports(t.children, i);
    if exists|c: TreeView| #[trigger]
        t.children.contains(c) && c.named && c.kind == "use_declaration"@ && i == rust_indexer::rs_import(c) {
        let c = choose|c: TreeView| #[trigger]
            t.children.contains(c) && c.named && c.kind == "use_declaration"@ && i == rust_indexer::rs_import(c);
        assert(tree_laws::child_of(t, c));
    }
}

} // verus!
