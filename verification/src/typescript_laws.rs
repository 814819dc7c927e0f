//! What the index of a TypeScript file holds, told by the tree of the file.

use crate::file_index;
use crate::file_index::{
    CallView, ExtendsView, FactView, ImportStyle, ImportView, ReceiverView, SymbolView, UseView,
};
use crate::graph::{NodeKind, SourceSpan};
use crate::spans;
use crate::syntax;
use crate::syntax::{Grammar, TreeView};
use crate::text;
use crate::tree_laws;
use crate::typescript_indexer;
use vstd::prelude::*;

verus! {

proof fn lemma_ts_calls_all(s: Seq<TreeView>, caller: Seq<char>, x: FactView)
    ensures
        typescript_indexer::ts_calls_all(s, caller).contains(x) <==> tree_laws::given(s, |c: TreeView| typescript_indexer::ts_calls(c, caller), x),
{
    let f = |c: TreeView| typescript_indexer::ts_calls(c, caller);
    lemma_ts_calls_all_gather(s, caller);
    tree_laws::lemma_gathered(s, f, x);
}

proof fn lemma_ts_calls_all_gather(s: Seq<TreeView>, caller: Seq<char>)
    ensures
        typescript_indexer::ts_calls_all(s, caller) == tree_laws::gathered(s, |c: TreeView| typescript_indexer::ts_calls(c, caller)),
    decreases s.len(),
{
    let f = |c: TreeView| typescript_indexer::ts_calls(c, caller);
    if s.len() > 0 {
        lemma_ts_calls_all_gather(s.drop_last(), caller);
    }
}

/// What ts calls holds comes from a node inside.
proof fn lemma_ts_calls(t: TreeView, caller: Seq<char>, x: FactView)
    ensures
        typescript_indexer::ts_calls(t, caller).contains(x) <==> tree_laws::found(t, |n: TreeView| typescript_indexer::ts_own_calls(n, caller), x),
    decreases t,
{
    let own = |n: TreeView| typescript_indexer::ts_own_calls(n, caller);
    let f = |c: TreeView| typescript_indexer::ts_calls(c, caller);
    lemma_ts_calls_all(t.children, caller, x);
    tree_laws::lemma_both(typescript_indexer::ts_own_calls(t, caller), typescript_indexer::ts_calls_all(t.children, caller), x);
    if tree_laws::found(t, own, x) {
        let n = choose|n: TreeView| #[trigger] tree_laws::within(t, n) && own(n).contains(x);
        if n != t {
            let c = tree_laws::lemma_below(t, n);
            lemma_ts_calls(c, caller, x);
            assert(tree_laws::within(c, n) && own(n).contains(x));
            assert(t.children.contains(c) && c.named && f(c).contains(x));
        }
    }
    if tree_laws::given(t.children, f, x) {
        let c = choose|c: TreeView| #[trigger] t.children.contains(c) && c.named && f(c).contains(x);
        tree_laws::lemma_child_smaller(t, c);
        lemma_ts_calls(c, caller, x);
        let n = choose|n: TreeView| #[trigger] tree_laws::within(c, n) && own(n).contains(x);
        tree_laws::lemma_inside(t, c, n);
        assert(tree_laws::within(t, n) && own(n).contains(x));
    }
    assert(tree_laws::within(t, t));
}

proof fn lemma_ts_types_all(s: Seq<TreeView>, owner: Seq<char>, x: FactView)
    ensures
        typescript_indexer::ts_types_all(s, owner).contains(x) <==> tree_laws::given(s, |c: TreeView| typescript_indexer::ts_types(c, owner), x),
{
    let f = |c: TreeView| typescript_indexer::ts_types(c, owner);
    lemma_ts_types_all_gather(s, owner);
    tree_laws::lemma_gathered(s, f, x);
}

proof fn lemma_ts_types_all_gather(s: Seq<TreeView>, owner: Seq<char>)
    ensures
        typescript_indexer::ts_types_all(s, owner) == tree_laws::gathered(s, |c: TreeView| typescript_indexer::ts_types(c, owner)),
    decreases s.len(),
{
    let f = |c: TreeView| typescript_indexer::ts_types(c, owner);
    if s.len() > 0 {
        lemma_ts_types_all_gather(s.drop_last(), owner);
    }
}

/// What ts types holds comes from a node inside.
proof fn lemma_ts_types(t: TreeView, owner: Seq<char>, x: FactView)
    ensures
        typescript_indexer::ts_types(t, owner).contains(x) <==> tree_laws::found(t, |n: TreeView| typescript_indexer::ts_own_types(n, owner), x),
    decreases t,
{
    let own = |n: TreeView| typescript_indexer::ts_own_types(n, owner);
    let f = |c: TreeView| typescript_indexer::ts_types(c, owner);
    lemma_ts_types_all(t.children, owner, x);
    tree_laws::lemma_both(typescript_indexer::ts_own_types(t, owner), typescript_indexer::ts_types_all(t.children, owner), x);
    if tree_laws::found(t, own, x) {
        let n = choose|n: TreeView| #[trigger] tree_laws::within(t, n) && own(n).contains(x);
        if n != t {
            let c = tree_laws::lemma_below(t, n);
            lemma_ts_types(c, owner, x);
            assert(tree_laws::within(c, n) && own(n).contains(x));
            assert(t.children.contains(c) && c.named && f(c).contains(x));
        }
    }
    if tree_laws::given(t.children, f, x) {
        let c = choose|c: TreeView| #[trigger] t.children.contains(c) && c.named && f(c).contains(x);
        tree_laws::lemma_child_smaller(t, c);
        lemma_ts_types(c, owner, x);
        let n = choose|n: TreeView| #[trigger] tree_laws::within(c, n) && own(n).contains(x);
        tree_laws::lemma_inside(t, c, n);
        assert(tree_laws::within(t, n) && own(n).contains(x));
    }
    assert(tree_laws::within(t, t));
}

proof fn lemma_ts_fields_all(s: Seq<TreeView>, class: Seq<char>, x: FactView)
    ensures
        typescript_indexer::ts_fields_all(s, class).contains(x) <==> tree_laws::given(s, |c: TreeView| typescript_indexer::ts_fields(c, class), x),
{
    let f = |c: TreeView| typescript_indexer::ts_fields(c, class);
    lemma_ts_fields_all_gather(s, class);
    tree_laws::lemma_gathered(s, f, x);
}

proof fn lemma_ts_fields_all_gather(s: Seq<TreeView>, class: Seq<char>)
    ensures
        typescript_indexer::ts_fields_all(s, class) == tree_laws::gathered(s, |c: TreeView| typescript_indexer::ts_fields(c, class)),
    decreases s.len(),
{
    let f = |c: TreeView| typescript_indexer::ts_fields(c, class);
    if s.len() > 0 {
        lemma_ts_fields_all_gather(s.drop_last(), class);
    }
}

/// What ts fields holds comes from a node inside.
proof fn lemma_ts_fields(t: TreeView, class: Seq<char>, x: FactView)
    ensures
        typescript_indexer::ts_fields(t, class).contains(x) <==> tree_laws::found(t, |n: TreeView| typescript_indexer::ts_own_fields(n, class), x),
    decreases t,
{
    let own = |n: TreeView| typescript_indexer::ts_own_fields(n, class);
    let f = |c: TreeView| typescript_indexer::ts_fields(c, class);
    lemma_ts_fields_all(t.children, class, x);
    tree_laws::lemma_both(typescript_indexer::ts_own_fields(t, class), typescript_indexer::ts_fields_all(t.children, class), x);
    if tree_laws::found(t, own, x) {
        let n = choose|n: TreeView| #[trigger] tree_laws::within(t, n) && own(n).contains(x);
        if n != t {
            let c = tree_laws::lemma_below(t, n);
            lemma_ts_fields(c, class, x);
            assert(tree_laws::within(c, n) && own(n).contains(x));
            assert(t.children.contains(c) && c.named && f(c).contains(x));
        }
    }
    if tree_laws::given(t.children, f, x) {
        let c = choose|c: TreeView| #[trigger] t.children.contains(c) && c.named && f(c).contains(x);
        tree_laws::lemma_child_smaller(t, c);
        lemma_ts_fields(c, class, x);
        let n = choose|n: TreeView| #[trigger] tree_laws::within(c, n) && own(n).contains(x);
        tree_laws::lemma_inside(t, c, n);
        assert(tree_laws::within(t, n) && own(n).contains(x));
    }
    assert(tree_laws::within(t, t));
}

proof fn lemma_ts_type_uses(s: Seq<TreeView>, owner: Seq<char>, x: FactView)
    ensures
        typescript_indexer::ts_type_uses(s, owner).contains(x) <==> tree_laws::given(s, |c: TreeView| typescript_indexer::ts_type_use(c, owner), x),
{
    let f = |c: TreeView| typescript_indexer::ts_type_use(c, owner);
    lemma_ts_type_uses_gather(s, owner);
    tree_laws::lemma_gathered(s, f, x);
}

proof fn lemma_ts_type_uses_gather(s: Seq<TreeView>, owner: Seq<char>)
    ensures
        typescript_indexer::ts_type_uses(s, owner) == tree_laws::gathered(s, |c: TreeView| typescript_indexer::ts_type_use(c, owner)),
    decreases s.len(),
{
    let f = |c: TreeView| typescript_indexer::ts_type_use(c, owner);
    if s.len() > 0 {
        lemma_ts_type_uses_gather(s.drop_last(), owner);
    }
}

proof fn lemma_ts_bases(s: Seq<TreeView>, class: Seq<char>, x: FactView)
    ensures
        typescript_indexer::ts_bases(s, class).contains(x) <==> tree_laws::given(s, |c: TreeView| typescript_indexer::ts_base(c, class), x),
{
    let f = |c: TreeView| typescript_indexer::ts_base(c, class);
    lemma_ts_bases_gather(s, class);
    tree_laws::lemma_gathered(s, f, x);
}

proof fn lemma_ts_bases_gather(s: Seq<TreeView>, class: Seq<char>)
    ensures
        typescript_indexer::ts_bases(s, class) == tree_laws::gathered(s, |c: TreeView| typescript_indexer::ts_base(c, class)),
    decreases s.len(),
{
    let f = |c: TreeView| typescript_indexer::ts_base(c, class);
    if s.len() > 0 {
        lemma_ts_bases_gather(s.drop_last(), class);
    }
}

proof fn lemma_ts_heritages(s: Seq<TreeView>, class: Seq<char>, x: FactView)
    ensures
        typescript_indexer::ts_heritages(s, class).contains(x) <==> tree_laws::given(s, |c: TreeView| typescript_indexer::ts_heritage(c, class), x),
{
    let f = |c: TreeView| typescript_indexer::ts_heritage(c, class);
    lemma_ts_heritages_gather(s, class);
    tree_laws::lemma_gathered(s, f, x);
}

proof fn lemma_ts_heritages_gather(s: Seq<TreeView>, class: Seq<char>)
    ensures
        typescript_indexer::ts_heritages(s, class) == tree_laws::gathered(s, |c: TreeView| typescript_indexer::ts_heritage(c, class)),
    decreases s.len(),
{
    let f = |c: TreeView| typescript_indexer::ts_heritage(c, class);
    if s.len() > 0 {
        lemma_ts_heritages_gather(s.drop_last(), class);
    }
}

proof fn lemma_ts_headers(s: Seq<TreeView>, class: Seq<char>, x: FactView)
    ensures
        typescript_indexer::ts_headers(s, class).contains(x) <==> tree_laws::given(s, |c: TreeView| if c.kind == "class_heritage"@ {
            typescript_indexer::ts_header(c, class)
        } else {
            Seq::empty()
        }, x),
{
    let f = |c: TreeView| if c.kind == "class_heritage"@ {
            typescript_indexer::ts_header(c, class)
        } else {
            Seq::empty()
        };
    lemma_ts_headers_gather(s, class);
    tree_laws::lemma_gathered(s, f, x);
}

proof fn lemma_ts_headers_gather(s: Seq<TreeView>, class: Seq<char>)
    ensures
        typescript_indexer::ts_headers(s, class) == tree_laws::gathered(s, |c: TreeView| if c.kind == "class_heritage"@ {
            typescript_indexer::ts_header(c, class)
        } else {
            Seq::empty()
        }),
    decreases s.len(),
{
    let f = |c: TreeView| if c.kind == "class_heritage"@ {
            typescript_indexer::ts_header(c, class)
        } else {
            Seq::empty()
        };
    if s.len() > 0 {
        lemma_ts_headers_gather(s.drop_last(), class);
        assert(tree_laws::gathered(s.drop_last(), f) + Seq::<FactView>::empty() =~= tree_laws::gathered(s.drop_last(), f));
    }
}

proof fn lemma_ts_members(s: Seq<TreeView>, path: Seq<char>, class: Seq<char>, x: FactView)
    ensures
        typescript_indexer::ts_members(s, path, class).contains(x) <==> tree_laws::given(s, |c: TreeView| typescript_indexer::ts_member(c, path, class), x),
{
    let f = |c: TreeView| typescript_indexer::ts_member(c, path, class);
    lemma_ts_members_gather(s, path, class);
    tree_laws::lemma_gathered(s, f, x);
}

proof fn lemma_ts_members_gather(s: Seq<TreeView>, path: Seq<char>, class: Seq<char>)
    ensures
        typescript_indexer::ts_members(s, path, class) == tree_laws::gathered(s, |c: TreeView| typescript_indexer::ts_member(c, path, class)),
    decreases s.len(),
{
    let f = |c: TreeView| typescript_indexer::ts_member(c, path, class);
    if s.len() > 0 {
        lemma_ts_members_gather(s.drop_last(), path, class);
    }
}

proof fn lemma_ts_parents(s: Seq<TreeView>, class: Seq<char>, x: FactView)
    ensures
        typescript_indexer::ts_parents(s, class).contains(x) <==> tree_laws::given(s, |c: TreeView| typescript_indexer::ts_parent(c, class), x),
{
    let f = |c: TreeView| typescript_indexer::ts_parent(c, class);
    lemma_ts_parents_gather(s, class);
    tree_laws::lemma_gathered(s, f, x);
}

proof fn lemma_ts_parents_gather(s: Seq<TreeView>, class: Seq<char>)
    ensures
        typescript_indexer::ts_parents(s, class) == tree_laws::gathered(s, |c: TreeView| typescript_indexer::ts_parent(c, class)),
    decreases s.len(),
{
    let f = |c: TreeView| typescript_indexer::ts_parent(c, class);
    if s.len() > 0 {
        lemma_ts_parents_gather(s.drop_last(), class);
    }
}

proof fn lemma_ts_clauses(s: Seq<TreeView>, class: Seq<char>, x: FactView)
    ensures
        typescript_indexer::ts_clauses(s, class).contains(x) <==> tree_laws::given(s, |c: TreeView| if c.kind == "extends_type_clause"@ || c.kind == "extends_clause"@ {
            typescript_indexer::ts_clause(c, class)
        } else {
            Seq::empty()
        }, x),
{
    let f = |c: TreeView| if c.kind == "extends_type_clause"@ || c.kind == "extends_clause"@ {
            typescript_indexer::ts_clause(c, class)
        } else {
            Seq::empty()
        };
    lemma_ts_clauses_gather(s, class);
    tree_laws::lemma_gathered(s, f, x);
}

proof fn lemma_ts_clauses_gather(s: Seq<TreeView>, class: Seq<char>)
    ensures
        typescript_indexer::ts_clauses(s, class) == tree_laws::gathered(s, |c: TreeView| if c.kind == "extends_type_clause"@ || c.kind == "extends_clause"@ {
            typescript_indexer::ts_clause(c, class)
        } else {
            Seq::empty()
        }),
    decreases s.len(),
{
    let f = |c: TreeView| if c.kind == "extends_type_clause"@ || c.kind == "extends_clause"@ {
            typescript_indexer::ts_clause(c, class)
        } else {
            Seq::empty()
        };
    if s.len() > 0 {
        lemma_ts_clauses_gather(s.drop_last(), class);
        assert(tree_laws::gathered(s.drop_last(), f) + Seq::<FactView>::empty() =~= tree_laws::gathered(s.drop_last(), f));
    }
}

proof fn lemma_ts_variables(s: Seq<TreeView>, path: Seq<char>, x: FactView)
    ensures
        typescript_indexer::ts_variables(s, path).contains(x) <==> tree_laws::given(s, |c: TreeView| if c.kind == "variable_declarator"@ {
            typescript_indexer::ts_variable(c, path)
        } else {
            Seq::empty()
        }, x),
{
    let f = |c: TreeView| if c.kind == "variable_declarator"@ {
            typescript_indexer::ts_variable(c, path)
        } else {
            Seq::empty()
        };
    lemma_ts_variables_gather(s, path);
    tree_laws::lemma_gathered(s, f, x);
}

proof fn lemma_ts_variables_gather(s: Seq<TreeView>, path: Seq<char>)
    ensures
        typescript_indexer::ts_variables(s, path) == tree_laws::gathered(s, |c: TreeView| if c.kind == "variable_declarator"@ {
            typescript_indexer::ts_variable(c, path)
        } else {
            Seq::empty()
        }),
    decreases s.len(),
{
    let f = |c: TreeView| if c.kind == "variable_declarator"@ {
            typescript_indexer::ts_variable(c, path)
        } else {
            Seq::empty()
        };
    if s.len() > 0 {
        lemma_ts_variables_gather(s.drop_last(), path);
        assert(tree_laws::gathered(s.drop_last(), f) + Seq::<FactView>::empty() =~= tree_laws::gathered(s.drop_last(), f));
    }
}

proof fn lemma_ts_visit_all(s: Seq<TreeView>, path: Seq<char>, x: FactView)
    ensures
        typescript_indexer::ts_visit_all(s, path).contains(x) <==> tree_laws::given(s, |c: TreeView| typescript_indexer::ts_visit(c, path), x),
{
    let f = |c: TreeView| typescript_indexer::ts_visit(c, path);
    lemma_ts_visit_all_gather(s, path);
    tree_laws::lemma_gathered(s, f, x);
}

proof fn lemma_ts_visit_all_gather(s: Seq<TreeView>, path: Seq<char>)
    ensures
        typescript_indexer::ts_visit_all(s, path) == tree_laws::gathered(s, |c: TreeView| typescript_indexer::ts_visit(c, path)),
    decreases s.len(),
{
    let f = |c: TreeView| typescript_indexer::ts_visit(c, path);
    if s.len() > 0 {
        lemma_ts_visit_all_gather(s.drop_last(), path);
    }
}

proof fn lemma_ts_statement_calls(s: Seq<TreeView>, caller: Seq<char>, x: FactView)
    ensures
        typescript_indexer::ts_statement_calls(s, caller).contains(x) <==> tree_laws::given(s, |c: TreeView| if c.kind == "expression_statement"@ {
            typescript_indexer::ts_calls(c, caller)
        } else {
            Seq::empty()
        }, x),
{
    let f = |c: TreeView| if c.kind == "expression_statement"@ {
            typescript_indexer::ts_calls(c, caller)
        } else {
            Seq::empty()
        };
    lemma_ts_statement_calls_gather(s, caller);
    tree_laws::lemma_gathered(s, f, x);
}

proof fn lemma_ts_statement_calls_gather(s: Seq<TreeView>, caller: Seq<char>)
    ensures
        typescript_indexer::ts_statement_calls(s, caller) == tree_laws::gathered(s, |c: TreeView| if c.kind == "expression_statement"@ {
            typescript_indexer::ts_calls(c, caller)
        } else {
            Seq::empty()
        }),
    decreases s.len(),
{
    let f = |c: TreeView| if c.kind == "expression_statement"@ {
            typescript_indexer::ts_calls(c, caller)
        } else {
            Seq::empty()
        };
    if s.len() > 0 {
        lemma_ts_statement_calls_gather(s.drop_last(), caller);
        assert(tree_laws::gathered(s.drop_last(), f) + Seq::<FactView>::empty() =~= tree_laws::gathered(s.drop_last(), f));
    }
}

/// A node that is a name or a chain of members, and the chain that it is.
pub open spec fn ts_chain(t: TreeView, r: ReceiverView) -> bool
    decreases r,
{
    match r {
        ReceiverView::Bare(n) => t.kind == "identifier"@ && n == t.text || t.kind == "this"@ && n == "this"@,
        ReceiverView::Attr { object, name } => t.kind == "member_expression"@ && (match (
            syntax::field_of(t, "object"@),
            syntax::field_of(t, "property"@),
        ) {
            (Some(o), Some(p)) => p.text == name && ts_chain(o, *object),
            _ => false,
        }),
    }
}

/// What a node calls is the chain that it is, and nothing else.
pub proof fn law_typescript_chain(t: TreeView, r: ReceiverView)
    ensures
        typescript_indexer::ts_receiver(t) == Some(r) <==> ts_chain(t, r),
    decreases t,
{
    reveal_strlit("identifier");
    reveal_strlit("this");
    reveal_strlit("member_expression");
    assert("identifier"@.len() != "this"@.len());
    assert("identifier"@.len() != "member_expression"@.len());
    assert("this"@.len() != "member_expression"@.len());
    syntax::lemma_field_smaller(t, "object"@);
    if let Some(o) = syntax::field_of(t, "object"@) {
        if let ReceiverView::Attr { object, name } = r {
            law_typescript_chain(o, *object);
        }
        if let Some(q) = typescript_indexer::ts_receiver(o) {
            law_typescript_chain(o, q);
        }
    }
}

/// Names whose calls are not followed.
pub open spec fn ts_unheard() -> Seq<Seq<char>> {
    seq![
        "console"@, "log"@, "warn"@, "error"@, "info"@, "debug"@, "require"@, "parseInt"@, "parseFloat"@,
        "isNaN"@, "setTimeout"@, "setInterval"@,
    ]
}

/// Types that the language has.
pub open spec fn ts_native() -> Seq<Seq<char>> {
    seq![
        "void"@, "string"@, "number"@, "boolean"@, "any"@, "unknown"@, "never"@, "undefined"@, "null"@,
        "symbol"@, "bigint"@, "object"@,
    ]
}

/// A node calls the end of a chain: it is a call of a chain whose end is heard of, or it makes a value.
pub open spec fn ts_call(n: TreeView, r: ReceiverView) -> bool {
    ||| n.kind == "call_expression"@ && !ts_unheard().contains(tree_laws::end_of_chain(r)) && (
    match syntax::field_of(n, "function"@) {
        Some(f) => ts_chain(f, r),
        None => false,
    })
    ||| n.kind == "new_expression"@ && (match syntax::field_of(n, "constructor"@) {
        Some(f) => ts_chain(f, r),
        None => false,
    })
}

/// A node is an element that stands for a component, and the node of its name.
pub open spec fn ts_element(n: TreeView, name: TreeView) -> bool {
    &&& n.kind == "jsx_self_closing_element"@ || n.kind == "jsx_opening_element"@
    &&& syntax::field_of(n, "name"@) == Some(name)
    &&& name.text.len() > 0 && typescript_indexer::uppercase_char(name.text[0])
}

/// A node states a type that the language does not have, and the node of that type.
pub open spec fn ts_states(n: TreeView, at: TreeView, name: Seq<char>) -> bool {
    &&& typescript_indexer::ts_type_name(at) == Some(name)
    &&& !ts_native().contains(name)
    &&& {
        ||| n.kind == "type_annotation"@ && tree_laws::child_of(n, at)
        ||| at == n && (n.kind == "type_identifier"@ || n.kind == "generic_type"@ || n.kind
            == "type_reference"@)
    }
}

/// A type is stated inside the child of a node in a field.
pub open spec fn ts_states_at(t: TreeView, field: Seq<char>, name: Seq<char>, span: SourceSpan) -> bool {
    match syntax::field_of(t, field) {
        Some(p) => exists|n: TreeView, at: TreeView| #[trigger]
            tree_laws::within(p, n) && #[trigger] ts_states(n, at, name) && span == at.span,
        None => false,
    }
}

/// A chain is called inside a node.
pub open spec fn ts_calls_in(b: TreeView, r: ReceiverView, span: SourceSpan) -> bool {
    exists|n: TreeView| #[trigger] tree_laws::within(b, n) && ts_call(n, r) && span == n.span
}

/// An element stands inside a node.
pub open spec fn ts_element_in(b: TreeView, name: Seq<char>, span: SourceSpan) -> bool {
    exists|n: TreeView, at: TreeView| #[trigger]
        tree_laws::within(b, n) && #[trigger] ts_element(n, at) && name == at.text && span == at.span
}

/// What a node declares is looked for here, not inside it.
pub open spec fn ts_declared_kinds() -> Seq<Seq<char>> {
    seq![
        "function_declaration"@, "generator_function_declaration"@, "class_declaration"@,
        "abstract_class_declaration"@, "interface_declaration"@, "type_alias_declaration"@,
        "enum_declaration"@, "lexical_declaration"@, "variable_declaration"@,
    ]
}

/// `d` stands inside `t`, and inside no other declaration.
pub open spec fn ts_declared(t: TreeView, d: TreeView) -> bool
    decreases t,
{
    if ts_declared_kinds().contains(t.kind) {
        d == t
    } else {
        exists|i: int|
            0 <= i < t.children.len() && t.children[i].named && ts_declared(#[trigger] t.children[i], d)
    }
}

/// `d` declares a function.
pub open spec fn ts_is_function(d: TreeView, key: Seq<char>) -> bool {
    &&& d.kind == "function_declaration"@ || d.kind == "generator_function_declaration"@
    &&& key.len() > 0 && syntax::field_text(d, "name"@) == key
}

/// `d` declares a class.
pub open spec fn ts_is_class(d: TreeView, class: Seq<char>) -> bool {
    &&& d.kind == "class_declaration"@ || d.kind == "abstract_class_declaration"@
    &&& class.len() > 0 && syntax::field_text(d, "name"@) == class
}

/// A node is a function that is a value.
pub open spec fn ts_is_value_function(v: TreeView) -> bool {
    v.kind == "arrow_function"@ || v.kind == "function_expression"@ || v.kind == "function"@
}

/// `m` is a method of the class that `d` declares.
pub open spec fn ts_is_method(d: TreeView, m: TreeView, class: Seq<char>, name: Seq<char>) -> bool {
    &&& ts_is_class(d, class)
    &&& match syntax::field_of(d, "body"@) {
        Some(b) => tree_laws::child_of(b, m),
        None => false,
    }
    &&& name.len() > 0 && syntax::field_text(m, "name"@) == name
    &&& {
        ||| m.kind == "method_definition"@
        ||| m.kind == "method_signature"@
        ||| m.kind == "public_field_definition"@ && (match syntax::field_of(m, "value"@) {
            Some(v) => ts_is_value_function(v),
            None => false,
        })
    }
}

/// `v` declares a variable of the declaration `d`.
pub open spec fn ts_is_variable(d: TreeView, v: TreeView) -> bool {
    &&& d.kind == "lexical_declaration"@ || d.kind == "variable_declaration"@
    &&& tree_laws::child_of(d, v) && v.kind == "variable_declarator"@
}

/// The value of a variable is a function.
pub open spec fn ts_holds_function(v: TreeView) -> bool {
    match syntax::field_of(v, "value"@) {
        Some(f) => ts_is_value_function(f) || f.kind == "generator_function"@,
        None => false,
    }
}

/// `v` names a variable of the declaration `d` whose value is the function `f`.
pub open spec fn ts_is_function_variable(d: TreeView, v: TreeView, f: TreeView, key: Seq<char>) -> bool {
    &&& ts_is_variable(d, v)
    &&& ts_holds_function(v)
    &&& syntax::field_of(v, "value"@) == Some(f)
    &&& match syntax::field_of(v, "name"@) {
        Some(n) => n.kind == "identifier"@ && n.text == key,
        None => false,
    }
}

/// What is called `key` in a file has its parameters, its result and its body in the node `m`: a
/// function, a method, or a function that a variable holds.
pub open spec fn ts_runs(d: TreeView, m: TreeView, key: Seq<char>) -> bool {
    ||| ts_is_function(d, key) && m == d
    ||| exists|class: Seq<char>, name: Seq<char>| #[trigger]
        ts_is_method(d, m, class, name) && key == class + "."@ + name
    ||| exists|v: TreeView| #[trigger] ts_is_function_variable(d, v, m, key)
}

proof fn lemma_unheard(n: Seq<char>)
    ensures
        typescript_indexer::ts_quiet(n) <==> ts_unheard().contains(n),
{
    let s = ts_unheard();
    assert(s[0] == "console"@ && s[1] == "log"@ && s[2] == "warn"@ && s[3] == "error"@ && s[4] == "info"@
        && s[5] == "debug"@ && s[6] == "require"@ && s[7] == "parseInt"@ && s[8] == "parseFloat"@ && s[9]
        == "isNaN"@ && s[10] == "setTimeout"@ && s[11] == "setInterval"@);
}

proof fn lemma_native(n: Seq<char>)
    ensures
        typescript_indexer::ts_builtin(n) <==> ts_native().contains(n),
{
    let s = ts_native();
    assert(s[0] == "void"@ && s[1] == "string"@ && s[2] == "number"@ && s[3] == "boolean"@ && s[4] == "any"@
        && s[5] == "unknown"@ && s[6] == "never"@ && s[7] == "undefined"@ && s[8] == "null"@ && s[9]
        == "symbol"@ && s[10] == "bigint"@ && s[11] == "object"@);
}

proof fn lemma_declared_kinds(k: Seq<char>)
    ensures
        typescript_indexer::ts_declares(k) <==> ts_declared_kinds().contains(k),
{
    let s = ts_declared_kinds();
    assert(s[0] == "function_declaration"@ && s[1] == "generator_function_declaration"@ && s[2]
        == "class_declaration"@ && s[3] == "abstract_class_declaration"@ && s[4]
        == "interface_declaration"@ && s[5] == "type_alias_declaration"@ && s[6] == "enum_declaration"@
        && s[7] == "lexical_declaration"@ && s[8] == "variable_declaration"@);
}

/// The kinds of the nodes that call something, or stand for a component, differ.
proof fn lemma_call_kinds()
    ensures
        "call_expression"@ != "new_expression"@,
        "call_expression"@ != "jsx_self_closing_element"@,
        "call_expression"@ != "jsx_opening_element"@,
        "new_expression"@ != "jsx_self_closing_element"@,
        "new_expression"@ != "jsx_opening_element"@,
{
    reveal_strlit("call_expression");
    reveal_strlit("new_expression");
    reveal_strlit("jsx_self_closing_element");
    reveal_strlit("jsx_opening_element");
    assert("call_expression"@.len() == 15);
    assert("new_expression"@.len() == 14);
    assert("jsx_self_closing_element"@.len() == 24);
    assert("jsx_opening_element"@.len() == 19);
}

proof fn lemma_own_call(n: TreeView, caller: Seq<char>, c: CallView)
    ensures
        typescript_indexer::ts_own_calls(n, caller).contains(FactView::Call(c)) <==> c.caller == caller && ts_call(
            n,
            c.callee,
        ) && c.span == n.span,
{
    lemma_call_kinds();
    lemma_unheard(tree_laws::end_of_chain(c.callee));
    if n.kind == "call_expression"@ || n.kind == "new_expression"@ {
        let field = if n.kind == "call_expression"@ {
            "function"@
        } else {
            "constructor"@
        };
        if let Some(f) = syntax::field_of(n, field) {
            law_typescript_chain(f, c.callee);
            if let Some(r) = typescript_indexer::ts_receiver(f) {
                law_typescript_chain(f, r);
                tree_laws::lemma_one(
                    FactView::Call(CallView { caller, callee: r, span: n.span }),
                    FactView::Call(c),
                );
            }
        }
    } else if let Some(m) = syntax::field_of(n, "name"@) {
        tree_laws::lemma_one(
            FactView::Use(UseView { owner: caller, type_ref: m.text, span: m.span }),
            FactView::Call(c),
        );
    }
}

proof fn lemma_own_element(n: TreeView, caller: Seq<char>, u: UseView)
    ensures
        typescript_indexer::ts_own_calls(n, caller).contains(FactView::Use(u)) <==> u.owner == caller && (
        exists|at: TreeView| #[trigger] ts_element(n, at) && u.type_ref == at.text && u.span == at.span),
{
    lemma_call_kinds();
    if n.kind == "call_expression"@ || n.kind == "new_expression"@ {
        let field = if n.kind == "call_expression"@ {
            "function"@
        } else {
            "constructor"@
        };
        if let Some(f) = syntax::field_of(n, field) {
            if let Some(r) = typescript_indexer::ts_receiver(f) {
                tree_laws::lemma_one(
                    FactView::Call(CallView { caller, callee: r, span: n.span }),
                    FactView::Use(u),
                );
            }
        }
    } else if let Some(m) = syntax::field_of(n, "name"@) {
        tree_laws::lemma_one(
            FactView::Use(UseView { owner: caller, type_ref: m.text, span: m.span }),
            FactView::Use(u),
        );
        if ts_element(n, m) && u.owner == caller && u.type_ref == m.text && u.span == m.span {
            assert(typescript_indexer::ts_own_calls(n, caller).contains(FactView::Use(u)));
        }
    }
}

/// What the calls of a node hold: calls, and uses of components.
proof fn lemma_calls_hold(b: TreeView, caller: Seq<char>, x: FactView)
    ensures
        typescript_indexer::ts_calls(b, caller).contains(x) <==> match x {
            FactView::Call(c) => c.caller == caller && ts_calls_in(b, c.callee, c.span),
            FactView::Use(u) => u.owner == caller && ts_element_in(b, u.type_ref, u.span),
            _ => false,
        },
{
    let own = |n: TreeView| typescript_indexer::ts_own_calls(n, caller);
    lemma_ts_calls(b, caller, x);
    if tree_laws::found(b, own, x) {
        let n = choose|n: TreeView| #[trigger] tree_laws::within(b, n) && own(n).contains(x);
        assert(x is Call || x is Use);
        if let FactView::Call(c) = x {
            lemma_own_call(n, caller, c);
        }
        if let FactView::Use(u) = x {
            lemma_own_element(n, caller, u);
            let at = choose|at: TreeView| #[trigger]
                ts_element(n, at) && u.type_ref == at.text && u.span == at.span;
            assert(tree_laws::within(b, n) && ts_element(n, at));
        }
    }
    if let FactView::Call(c) = x {
        if c.caller == caller && ts_calls_in(b, c.callee, c.span) {
            let n = choose|n: TreeView| #[trigger]
                tree_laws::within(b, n) && ts_call(n, c.callee) && c.span == n.span;
            lemma_own_call(n, caller, c);
            assert(tree_laws::within(b, n) && own(n).contains(x));
        }
    }
    if let FactView::Use(u) = x {
        if u.owner == caller && ts_element_in(b, u.type_ref, u.span) {
            let (n, at) = choose|n: TreeView, at: TreeView| #[trigger]
                tree_laws::within(b, n) && #[trigger] ts_element(n, at) && u.type_ref == at.text && u.span
                    == at.span;
            lemma_own_element(n, caller, u);
            assert(tree_laws::within(b, n) && own(n).contains(x));
        }
    }
}

proof fn lemma_type_use(at: TreeView, owner: Seq<char>, x: FactView)
    ensures
        typescript_indexer::ts_type_use(at, owner).contains(x) <==> match x {
            FactView::Use(u) => u.owner == owner && typescript_indexer::ts_type_name(at) == Some(u.type_ref)
                && !ts_native().contains(u.type_ref) && u.span == at.span,
            _ => false,
        },
{
    if let Some(n) = typescript_indexer::ts_type_name(at) {
        lemma_native(n);
        tree_laws::lemma_one(FactView::Use(UseView { owner, type_ref: n, span: at.span }), x);
    }
}

proof fn lemma_own_types(n: TreeView, owner: Seq<char>, x: FactView)
    ensures
        typescript_indexer::ts_own_types(n, owner).contains(x) <==> match x {
            FactView::Use(u) => u.owner == owner && exists|at: TreeView| #[trigger]
                ts_states(n, at, u.type_ref) && u.span == at.span,
            _ => false,
        },
{
    reveal_strlit("type_annotation");
    reveal_strlit("type_identifier");
    reveal_strlit("generic_type");
    reveal_strlit("type_reference");
    assert("type_annotation"@.len() == 15 && "type_identifier"@.len() == 15);
    assert("type_annotation"@[5] == 'a' && "type_identifier"@[5] == 'i');
    assert("generic_type"@.len() == 12);
    assert("type_reference"@.len() == 14);
    if n.kind == "type_annotation"@ {
        let f = |c: TreeView| typescript_indexer::ts_type_use(c, owner);
        lemma_ts_type_uses(n.children, owner, x);
        if tree_laws::given(n.children, f, x) {
            let at = choose|at: TreeView| #[trigger]
                n.children.contains(at) && at.named && f(at).contains(x);
            lemma_type_use(at, owner, x);
            assert(ts_states(n, at, x->Use_0.type_ref));
        }
        if let FactView::Use(u) = x {
            if u.owner == owner && exists|at: TreeView| #[trigger]
                ts_states(n, at, u.type_ref) && u.span == at.span {
                let at = choose|at: TreeView| #[trigger] ts_states(n, at, u.type_ref) && u.span == at.span;
                lemma_type_use(at, owner, x);
                assert(n.children.contains(at) && at.named && f(at).contains(x));
            }
        }
    } else {
        lemma_type_use(n, owner, x);
        if let FactView::Use(u) = x {
            if typescript_indexer::ts_own_types(n, owner).contains(x) {
                assert(ts_states(n, n, u.type_ref));
            }
        }
    }
}

proof fn lemma_types_at(t: TreeView, field: Seq<char>, owner: Seq<char>, x: FactView)
    ensures
        typescript_indexer::ts_types_at(t, field, owner).contains(x) <==> match x {
            FactView::Use(u) => u.owner == owner && ts_states_at(t, field, u.type_ref, u.span),
            _ => false,
        },
{
    if let Some(p) = syntax::field_of(t, field) {
        let own = |n: TreeView| typescript_indexer::ts_own_types(n, owner);
        lemma_ts_types(p, owner, x);
        if tree_laws::found(p, own, x) {
            let n = choose|n: TreeView| #[trigger] tree_laws::within(p, n) && own(n).contains(x);
            lemma_own_types(n, owner, x);
            let u = x->Use_0;
            let at = choose|at: TreeView| #[trigger] ts_states(n, at, u.type_ref) && u.span == at.span;
            assert(tree_laws::within(p, n) && ts_states(n, at, u.type_ref));
        }
        if let FactView::Use(u) = x {
            if u.owner == owner && ts_states_at(t, field, u.type_ref, u.span) {
                let (n, at) = choose|n: TreeView, at: TreeView| #[trigger]
                    tree_laws::within(p, n) && #[trigger] ts_states(n, at, u.type_ref) && u.span == at.span;
                lemma_own_types(n, owner, x);
                assert(tree_laws::within(p, n) && own(n).contains(x));
            }
        }
    }
}

/// What a function's node tells: the types of its parameters and of its result, and what its body calls.
pub open spec fn ts_tells(m: TreeView, key: Seq<char>, x: FactView) -> bool {
    match x {
        FactView::Call(c) => c.caller == key && (match syntax::field_of(m, "body"@) {
            Some(b) => ts_calls_in(b, c.callee, c.span),
            None => false,
        }),
        FactView::Use(u) => u.owner == key && {
            ||| ts_states_at(m, "parameters"@, u.type_ref, u.span)
            ||| ts_states_at(m, "return_type"@, u.type_ref, u.span)
            ||| match syntax::field_of(m, "body"@) {
                Some(b) => ts_element_in(b, u.type_ref, u.span),
                None => false,
            }
        },
        _ => false,
    }
}

proof fn lemma_callable(m: TreeView, key: Seq<char>, x: FactView)
    ensures
        typescript_indexer::ts_callable(m, key).contains(x) <==> ts_tells(m, key, x),
{
    let a = typescript_indexer::ts_types_at(m, "parameters"@, key);
    let b = typescript_indexer::ts_types_at(m, "return_type"@, key);
    let c = typescript_indexer::ts_calls_at(m, "body"@, key);
    tree_laws::lemma_both(a + b, c, x);
    tree_laws::lemma_both(a, b, x);
    lemma_types_at(m, "parameters"@, key, x);
    lemma_types_at(m, "return_type"@, key, x);
    if let Some(body) = syntax::field_of(m, "body"@) {
        lemma_calls_hold(body, key, x);
    }
}

/// A node sets a field of `this` to a value that a call makes, and the name that the call starts with.
pub open spec fn ts_sets(n: TreeView, field: Seq<char>, made: Seq<char>) -> bool {
    &&& n.kind == "assignment_expression"@
    &&& match syntax::field_of(n, "left"@) {
        Some(l) => l.kind == "member_expression"@ && (match (
            syntax::field_of(l, "object"@),
            syntax::field_of(l, "property"@),
        ) {
            (Some(o), Some(p)) => o.kind == "this"@ && field.len() > 0 && text::trimmed(p.text) == field,
            _ => false,
        }),
        None => false,
    }
    &&& match syntax::field_of(n, "right"@) {
        Some(r) => ts_makes(r, made),
        None => false,
    }
    &&& made != "this"@ && made != "self"@
}

/// A node calls something or makes a value, and the name that the chain starts with.
pub open spec fn ts_makes(r: TreeView, made: Seq<char>) -> bool {
    exists|f: TreeView, q: ReceiverView| #[trigger]
        ts_chain(f, q) && made == tree_laws::start_of_chain(q) && {
            ||| r.kind == "new_expression"@ && syntax::field_of(r, "constructor"@) == Some(f)
            ||| r.kind == "call_expression"@ && syntax::field_of(r, "function"@) == Some(f)
        }
}

proof fn lemma_makes(r: TreeView, made: Seq<char>)
    ensures
        typescript_indexer::ts_made_by(r) == Some(made) <==> ts_makes(r, made),
{
    lemma_call_kinds();
    let field = if r.kind == "new_expression"@ {
        "constructor"@
    } else {
        "function"@
    };
    if let Some(f) = syntax::field_of(r, field) {
        if let Some(q) = typescript_indexer::ts_receiver(f) {
            law_typescript_chain(f, q);
            tree_laws::law_chain_ends(q);
        }
    }
    if ts_makes(r, made) {
        let (f, q) = choose|f: TreeView, q: ReceiverView| #[trigger]
            ts_chain(f, q) && made == tree_laws::start_of_chain(q) && {
                ||| r.kind == "new_expression"@ && syntax::field_of(r, "constructor"@) == Some(f)
                ||| r.kind == "call_expression"@ && syntax::field_of(r, "function"@) == Some(f)
            };
        law_typescript_chain(f, q);
        tree_laws::law_chain_ends(q);
    }
}

proof fn lemma_own_fields(n: TreeView, class: Seq<char>, x: FactView)
    ensures
        typescript_indexer::ts_own_fields(n, class).contains(x) <==> match x {
            FactView::Field { class: c, field, type_ref } => c == class && ts_sets(n, field, type_ref),
            _ => false,
        },
{
    if let (Some(l), Some(r)) = (syntax::field_of(n, "left"@), syntax::field_of(n, "right"@)) {
        if let Some(made) = typescript_indexer::ts_made_by(r) {
            lemma_makes(r, made);
        }
        if let FactView::Field { class: c, field, type_ref } = x {
            lemma_makes(r, type_ref);
        }
        if let (Some(field), Some(type_ref)) = (
            typescript_indexer::ts_this_field(l),
            typescript_indexer::ts_made_by(r),
        ) {
            tree_laws::lemma_one(FactView::Field { class, field, type_ref }, x);
        }
    }
}

/// A field is set inside the body of a method.
pub open spec fn ts_sets_in(m: TreeView, field: Seq<char>, made: Seq<char>) -> bool {
    match syntax::field_of(m, "body"@) {
        Some(b) => exists|n: TreeView| #[trigger] tree_laws::within(b, n) && ts_sets(n, field, made),
        None => false,
    }
}

proof fn lemma_fields_at(m: TreeView, class: Seq<char>, x: FactView)
    ensures
        typescript_indexer::ts_fields_at(m, "body"@, class).contains(x) <==> match x {
            FactView::Field { class: c, field, type_ref } => c == class && ts_sets_in(m, field, type_ref),
            _ => false,
        },
{
    if let Some(b) = syntax::field_of(m, "body"@) {
        let own = |n: TreeView| typescript_indexer::ts_own_fields(n, class);
        lemma_ts_fields(b, class, x);
        if tree_laws::found(b, own, x) {
            let n = choose|n: TreeView| #[trigger] tree_laws::within(b, n) && own(n).contains(x);
            lemma_own_fields(n, class, x);
        }
        if let FactView::Field { class: c, field, type_ref } = x {
            if c == class && ts_sets_in(m, field, type_ref) {
                let n = choose|n: TreeView| #[trigger]
                    tree_laws::within(b, n) && ts_sets(n, field, type_ref);
                lemma_own_fields(n, class, x);
                assert(tree_laws::within(b, n) && own(n).contains(x));
            }
        }
    }
}

/// What a method tells: itself, what its node tells, and the fields that its body sets.
pub open spec fn ts_method_tells(
    m: TreeView,
    path: Seq<char>,
    class: Seq<char>,
    name: Seq<char>,
    x: FactView,
) -> bool {
    let key = class + "."@ + name;
    match x {
        FactView::Symbol(s) => tree_laws::stands_for(s, path, key, NodeKind::Function, m.span),
        FactView::Field { class: c, field, type_ref } => c == class && ts_sets_in(m, field, type_ref),
        _ => ts_tells(m, key, x),
    }
}

proof fn lemma_member(d: TreeView, m: TreeView, path: Seq<char>, class: Seq<char>, x: FactView)
    requires
        ts_is_class(d, class),
        match syntax::field_of(d, "body"@) {
            Some(b) => tree_laws::child_of(b, m),
            None => false,
        },
    ensures
        typescript_indexer::ts_member(m, path, class).contains(x) <==> exists|name: Seq<char>| #[trigger]
            ts_is_method(d, m, class, name) && ts_method_tells(m, path, class, name, x),
{
    let name = syntax::field_text(m, "name"@);
    let key = class + "."@ + name;
    if ts_is_method(d, m, class, name) {
        let s = FactView::Symbol(file_index::symbol_at(path, key, NodeKind::Function, m.span));
        let a = seq![s];
        let b = typescript_indexer::ts_callable(m, key);
        let c = typescript_indexer::ts_fields_at(m, "body"@, class);
        tree_laws::lemma_both(a + b, c, x);
        tree_laws::lemma_both(a, b, x);
        tree_laws::lemma_one(s, x);
        lemma_callable(m, key, x);
        lemma_fields_at(m, class, x);
        if let FactView::Symbol(q) = x {
            if tree_laws::stands_for(q, path, key, NodeKind::Function, m.span) {
                assert(q =~= s->Symbol_0);
            }
        }
    }
}

/// A node names a base.
pub open spec fn ts_names_base(at: TreeView, e: ExtendsView, class: Seq<char>) -> bool {
    e.class == class && typescript_indexer::ts_type_name(at) == Some(e.base) && e.span == at.span
}

proof fn lemma_base(at: TreeView, class: Seq<char>, x: FactView)
    ensures
        typescript_indexer::ts_base(at, class).contains(x) <==> match x {
            FactView::Extends(e) => ts_names_base(at, e, class) && e.base != "object"@,
            _ => false,
        },
        typescript_indexer::ts_parent(at, class).contains(x) <==> match x {
            FactView::Extends(e) => ts_names_base(at, e, class),
            _ => false,
        },
{
    if let Some(base) = typescript_indexer::ts_type_name(at) {
        tree_laws::lemma_one(FactView::Extends(ExtendsView { class, base, span: at.span }), x);
    }
}

/// A child of the heritage of a class, or of a clause of the heritage, names a base.
pub open spec fn ts_heritage_names(h: TreeView, at: TreeView) -> bool {
    exists|k: TreeView| #[trigger]
        tree_laws::child_of(h, k) && {
            ||| (k.kind == "extends_clause"@ || k.kind == "implements_clause"@) && tree_laws::child_of(k, at)
            ||| k.kind != "extends_clause"@ && k.kind != "implements_clause"@ && at == k
        }
}

proof fn lemma_header(h: TreeView, class: Seq<char>, x: FactView)
    ensures
        typescript_indexer::ts_header(h, class).contains(x) <==> match x {
            FactView::Extends(e) => exists|at: TreeView| #[trigger]
                ts_heritage_names(h, at) && ts_names_base(at, e, class) && e.base != "object"@,
            _ => false,
        },
{
    let f = |c: TreeView| typescript_indexer::ts_heritage(c, class);
    let g = |c: TreeView| typescript_indexer::ts_base(c, class);
    lemma_ts_heritages(h.children, class, x);
    if tree_laws::given(h.children, f, x) {
        let k = choose|k: TreeView| #[trigger] h.children.contains(k) && k.named && f(k).contains(x);
        lemma_ts_bases(k.children, class, x);
        lemma_base(k, class, x);
        assert(tree_laws::child_of(h, k));
        if k.kind == "extends_clause"@ || k.kind == "implements_clause"@ {
            let at = choose|at: TreeView| #[trigger] k.children.contains(at) && at.named && g(at).contains(x);
            lemma_base(at, class, x);
            assert(tree_laws::child_of(k, at));
            assert(ts_heritage_names(h, at));
        } else {
            assert(ts_heritage_names(h, k));
        }
    }
    if let FactView::Extends(e) = x {
        if exists|at: TreeView| #[trigger]
            ts_heritage_names(h, at) && ts_names_base(at, e, class) && e.base != "object"@ {
            let at = choose|at: TreeView| #[trigger]
                ts_heritage_names(h, at) && ts_names_base(at, e, class) && e.base != "object"@;
            let k = choose|k: TreeView| #[trigger]
                tree_laws::child_of(h, k) && {
                    ||| (k.kind == "extends_clause"@ || k.kind == "implements_clause"@) && tree_laws::child_of(
                        k,
                        at,
                    )
                    ||| k.kind != "extends_clause"@ && k.kind != "implements_clause"@ && at == k
                };
            lemma_base(at, class, x);
            lemma_ts_bases(k.children, class, x);
            if k.kind == "extends_clause"@ || k.kind == "implements_clause"@ {
                assert(k.children.contains(at) && at.named && g(at).contains(x));
                assert(tree_laws::given(k.children, g, x));
            }
            assert(h.children.contains(k) && k.named && f(k).contains(x));
        }
    }
}

/// A class has a base that is named in its heritage, or an interface one that is named in its clauses.
pub open spec fn ts_has_base(d: TreeView, class: Seq<char>, at: TreeView, e: ExtendsView) -> bool {
    &&& ts_names_base(at, e, class)
    &&& {
        ||| ts_is_class(d, class) && e.base != "object"@ && exists|h: TreeView| #[trigger]
            tree_laws::child_of(d, h) && h.kind == "class_heritage"@ && ts_heritage_names(h, at)
        ||| ts_is_type(d, class) && d.kind == "interface_declaration"@ && exists|k: TreeView| #[trigger]
            tree_laws::child_of(d, k) && (k.kind == "extends_type_clause"@ || k.kind == "extends_clause"@)
                && tree_laws::child_of(k, at)
    }
}

/// `d` declares a type that is no class.
pub open spec fn ts_is_type(d: TreeView, key: Seq<char>) -> bool {
    &&& d.kind == "interface_declaration"@ || d.kind == "type_alias_declaration"@ || d.kind
        == "enum_declaration"@
    &&& key.len() > 0 && syntax::field_text(d, "name"@) == key
}

proof fn lemma_headers(d: TreeView, class: Seq<char>, x: FactView)
    requires
        ts_is_class(d, class),
    ensures
        typescript_indexer::ts_headers(d.children, class).contains(x) <==> match x {
            FactView::Extends(e) => exists|at: TreeView| #[trigger] ts_has_base(d, class, at, e),
            _ => false,
        },
{
    lemma_kinds();
    let f = |c: TreeView|
        if c.kind == "class_heritage"@ {
            typescript_indexer::ts_header(c, class)
        } else {
            Seq::empty()
        };
    lemma_ts_headers(d.children, class, x);
    if tree_laws::given(d.children, f, x) {
        let h = choose|h: TreeView| #[trigger] d.children.contains(h) && h.named && f(h).contains(x);
        lemma_header(h, class, x);
        assert(tree_laws::child_of(d, h));
        let e = x->Extends_0;
        let at = choose|at: TreeView| #[trigger]
            ts_heritage_names(h, at) && ts_names_base(at, e, class) && e.base != "object"@;
        assert(ts_has_base(d, class, at, e));
    }
    if let FactView::Extends(e) = x {
        if exists|at: TreeView| #[trigger] ts_has_base(d, class, at, e) {
            let at = choose|at: TreeView| #[trigger] ts_has_base(d, class, at, e);
            let h = choose|h: TreeView| #[trigger]
                tree_laws::child_of(d, h) && h.kind == "class_heritage"@ && ts_heritage_names(h, at);
            lemma_header(h, class, x);
            assert(d.children.contains(h) && h.named && f(h).contains(x));
        }
    }
}

proof fn lemma_clauses(d: TreeView, class: Seq<char>, x: FactView)
    requires
        ts_is_type(d, class),
        d.kind == "interface_declaration"@,
    ensures
        typescript_indexer::ts_clauses(d.children, class).contains(x) <==> match x {
            FactView::Extends(e) => exists|at: TreeView| #[trigger] ts_has_base(d, class, at, e),
            _ => false,
        },
{
    lemma_kinds();
    let f = |c: TreeView|
        if c.kind == "extends_type_clause"@ || c.kind == "extends_clause"@ {
            typescript_indexer::ts_clause(c, class)
        } else {
            Seq::empty()
        };
    let g = |c: TreeView| typescript_indexer::ts_parent(c, class);
    lemma_ts_clauses(d.children, class, x);
    if tree_laws::given(d.children, f, x) {
        let k = choose|k: TreeView| #[trigger] d.children.contains(k) && k.named && f(k).contains(x);
        lemma_ts_parents(k.children, class, x);
        let at = choose|at: TreeView| #[trigger] k.children.contains(at) && at.named && g(at).contains(x);
        lemma_base(at, class, x);
        assert(tree_laws::child_of(d, k));
        assert(tree_laws::child_of(k, at));
        assert(ts_has_base(d, class, at, x->Extends_0));
    }
    if let FactView::Extends(e) = x {
        if exists|at: TreeView| #[trigger] ts_has_base(d, class, at, e) {
            let at = choose|at: TreeView| #[trigger] ts_has_base(d, class, at, e);
            let k = choose|k: TreeView| #[trigger]
                tree_laws::child_of(d, k) && (k.kind == "extends_type_clause"@ || k.kind == "extends_clause"@)
                    && tree_laws::child_of(k, at);
            lemma_base(at, class, x);
            lemma_ts_parents(k.children, class, x);
            assert(k.children.contains(at) && at.named && g(at).contains(x));
            assert(tree_laws::given(k.children, g, x));
            assert(d.children.contains(k) && k.named && f(k).contains(x));
        }
    }
}

/// The kinds of declarations differ.
proof fn lemma_kinds()
    ensures
        "function_declaration"@.len() == 20,
        "generator_function_declaration"@.len() == 30,
        "class_declaration"@.len() == 17,
        "abstract_class_declaration"@.len() == 26,
        "interface_declaration"@.len() == 21,
        "type_alias_declaration"@.len() == 22,
        "enum_declaration"@.len() == 16,
        "lexical_declaration"@.len() == 19,
        "variable_declaration"@.len() == 20,
        "variable_declaration"@[0] == 'v',
        "function_declaration"@[0] == 'f',
{
    reveal_strlit("function_declaration");
    reveal_strlit("generator_function_declaration");
    reveal_strlit("class_declaration");
    reveal_strlit("abstract_class_declaration");
    reveal_strlit("interface_declaration");
    reveal_strlit("type_alias_declaration");
    reveal_strlit("enum_declaration");
    reveal_strlit("lexical_declaration");
    reveal_strlit("variable_declaration");
}

/// What a class tells: itself, its bases, the types of its parameters, and what its methods tell.
pub open spec fn ts_class_tells(d: TreeView, path: Seq<char>, class: Seq<char>, x: FactView) -> bool {
    ||| match x {
        FactView::Symbol(s) => tree_laws::stands_for(s, path, class, NodeKind::Class, d.span),
        FactView::Extends(e) => exists|at: TreeView| #[trigger] ts_has_base(d, class, at, e),
        FactView::Use(u) => u.owner == class && ts_states_at(d, "type_parameters"@, u.type_ref, u.span),
        _ => false,
    }
    ||| exists|m: TreeView, name: Seq<char>| #[trigger]
        ts_is_method(d, m, class, name) && ts_method_tells(m, path, class, name, x)
}

proof fn lemma_class(d: TreeView, path: Seq<char>, x: FactView)
    requires
        d.kind == "class_declaration"@ || d.kind == "abstract_class_declaration"@,
    ensures
        typescript_indexer::ts_class(d, path).contains(x) <==> exists|class: Seq<char>| #[trigger]
            ts_is_class(d, class) && ts_class_tells(d, path, class, x),
{
    let class = syntax::field_text(d, "name"@);
    if class.len() > 0 {
        let s = FactView::Symbol(file_index::symbol_at(path, class, NodeKind::Class, d.span));
        let a = seq![s];
        let b = typescript_indexer::ts_headers(d.children, class);
        let c = typescript_indexer::ts_types_at(d, "type_parameters"@, class);
        let e = match syntax::field_of(d, "body"@) {
            Some(b) => typescript_indexer::ts_members(b.children, path, class),
            None => Seq::empty(),
        };
        assert(ts_is_class(d, class));
        tree_laws::lemma_both(a + b + c, e, x);
        tree_laws::lemma_both(a + b, c, x);
        tree_laws::lemma_both(a, b, x);
        tree_laws::lemma_one(s, x);
        lemma_headers(d, class, x);
        lemma_types_at(d, "type_parameters"@, class, x);
        lemma_class_members(d, path, class, x);
        if let FactView::Symbol(q) = x {
            if tree_laws::stands_for(q, path, class, NodeKind::Class, d.span) {
                assert(q =~= s->Symbol_0);
            }
        }
    }
}

proof fn lemma_class_members(d: TreeView, path: Seq<char>, class: Seq<char>, x: FactView)
    requires
        ts_is_class(d, class),
    ensures
        (match syntax::field_of(d, "body"@) {
            Some(b) => typescript_indexer::ts_members(b.children, path, class),
            None => Seq::empty(),
        }).contains(x) <==> exists|m: TreeView, name: Seq<char>| #[trigger]
            ts_is_method(d, m, class, name) && ts_method_tells(m, path, class, name, x),
{
    if let Some(b) = syntax::field_of(d, "body"@) {
        let f = |c: TreeView| typescript_indexer::ts_member(c, path, class);
        lemma_ts_members(b.children, path, class, x);
        if tree_laws::given(b.children, f, x) {
            let m = choose|m: TreeView| #[trigger] b.children.contains(m) && m.named && f(m).contains(x);
            assert(tree_laws::child_of(b, m));
            lemma_member(d, m, path, class, x);
        }
        if exists|m: TreeView, name: Seq<char>| #[trigger]
            ts_is_method(d, m, class, name) && ts_method_tells(m, path, class, name, x) {
            let (m, name) = choose|m: TreeView, name: Seq<char>| #[trigger]
                ts_is_method(d, m, class, name) && ts_method_tells(m, path, class, name, x);
            lemma_member(d, m, path, class, x);
            assert(b.children.contains(m) && m.named && f(m).contains(x));
        }
    }
}

/// What another type tells: itself, the bases of an interface, and the types that an alias stands for.
pub open spec fn ts_type_tells(d: TreeView, path: Seq<char>, key: Seq<char>, x: FactView) -> bool {
    match x {
        FactView::Symbol(s) => tree_laws::stands_for(s, path, key, NodeKind::Class, d.span),
        FactView::Extends(e) => exists|at: TreeView| #[trigger] ts_has_base(d, key, at, e),
        FactView::Use(u) => d.kind == "type_alias_declaration"@ && u.owner == key && ts_states_at(
            d,
            "value"@,
            u.type_ref,
            u.span,
        ),
        _ => false,
    }
}

proof fn lemma_named_type(d: TreeView, path: Seq<char>, x: FactView)
    requires
        d.kind == "interface_declaration"@ || d.kind == "type_alias_declaration"@ || d.kind
            == "enum_declaration"@,
    ensures
        typescript_indexer::ts_named_type(d, path).contains(x) <==> exists|key: Seq<char>| #[trigger]
            ts_is_type(d, key) && ts_type_tells(d, path, key, x),
{
    lemma_kinds();
    let key = syntax::field_text(d, "name"@);
    if key.len() > 0 {
        let s = FactView::Symbol(file_index::symbol_at(path, key, NodeKind::Class, d.span));
        let rest = if d.kind == "interface_declaration"@ {
            typescript_indexer::ts_clauses(d.children, key)
        } else if d.kind == "type_alias_declaration"@ {
            typescript_indexer::ts_types_at(d, "value"@, key)
        } else {
            Seq::empty()
        };
        assert(ts_is_type(d, key));
        tree_laws::lemma_both(seq![s], rest, x);
        tree_laws::lemma_one(s, x);
        if d.kind == "interface_declaration"@ {
            lemma_clauses(d, key, x);
        } else {
            lemma_types_at(d, "value"@, key, x);
            if let FactView::Extends(e) = x {
                assert forall|at: TreeView| !(#[trigger] ts_has_base(d, key, at, e)) by {}
            }
        }
        if let FactView::Symbol(q) = x {
            if tree_laws::stands_for(q, path, key, NodeKind::Class, d.span) {
                assert(q =~= s->Symbol_0);
            }
        }
    }
}

/// Whose the stated type of a variable is: that of the function that the variable holds, or the file's.
pub open spec fn ts_type_owner(v: TreeView) -> Seq<char> {
    match syntax::field_of(v, "name"@) {
        Some(n) => if ts_holds_function(v) {
            n.text
        } else {
            "$file"@
        },
        None => "$file"@,
    }
}

/// What a variable tells: the function that it holds and what that tells, and its stated type.
pub open spec fn ts_variable_tells(d: TreeView, v: TreeView, path: Seq<char>, x: FactView) -> bool {
    ||| exists|f: TreeView, key: Seq<char>| #[trigger]
        ts_is_function_variable(d, v, f, key) && {
            ||| ts_tells(f, key, x)
            ||| x is Symbol && tree_laws::stands_for(x->Symbol_0, path, key, NodeKind::Function, v.span)
        }
    ||| match x {
        FactView::Use(u) => u.owner == ts_type_owner(v) && ts_states_at(v, "type"@, u.type_ref, u.span),
        _ => false,
    }
}

proof fn lemma_variable(d: TreeView, v: TreeView, path: Seq<char>, x: FactView)
    requires
        ts_is_variable(d, v),
    ensures
        typescript_indexer::ts_variable(v, path).contains(x) <==> ts_variable_tells(d, v, path, x),
{
    let own = match (syntax::field_of(v, "name"@), syntax::field_of(v, "value"@)) {
        (Some(n), Some(f)) => if n.kind == "identifier"@ && typescript_indexer::ts_function_at(v) {
            seq![FactView::Symbol(file_index::symbol_at(path, n.text, NodeKind::Function, v.span))]
                + typescript_indexer::ts_callable(f, n.text)
        } else {
            Seq::empty()
        },
        _ => Seq::empty(),
    };
    assert(typescript_indexer::ts_function_at(v) == ts_holds_function(v));
    tree_laws::lemma_both(own, typescript_indexer::ts_types_at(v, "type"@, ts_type_owner(v)), x);
    lemma_types_at(v, "type"@, ts_type_owner(v), x);
    if let (Some(n), Some(f)) = (syntax::field_of(v, "name"@), syntax::field_of(v, "value"@)) {
        if n.kind == "identifier"@ && ts_holds_function(v) {
            let s = FactView::Symbol(file_index::symbol_at(path, n.text, NodeKind::Function, v.span));
            assert(ts_is_function_variable(d, v, f, n.text));
            tree_laws::lemma_both(seq![s], typescript_indexer::ts_callable(f, n.text), x);
            tree_laws::lemma_one(s, x);
            lemma_callable(f, n.text, x);
            if let FactView::Symbol(q) = x {
                if tree_laws::stands_for(q, path, n.text, NodeKind::Function, v.span) {
                    assert(q =~= s->Symbol_0);
                }
            }
        }
    }
}

/// What a declaration tells.
pub open spec fn ts_declaration_tells(d: TreeView, path: Seq<char>, x: FactView) -> bool {
    ||| exists|key: Seq<char>| #[trigger]
        ts_is_function(d, key) && {
            ||| ts_tells(d, key, x)
            ||| x is Symbol && tree_laws::stands_for(x->Symbol_0, path, key, NodeKind::Function, d.span)
        }
    ||| exists|class: Seq<char>| #[trigger] ts_is_class(d, class) && ts_class_tells(d, path, class, x)
    ||| exists|key: Seq<char>| #[trigger] ts_is_type(d, key) && ts_type_tells(d, path, key, x)
    ||| exists|v: TreeView| #[trigger] ts_is_variable(d, v) && ts_variable_tells(d, v, path, x)
}

proof fn lemma_function(d: TreeView, path: Seq<char>, x: FactView)
    requires
        d.kind == "function_declaration"@ || d.kind == "generator_function_declaration"@,
    ensures
        typescript_indexer::ts_function(d, path).contains(x) <==> exists|key: Seq<char>| #[trigger]
            ts_is_function(d, key) && {
                ||| ts_tells(d, key, x)
                ||| x is Symbol && tree_laws::stands_for(
                    x->Symbol_0,
                    path,
                    key,
                    NodeKind::Function,
                    d.span,
                )
            },
{
    let key = syntax::field_text(d, "name"@);
    if key.len() > 0 {
        let s = FactView::Symbol(file_index::symbol_at(path, key, NodeKind::Function, d.span));
        assert(ts_is_function(d, key));
        tree_laws::lemma_both(seq![s], typescript_indexer::ts_callable(d, key), x);
        tree_laws::lemma_one(s, x);
        lemma_callable(d, key, x);
        if let FactView::Symbol(q) = x {
            if tree_laws::stands_for(q, path, key, NodeKind::Function, d.span) {
                assert(q =~= s->Symbol_0);
            }
        }
    }
}

proof fn lemma_variables(d: TreeView, path: Seq<char>, x: FactView)
    requires
        d.kind == "lexical_declaration"@ || d.kind == "variable_declaration"@,
    ensures
        typescript_indexer::ts_variables(d.children, path).contains(x) <==> exists|v: TreeView| #[trigger]
            ts_is_variable(d, v) && ts_variable_tells(d, v, path, x),
{
    let f = |c: TreeView|
        if c.kind == "variable_declarator"@ {
            typescript_indexer::ts_variable(c, path)
        } else {
            Seq::empty()
        };
    lemma_ts_variables(d.children, path, x);
    if tree_laws::given(d.children, f, x) {
        let v = choose|v: TreeView| #[trigger] d.children.contains(v) && v.named && f(v).contains(x);
        assert(ts_is_variable(d, v));
        lemma_variable(d, v, path, x);
    }
    if exists|v: TreeView| #[trigger] ts_is_variable(d, v) && ts_variable_tells(d, v, path, x) {
        let v = choose|v: TreeView| #[trigger] ts_is_variable(d, v) && ts_variable_tells(d, v, path, x);
        lemma_variable(d, v, path, x);
        assert(d.children.contains(v) && v.named && f(v).contains(x));
    }
}

proof fn lemma_declaration(d: TreeView, path: Seq<char>, x: FactView)
    requires
        ts_declared_kinds().contains(d.kind),
    ensures
        typescript_indexer::ts_declaration(d, path).contains(x) <==> ts_declaration_tells(d, path, x),
{
    lemma_kinds();
    lemma_declared_kinds(d.kind);
    if d.kind == "function_declaration"@ || d.kind == "generator_function_declaration"@ {
        lemma_function(d, path, x);
    } else if d.kind == "class_declaration"@ || d.kind == "abstract_class_declaration"@ {
        lemma_class(d, path, x);
    } else if d.kind == "lexical_declaration"@ || d.kind == "variable_declaration"@ {
        lemma_variables(d, path, x);
    } else {
        lemma_named_type(d, path, x);
    }
}

/// A declaration of a tree tells something.
pub open spec fn ts_told_in(t: TreeView, path: Seq<char>, x: FactView) -> bool {
    exists|d: TreeView| #[trigger] ts_declared(t, d) && ts_declaration_tells(d, path, x)
}

proof fn lemma_declared_kind(t: TreeView, d: TreeView)
    requires
        ts_declared(t, d),
    ensures
        ts_declared_kinds().contains(d.kind),
    decreases t,
{
    if !ts_declared_kinds().contains(t.kind) {
        let i = choose|i: int|
            0 <= i < t.children.len() && t.children[i].named && ts_declared(#[trigger] t.children[i], d);
        tree_laws::lemma_child_smaller(t, t.children[i]);
        lemma_declared_kind(t.children[i], d);
    }
}

proof fn lemma_visit(t: TreeView, path: Seq<char>, x: FactView)
    ensures
        typescript_indexer::ts_visit(t, path).contains(x) <==> ts_told_in(t, path, x),
    decreases t,
{
    lemma_declared_kinds(t.kind);
    if ts_declared_kinds().contains(t.kind) {
        lemma_declaration(t, path, x);
        assert(ts_declared(t, t));
    } else {
        let f = |c: TreeView| typescript_indexer::ts_visit(c, path);
        lemma_ts_visit_all(t.children, path, x);
        if tree_laws::given(t.children, f, x) {
            let c = choose|c: TreeView| #[trigger] t.children.contains(c) && c.named && f(c).contains(x);
            tree_laws::lemma_child_smaller(t, c);
            lemma_visit(c, path, x);
            let d = choose|d: TreeView| #[trigger] ts_declared(c, d) && ts_declaration_tells(d, path, x);
            let i = choose|i: int| 0 <= i < t.children.len() && t.children[i] == c;
            assert(t.children[i].named && ts_declared(t.children[i], d));
            assert(ts_declared(t, d));
        }
        if ts_told_in(t, path, x) {
            let d = choose|d: TreeView| #[trigger] ts_declared(t, d) && ts_declaration_tells(d, path, x);
            let i = choose|i: int|
                0 <= i < t.children.len() && t.children[i].named && ts_declared(#[trigger] t.children[i], d);
            let c = t.children[i];
            tree_laws::lemma_child_smaller(t, c);
            lemma_visit(c, path, x);
            assert(t.children.contains(c) && c.named && f(c).contains(x));
        }
    }
}

/// A statement at the top of a file calls something or shows a component; both are the file's.
pub open spec fn ts_top_tells(t: TreeView, x: FactView) -> bool {
    exists|s: TreeView| #[trigger]
        tree_laws::child_of(t, s) && s.kind == "expression_statement"@ && match x {
            FactView::Call(c) => c.caller == "$file"@ && ts_calls_in(s, c.callee, c.span),
            FactView::Use(u) => u.owner == "$file"@ && ts_element_in(s, u.type_ref, u.span),
            _ => false,
        }
}

proof fn lemma_top(t: TreeView, x: FactView)
    ensures
        typescript_indexer::ts_statement_calls(t.children, "$file"@).contains(x) <==> ts_top_tells(t, x),
{
    let f = |c: TreeView|
        if c.kind == "expression_statement"@ {
            typescript_indexer::ts_calls(c, "$file"@)
        } else {
            Seq::empty()
        };
    lemma_ts_statement_calls(t.children, "$file"@, x);
    if tree_laws::given(t.children, f, x) {
        let s = choose|s: TreeView| #[trigger] t.children.contains(s) && s.named && f(s).contains(x);
        lemma_calls_hold(s, "$file"@, x);
        assert(tree_laws::child_of(t, s));
    }
    if ts_top_tells(t, x) {
        let s = choose|s: TreeView| #[trigger]
            tree_laws::child_of(t, s) && s.kind == "expression_statement"@ && match x {
                FactView::Call(c) => c.caller == "$file"@ && ts_calls_in(s, c.callee, c.span),
                FactView::Use(u) => u.owner == "$file"@ && ts_element_in(s, u.type_ref, u.span),
                _ => false,
            };
        lemma_calls_hold(s, "$file"@, x);
        assert(t.children.contains(s) && s.named && f(s).contains(x));
    }
}

/// The facts that a file gives.
spec fn facts_of(path: Seq<char>, content: Seq<char>, t: TreeView) -> Seq<FactView> {
    seq![FactView::Symbol(file_index::file_symbol(path, content))] + typescript_indexer::ts_visit(t, path)
        + typescript_indexer::ts_statement_calls(t.children, "$file"@)
}

proof fn lemma_facts(path: Seq<char>, content: Seq<char>, t: TreeView, x: FactView)
    ensures
        facts_of(path, content, t).contains(x) <==> {
            ||| x == FactView::Symbol(file_index::file_symbol(path, content))
            ||| ts_told_in(t, path, x)
            ||| ts_top_tells(t, x)
        },
{
    let s = FactView::Symbol(file_index::file_symbol(path, content));
    let a = typescript_indexer::ts_visit(t, path);
    let b = typescript_indexer::ts_statement_calls(t.children, "$file"@);
    tree_laws::lemma_both(seq![s] + a, b, x);
    tree_laws::lemma_both(seq![s], a, x);
    tree_laws::lemma_one(s, x);
    lemma_visit(t, path, x);
    lemma_top(t, x);
}

proof fn lemma_running(t: TreeView, d: TreeView, m: TreeView, path: Seq<char>, key: Seq<char>, x: FactView)
    requires
        ts_declared(t, d),
        ts_runs(d, m, key),
        ts_tells(m, key, x),
    ensures
        ts_told_in(t, path, x),
{
    if ts_is_function(d, key) && m == d {
    } else if exists|class: Seq<char>, name: Seq<char>| #[trigger]
        ts_is_method(d, m, class, name) && key == class + "."@ + name {
        let (class, name) = choose|class: Seq<char>, name: Seq<char>| #[trigger]
            ts_is_method(d, m, class, name) && key == class + "."@ + name;
        assert(ts_is_class(d, class));
        assert(ts_method_tells(m, path, class, name, x));
    } else {
        let v = choose|v: TreeView| #[trigger] ts_is_function_variable(d, v, m, key);
        assert(ts_is_variable(d, v));
        assert(ts_variable_tells(d, v, path, x));
    }
    assert(ts_declaration_tells(d, path, x));
}

proof fn lemma_caller_runs(d: TreeView, path: Seq<char>, c: CallView) -> (m: TreeView)
    requires
        ts_declaration_tells(d, path, FactView::Call(c)),
    ensures
        ts_runs(d, m, c.caller),
        ts_tells(m, c.caller, FactView::Call(c)),
{
    let x = FactView::Call(c);
    if exists|key: Seq<char>| #[trigger] ts_is_function(d, key) && ts_tells(d, key, x) {
        d
    } else if exists|class: Seq<char>| #[trigger]
        ts_is_class(d, class) && ts_class_tells(d, path, class, x) {
        let class = choose|class: Seq<char>| #[trigger]
            ts_is_class(d, class) && ts_class_tells(d, path, class, x);
        let (m, name) = choose|m: TreeView, name: Seq<char>| #[trigger]
            ts_is_method(d, m, class, name) && ts_method_tells(m, path, class, name, x);
        m
    } else {
        let v = choose|v: TreeView| #[trigger] ts_is_variable(d, v) && ts_variable_tells(d, v, path, x);
        let (f, key) = choose|f: TreeView, key: Seq<char>| #[trigger]
            ts_is_function_variable(d, v, f, key) && ts_tells(f, key, x);
        f
    }
}

/// What the body of a function, of a method or of a function that a variable holds calls is a call of it
/// in the index, however deep in the body it stands; so is what a statement of the file calls a call of
/// the file. There are no other calls.
pub proof fn law_typescript_calls(path: Seq<char>, content: Seq<char>, t: TreeView, c: CallView)
    ensures
        typescript_indexer::ts_index(path, content, t).calls.contains(c) <==> {
            ||| exists|d: TreeView, m: TreeView, b: TreeView, n: TreeView|
                #![trigger ts_declared(t, d), ts_runs(d, m, c.caller), tree_laws::within(b, n)]
                ts_declared(t, d) && ts_runs(d, m, c.caller) && syntax::field_of(m, "body"@) == Some(b)
                    && tree_laws::within(b, n) && ts_call(n, c.callee) && c.span == n.span
            ||| c.caller == "$file"@ && exists|s: TreeView, n: TreeView|
                #![trigger tree_laws::child_of(t, s), tree_laws::within(s, n)]
                tree_laws::child_of(t, s) && s.kind == "expression_statement"@ && tree_laws::within(s, n)
                    && ts_call(n, c.callee) && c.span == n.span
        },
{
    let x = FactView::Call(c);
    let inside = exists|d: TreeView, m: TreeView, b: TreeView, n: TreeView|
        #![trigger ts_declared(t, d), ts_runs(d, m, c.caller), tree_laws::within(b, n)]
        ts_declared(t, d) && ts_runs(d, m, c.caller) && syntax::field_of(m, "body"@) == Some(b)
            && tree_laws::within(b, n) && ts_call(n, c.callee) && c.span == n.span;
    let top = c.caller == "$file"@ && exists|s: TreeView, n: TreeView|
        #![trigger tree_laws::child_of(t, s), tree_laws::within(s, n)]
        tree_laws::child_of(t, s) && s.kind == "expression_statement"@ && tree_laws::within(s, n) && ts_call(
            n,
            c.callee,
        ) && c.span == n.span;
    tree_laws::law_index_knows_the_facts(facts_of(path, content, t), x);
    lemma_facts(path, content, t, x);
    if inside {
        let (d, m, b, n) = choose|d: TreeView, m: TreeView, b: TreeView, n: TreeView|
            #![trigger ts_declared(t, d), ts_runs(d, m, c.caller), tree_laws::within(b, n)]
            ts_declared(t, d) && ts_runs(d, m, c.caller) && syntax::field_of(m, "body"@) == Some(b)
                && tree_laws::within(b, n) && ts_call(n, c.callee) && c.span == n.span;
        assert(ts_calls_in(b, c.callee, c.span));
        lemma_running(t, d, m, path, c.caller, x);
    }
    if top {
        let (s, n) = choose|s: TreeView, n: TreeView|
            #![trigger tree_laws::child_of(t, s), tree_laws::within(s, n)]
            tree_laws::child_of(t, s) && s.kind == "expression_statement"@ && tree_laws::within(s, n)
                && ts_call(n, c.callee) && c.span == n.span;
        assert(ts_calls_in(s, c.callee, c.span));
        assert(ts_top_tells(t, x));
    }
    if ts_told_in(t, path, x) {
        let d = choose|d: TreeView| #[trigger] ts_declared(t, d) && ts_declaration_tells(d, path, x);
        let m = lemma_caller_runs(d, path, c);
        let b = syntax::field_of(m, "body"@)->0;
        let n = choose|n: TreeView| #[trigger]
            tree_laws::within(b, n) && ts_call(n, c.callee) && c.span == n.span;
        assert(ts_declared(t, d) && ts_runs(d, m, c.caller) && tree_laws::within(b, n));
        assert(inside);
    }
    if ts_top_tells(t, x) {
        let s = choose|s: TreeView| #[trigger]
            tree_laws::child_of(t, s) && s.kind == "expression_statement"@ && c.caller == "$file"@
                && ts_calls_in(s, c.callee, c.span);
        let n = choose|n: TreeView| #[trigger]
            tree_laws::within(s, n) && ts_call(n, c.callee) && c.span == n.span;
        assert(tree_laws::child_of(t, s) && tree_laws::within(s, n));
        assert(top);
    }
}

/// A method of a class in the file: the method is a symbol; each call and each making of a value
/// anywhere in its body is a call of `Class.method` where it stands; each type that its parameters or
/// its result state is a use by `Class.method`; and a field that its body sets has a type.
pub proof fn law_typescript_methods(
    path: Seq<char>,
    content: Seq<char>,
    t: TreeView,
    d: TreeView,
    m: TreeView,
    class: Seq<char>,
    name: Seq<char>,
)
    requires
        ts_declared(t, d),
        ts_is_method(d, m, class, name),
    ensures
        ({
            let x = typescript_indexer::ts_index(path, content, t);
            let key = class + "."@ + name;
            &&& exists|i: int|
                0 <= i < x.symbols.len() && (#[trigger] x.symbols[i]).key == key && x.symbols[i].name == path
                    + "::"@ + key && x.symbols[i].kind == NodeKind::Function && x.symbols[i].span == m.span
            &&& forall|b: TreeView, n: TreeView, r: ReceiverView|
                syntax::field_of(m, "body"@) == Some(b) && #[trigger] tree_laws::within(b, n)
                    && #[trigger] ts_call(n, r) ==> x.calls.contains(
                    CallView { caller: key, callee: r, span: n.span },
                )
            &&& forall|p: TreeView, n: TreeView, at: TreeView, type_ref: Seq<char>|
                (syntax::field_of(m, "parameters"@) == Some(p) || syntax::field_of(m, "return_type"@) == Some(
                    p,
                )) && #[trigger] tree_laws::within(p, n) && #[trigger] ts_states(n, at, type_ref)
                    ==> x.uses.contains(UseView { owner: key, type_ref, span: at.span })
            &&& forall|b: TreeView, n: TreeView, field: Seq<char>, made: Seq<char>|
                syntax::field_of(m, "body"@) == Some(b) && #[trigger] tree_laws::within(b, n)
                    && #[trigger] ts_sets(n, field, made) ==> file_index::first_type(x.fields, class, field)
                    is Some
        }),
{
    let x = typescript_indexer::ts_index(path, content, t);
    let key = class + "."@ + name;
    let facts = facts_of(path, content, t);
    assert(ts_is_class(d, class));
    assert(ts_runs(d, m, key));
    assert forall|f: FactView| ts_method_tells(m, path, class, name, f) implies #[trigger] facts.contains(
        f,
    ) by {
        lemma_facts(path, content, t, f);
        assert(ts_class_tells(d, path, class, f));
        assert(ts_declaration_tells(d, path, f));
        assert(ts_told_in(t, path, f));
    }
    assert forall|b: TreeView, n: TreeView, r: ReceiverView|
        syntax::field_of(m, "body"@) == Some(b) && #[trigger] tree_laws::within(b, n) && #[trigger] ts_call(
            n,
            r,
        ) implies x.calls.contains(CallView { caller: key, callee: r, span: n.span }) by {
        let f = FactView::Call(CallView { caller: key, callee: r, span: n.span });
        assert(ts_calls_in(b, r, n.span));
        assert(facts.contains(f));
        tree_laws::law_index_knows_the_facts(facts, f);
    }
    assert forall|p: TreeView, n: TreeView, at: TreeView, type_ref: Seq<char>|
        (syntax::field_of(m, "parameters"@) == Some(p) || syntax::field_of(m, "return_type"@) == Some(p))
            && #[trigger] tree_laws::within(p, n) && #[trigger] ts_states(n, at, type_ref) implies x.uses.contains(
        UseView { owner: key, type_ref, span: at.span },
    ) by {
        let f = FactView::Use(UseView { owner: key, type_ref, span: at.span });
        assert(ts_states_at(m, "parameters"@, type_ref, at.span) || ts_states_at(
            m,
            "return_type"@,
            type_ref,
            at.span,
        ));
        assert(facts.contains(f));
        tree_laws::law_index_knows_the_facts(facts, f);
    }
    assert forall|b: TreeView, n: TreeView, field: Seq<char>, made: Seq<char>|
        syntax::field_of(m, "body"@) == Some(b) && #[trigger] tree_laws::within(b, n) && #[trigger] ts_sets(
            n,
            field,
            made,
        ) implies file_index::first_type(x.fields, class, field) is Some by {
        let f = FactView::Field { class, field, type_ref: made };
        assert(ts_sets_in(m, field, made));
        assert(facts.contains(f));
        tree_laws::law_index_knows_the_facts(facts, f);
    }
    let s = file_index::symbol_at(path, key, NodeKind::Function, m.span);
    assert(facts.contains(FactView::Symbol(s)));
    tree_laws::law_index_knows_the_facts(facts, FactView::Symbol(s));
    let given = file_index::with_facts(file_index::empty_index(), facts).symbols;
    let i = choose|i: int| 0 <= i < given.len() && given[i] == s;
    assert(x.symbols[i].key == key);
}

/// The symbols of a file: the file itself, and what is declared in it.
pub proof fn law_typescript_symbols(path: Seq<char>, content: Seq<char>, t: TreeView, s: SymbolView)
    requires
        s.disambiguator == Seq::<char>::empty(),
    ensures
        tree_laws::lists(typescript_indexer::ts_index(path, content, t).symbols, s) <==> {
            ||| s.key == "$file"@ && s.name == path && s.kind == NodeKind::File && s.span == spans::whole_span(
                content,
            )
            ||| exists|d: TreeView| #[trigger] ts_declared(t, d) && ts_symbol_of(d, path, s)
        },
{
    let x = FactView::Symbol(s);
    let facts = facts_of(path, content, t);
    tree_laws::law_index_knows_the_facts(facts, x);
    lemma_facts(path, content, t, x);
    lemma_plain_symbols(path, content, t);
    tree_laws::lemma_listed(file_index::with_facts(file_index::empty_index(), facts).symbols, s);
    if s.key == "$file"@ && s.name == path && s.kind == NodeKind::File && s.span == spans::whole_span(
        content,
    ) {
        assert(s =~= file_index::file_symbol(path, content));
    }
    assert forall|d: TreeView| #[trigger] ts_declared(t, d) implies (ts_declaration_tells(d, path, x)
        <==> ts_symbol_of(d, path, s)) by {
        lemma_symbol_of(d, path, s);
    }
}

/// A declaration names a symbol: a function; a class or another type; a method; a function that a
/// variable holds.
pub open spec fn ts_symbol_of(d: TreeView, path: Seq<char>, s: SymbolView) -> bool {
    ||| ts_is_function(d, s.key) && tree_laws::stands_for(s, path, s.key, NodeKind::Function, d.span)
    ||| (ts_is_class(d, s.key) || ts_is_type(d, s.key)) && tree_laws::stands_for(
        s,
        path,
        s.key,
        NodeKind::Class,
        d.span,
    )
    ||| exists|m: TreeView, class: Seq<char>, name: Seq<char>| #[trigger]
        ts_is_method(d, m, class, name) && tree_laws::stands_for(
            s,
            path,
            class + "."@ + name,
            NodeKind::Function,
            m.span,
        )
    ||| exists|v: TreeView, f: TreeView| #[trigger]
        ts_is_function_variable(d, v, f, s.key) && tree_laws::stands_for(
            s,
            path,
            s.key,
            NodeKind::Function,
            v.span,
        )
}

proof fn lemma_symbol_of(d: TreeView, path: Seq<char>, s: SymbolView)
    ensures
        ts_declaration_tells(d, path, FactView::Symbol(s)) <==> ts_symbol_of(d, path, s),
{
    let x = FactView::Symbol(s);
    if ts_symbol_of(d, path, s) {
        if exists|m: TreeView, class: Seq<char>, name: Seq<char>| #[trigger]
            ts_is_method(d, m, class, name) && tree_laws::stands_for(
                s,
                path,
                class + "."@ + name,
                NodeKind::Function,
                m.span,
            ) {
            let (m, class, name) = choose|m: TreeView, class: Seq<char>, name: Seq<char>| #[trigger]
                ts_is_method(d, m, class, name) && tree_laws::stands_for(
                    s,
                    path,
                    class + "."@ + name,
                    NodeKind::Function,
                    m.span,
                );
            assert(ts_is_class(d, class) && ts_method_tells(m, path, class, name, x));
        }
        if exists|v: TreeView, f: TreeView| #[trigger]
            ts_is_function_variable(d, v, f, s.key) && tree_laws::stands_for(
                s,
                path,
                s.key,
                NodeKind::Function,
                v.span,
            ) {
            let (v, f) = choose|v: TreeView, f: TreeView| #[trigger]
                ts_is_function_variable(d, v, f, s.key) && tree_laws::stands_for(
                    s,
                    path,
                    s.key,
                    NodeKind::Function,
                    v.span,
                );
            assert(ts_is_variable(d, v) && ts_variable_tells(d, v, path, x));
        }
    }
}

proof fn lemma_plain_symbols(path: Seq<char>, content: Seq<char>, t: TreeView)
    ensures
        ({
            let s = file_index::with_facts(file_index::empty_index(), facts_of(path, content, t)).symbols;
            forall|i: int| 0 <= i < s.len() ==> (#[trigger] s[i]).disambiguator == Seq::<char>::empty()
        }),
{
    let facts = facts_of(path, content, t);
    let s = file_index::with_facts(file_index::empty_index(), facts).symbols;
    assert forall|i: int| 0 <= i < s.len() implies (#[trigger] s[i]).disambiguator == Seq::<char>::empty() by {
        let x = FactView::Symbol(s[i]);
        assert(s.contains(s[i]));
        tree_laws::law_index_knows_the_facts(facts, x);
        lemma_facts(path, content, t, x);
        if ts_told_in(t, path, x) {
            let d = choose|d: TreeView| #[trigger] ts_declared(t, d) && ts_declaration_tells(d, path, x);
            lemma_symbol_of(d, path, s[i]);
        }
    }
}

/// The bases of a file: those that a class names in its heritage, but for `object`, and those that an
/// interface names in its clauses.
pub proof fn law_typescript_bases(path: Seq<char>, content: Seq<char>, t: TreeView, e: ExtendsView)
    ensures
        typescript_indexer::ts_index(path, content, t).extends.contains(e) <==> exists|d: TreeView, at: TreeView|
            #![trigger ts_declared(t, d), ts_has_base(d, e.class, at, e)]
            ts_declared(t, d) && ts_has_base(d, e.class, at, e),
{
    let x = FactView::Extends(e);
    tree_laws::law_index_knows_the_facts(facts_of(path, content, t), x);
    lemma_facts(path, content, t, x);
    if ts_told_in(t, path, x) {
        let d = choose|d: TreeView| #[trigger] ts_declared(t, d) && ts_declaration_tells(d, path, x);
        let at = choose|at: TreeView| #[trigger] ts_has_base(d, e.class, at, e);
        assert(ts_declared(t, d) && ts_has_base(d, e.class, at, e));
    }
    if exists|d: TreeView, at: TreeView|
        #![trigger ts_declared(t, d), ts_has_base(d, e.class, at, e)]
        ts_declared(t, d) && ts_has_base(d, e.class, at, e) {
        let (d, at) = choose|d: TreeView, at: TreeView|
            #![trigger ts_declared(t, d), ts_has_base(d, e.class, at, e)]
            ts_declared(t, d) && ts_has_base(d, e.class, at, e);
        if ts_is_class(d, e.class) {
            assert(ts_class_tells(d, path, e.class, x));
        } else {
            assert(ts_type_tells(d, path, e.class, x));
        }
        assert(ts_declaration_tells(d, path, x));
    }
}

/// What a declaration uses: the types that a function states in its parameters and its result, and the
/// components that its body shows; the types of a class's parameters; the types that an alias stands
/// for; the stated type of a variable.
pub open spec fn ts_uses(d: TreeView, u: UseView) -> bool {
    ||| exists|m: TreeView| #[trigger] ts_runs(d, m, u.owner) && ts_tells(m, u.owner, FactView::Use(u))
    ||| ts_is_class(d, u.owner) && ts_states_at(d, "type_parameters"@, u.type_ref, u.span)
    ||| ts_is_type(d, u.owner) && d.kind == "type_alias_declaration"@ && ts_states_at(
        d,
        "value"@,
        u.type_ref,
        u.span,
    )
    ||| exists|v: TreeView| #[trigger]
        ts_is_variable(d, v) && u.owner == ts_type_owner(v) && ts_states_at(v, "type"@, u.type_ref, u.span)
}

proof fn lemma_uses(d: TreeView, path: Seq<char>, u: UseView)
    ensures
        ts_declaration_tells(d, path, FactView::Use(u)) <==> ts_uses(d, u),
{
    let x = FactView::Use(u);
    if ts_declaration_tells(d, path, x) {
        if exists|key: Seq<char>| #[trigger] ts_is_function(d, key) && ts_tells(d, key, x) {
            assert(ts_runs(d, d, u.owner));
        } else if exists|class: Seq<char>| #[trigger]
            ts_is_class(d, class) && ts_class_tells(d, path, class, x) {
            let class = choose|class: Seq<char>| #[trigger]
                ts_is_class(d, class) && ts_class_tells(d, path, class, x);
            if exists|m: TreeView, name: Seq<char>| #[trigger]
                ts_is_method(d, m, class, name) && ts_method_tells(m, path, class, name, x) {
                let (m, name) = choose|m: TreeView, name: Seq<char>| #[trigger]
                    ts_is_method(d, m, class, name) && ts_method_tells(m, path, class, name, x);
                assert(ts_runs(d, m, u.owner));
            }
        } else if exists|v: TreeView| #[trigger]
            ts_is_variable(d, v) && ts_variable_tells(d, v, path, x) {
            let v = choose|v: TreeView| #[trigger] ts_is_variable(d, v) && ts_variable_tells(d, v, path, x);
            if exists|f: TreeView, key: Seq<char>| #[trigger]
                ts_is_function_variable(d, v, f, key) && ts_tells(f, key, x) {
                let (f, key) = choose|f: TreeView, key: Seq<char>| #[trigger]
                    ts_is_function_variable(d, v, f, key) && ts_tells(f, key, x);
                assert(ts_runs(d, f, u.owner));
            }
        }
    }
    if ts_uses(d, u) {
        if exists|m: TreeView| #[trigger] ts_runs(d, m, u.owner) && ts_tells(m, u.owner, x) {
            let m = choose|m: TreeView| #[trigger] ts_runs(d, m, u.owner) && ts_tells(m, u.owner, x);
            lemma_use_of_running(d, m, path, u);
        } else if ts_is_class(d, u.owner) && ts_states_at(d, "type_parameters"@, u.type_ref, u.span) {
            assert(ts_class_tells(d, path, u.owner, x));
        } else if ts_is_type(d, u.owner) && d.kind == "type_alias_declaration"@ && ts_states_at(
            d,
            "value"@,
            u.type_ref,
            u.span,
        ) {
            assert(ts_type_tells(d, path, u.owner, x));
        } else {
            let v = choose|v: TreeView| #[trigger]
                ts_is_variable(d, v) && u.owner == ts_type_owner(v) && ts_states_at(
                    v,
                    "type"@,
                    u.type_ref,
                    u.span,
                );
            assert(ts_variable_tells(d, v, path, x));
        }
    }
}

proof fn lemma_use_of_running(d: TreeView, m: TreeView, path: Seq<char>, u: UseView)
    requires
        ts_runs(d, m, u.owner),
        ts_tells(m, u.owner, FactView::Use(u)),
    ensures
        ts_declaration_tells(d, path, FactView::Use(u)),
{
    let x = FactView::Use(u);
    if ts_is_function(d, u.owner) && m == d {
    } else if exists|class: Seq<char>, name: Seq<char>| #[trigger]
        ts_is_method(d, m, class, name) && u.owner == class + "."@ + name {
        let (class, name) = choose|class: Seq<char>, name: Seq<char>| #[trigger]
            ts_is_method(d, m, class, name) && u.owner == class + "."@ + name;
        assert(ts_is_class(d, class));
        assert(ts_method_tells(m, path, class, name, x));
        assert(ts_class_tells(d, path, class, x));
    } else {
        let v = choose|v: TreeView| #[trigger] ts_is_function_variable(d, v, m, u.owner);
        assert(ts_is_variable(d, v));
        assert(ts_variable_tells(d, v, path, x));
    }
}

/// The uses of a file: those of its declarations, and the components that its statements show.
pub proof fn law_typescript_uses(path: Seq<char>, content: Seq<char>, t: TreeView, u: UseView)
    ensures
        typescript_indexer::ts_index(path, content, t).uses.contains(u) <==> {
            ||| exists|d: TreeView| #[trigger] ts_declared(t, d) && ts_uses(d, u)
            ||| u.owner == "$file"@ && exists|s: TreeView| #[trigger]
                tree_laws::child_of(t, s) && s.kind == "expression_statement"@ && ts_element_in(
                    s,
                    u.type_ref,
                    u.span,
                )
        },
{
    let x = FactView::Use(u);
    tree_laws::law_index_knows_the_facts(facts_of(path, content, t), x);
    lemma_facts(path, content, t, x);
    assert forall|d: TreeView| #[trigger] ts_declared(t, d) implies (ts_declaration_tells(d, path, x)
        <==> ts_uses(d, u)) by {
        lemma_uses(d, path, u);
    }
}

/// A field has a type if a method of its class sets it, and the type is the name that the value of such
/// a setting starts with.
pub proof fn law_typescript_fields(
    path: Seq<char>,
    content: Seq<char>,
    t: TreeView,
    class: Seq<char>,
    field: Seq<char>,
)
    ensures
        ({
            let r = file_index::first_type(
                typescript_indexer::ts_index(path, content, t).fields,
                class,
                field,
            );
            &&& r is Some <==> exists|made: Seq<char>| #[trigger] ts_field_set(t, class, field, made)
            &&& r is Some ==> ts_field_set(t, class, field, r->0)
        }),
{
    let facts = facts_of(path, content, t);
    tree_laws::law_first_type_counts(facts, class, field);
    let r = file_index::first_type(typescript_indexer::ts_index(path, content, t).fields, class, field);
    if r is Some {
        let k = choose|k: int| #[trigger] tree_laws::first_told(facts, class, field, k);
        let x = facts[k];
        assert(facts.contains(x));
        lemma_facts(path, content, t, x);
        let d = choose|d: TreeView| #[trigger] ts_declared(t, d) && ts_declaration_tells(d, path, x);
        assert(ts_class_tells(d, path, class, x));
        let (m, name) = choose|m: TreeView, name: Seq<char>| #[trigger]
            ts_is_method(d, m, class, name) && ts_method_tells(m, path, class, name, x);
        assert(ts_declared(t, d) && ts_is_method(d, m, class, name));
        assert(ts_field_set(t, class, field, r->0));
    }
    if exists|made: Seq<char>| #[trigger] ts_field_set(t, class, field, made) {
        let made = choose|made: Seq<char>| #[trigger] ts_field_set(t, class, field, made);
        let (d, m, name) = choose|d: TreeView, m: TreeView, name: Seq<char>|
            #![trigger ts_declared(t, d), ts_is_method(d, m, class, name)]
            ts_declared(t, d) && ts_is_method(d, m, class, name) && ts_sets_in(m, field, made);
        let b = syntax::field_of(m, "body"@)->0;
        let n = choose|n: TreeView| #[trigger] tree_laws::within(b, n) && ts_sets(n, field, made);
        law_typescript_methods(path, content, t, d, m, class, name);
        assert(tree_laws::within(b, n) && ts_sets(n, field, made));
    }
}

/// A method of a class sets a field.
pub open spec fn ts_field_set(t: TreeView, class: Seq<char>, field: Seq<char>, made: Seq<char>) -> bool {
    exists|d: TreeView, m: TreeView, name: Seq<char>|
        #![trigger ts_declared(t, d), ts_is_method(d, m, class, name)]
        ts_declared(t, d) && ts_is_method(d, m, class, name) && ts_sets_in(m, field, made)
}

/// `s[i]` is the last node of a list that has a name.
pub open spec fn last_named(s: Seq<TreeView>, i: int) -> bool {
    0 <= i < s.len() && s[i].named && forall|j: int| i < j < s.len() ==> !(#[trigger] s[j]).named
}

proof fn lemma_first_type_name(s: Seq<TreeView>, i: int)
    requires
        tree_laws::first_named(s, i),
    ensures
        typescript_indexer::ts_first_type_name(s) == typescript_indexer::ts_type_name(s[i]),
    decreases i,
{
    reveal_with_fuel(typescript_indexer::ts_first_type_name, 2);
    if i > 0 {
        let r = s.skip(1);
        assert forall|j: int| 0 <= j < i - 1 implies !(#[trigger] r[j]).named by {
            assert(r[j] == s[j + 1]);
        }
        lemma_first_type_name(r, i - 1);
        assert(!s[0].named);
    }
}

proof fn lemma_last_named(s: Seq<TreeView>, i: int)
    requires
        last_named(s, i),
    ensures
        typescript_indexer::last_named_text(s) == Some(s[i].text),
    decreases s.len(),
{
    if i < s.len() - 1 {
        let r = s.drop_last();
        assert forall|j: int| i < j < r.len() implies !(#[trigger] r[j]).named by {
            assert(r[j] == s[j]);
        }
        lemma_last_named(r, i);
    }
}

/// The name of a type: that of a plain name is its text without the space around it; that of a type with
/// arguments is the name of the first part; that of a type inside others is its last part; no other node
/// names a type.
pub proof fn law_typescript_type_names(t: TreeView, i: int)
    ensures
        t.kind == "type_identifier"@ || t.kind == "identifier"@ ==> typescript_indexer::ts_type_name(t) == (
        if text::trimmed(t.text).len() > 0 {
            Some(text::trimmed(t.text))
        } else {
            None
        }),
        (t.kind == "generic_type"@ || t.kind == "type_reference"@) && tree_laws::first_named(t.children, i)
            ==> typescript_indexer::ts_type_name(t) == typescript_indexer::ts_type_name(t.children[i]),
        t.kind == "nested_type_identifier"@ && last_named(t.children, i) && text::trimmed(
            t.children[i].text,
        ).len() > 0 ==> typescript_indexer::ts_type_name(t) == Some(text::trimmed(t.children[i].text)),
        t.kind != "type_identifier"@ && t.kind != "identifier"@ && t.kind != "generic_type"@ && t.kind
            != "type_reference"@ && t.kind != "nested_type_identifier"@
            ==> typescript_indexer::ts_type_name(t) is None,
{
    reveal_strlit("type_identifier");
    reveal_strlit("identifier");
    reveal_strlit("generic_type");
    reveal_strlit("type_reference");
    reveal_strlit("nested_type_identifier");
    assert("type_identifier"@.len() == 15 && "identifier"@.len() == 10 && "generic_type"@.len() == 12
        && "type_reference"@.len() == 14 && "nested_type_identifier"@.len() == 22);
    if tree_laws::first_named(t.children, i) {
        lemma_first_type_name(t.children, i);
    }
    if last_named(t.children, i) {
        lemma_last_named(t.children, i);
    }
}

/// A part of an import, and whether it stands in the clause.
pub open spec fn ts_part(c: TreeView, p: TreeView, in_clause: bool) -> bool {
    exists|k: TreeView| #[trigger]
        tree_laws::child_of(c, k) && {
            ||| in_clause && k.kind == "import_clause"@ && tree_laws::child_of(k, p)
            ||| !in_clause && k.kind != "import_clause"@ && p == k
        }
}

/// A part of an import gives a name to the file.
pub open spec fn ts_part_names(p: TreeView, in_clause: bool, n: Seq<char>) -> bool {
    ||| p.kind == "identifier"@ && n == p.text
    ||| p.kind == "named_imports"@ && exists|s: TreeView| #[trigger]
        tree_laws::child_of(p, s) && s.kind == "import_specifier"@ && n.len() > 0 && n == (
        match syntax::field_of(s, "alias"@) {
            Some(a) => a.text,
            None => syntax::field_text(s, "name"@),
        })
    ||| p.kind == "namespace_import"@ && in_clause && (match syntax::field_of(p, "name"@) {
        Some(a) => n == a.text,
        None => false,
    })
}

proof fn lemma_local_names(s: Seq<TreeView>, n: Seq<char>)
    ensures
        typescript_indexer::ts_local_names(s).contains(n) <==> exists|c: TreeView| #[trigger]
            s.contains(c) && c.named && c.kind == "import_specifier"@ && n.len() > 0 && n == (
            match syntax::field_of(c, "alias"@) {
                Some(a) => a.text,
                None => syntax::field_text(c, "name"@),
            }),
    decreases s.len(),
{
    if s.len() > 0 {
        let front = s.drop_last();
        let l = s.last();
        lemma_local_names(front, n);
        let own = typescript_indexer::ts_local_name(l);
        tree_laws::lemma_both(typescript_indexer::ts_local_names(front), own, n);
        tree_laws::lemma_ends(s, l);
        if own.len() > 0 {
            tree_laws::lemma_one(own[0], n);
            assert(own =~= seq![own[0]]);
        }
        assert forall|c: TreeView| #[trigger] s.contains(c) implies (front.contains(c) || c == l) by {
            tree_laws::lemma_ends(s, c);
        }
        assert forall|c: TreeView| #[trigger] front.contains(c) implies s.contains(c) by {
            tree_laws::lemma_ends(s, c);
        }
    }
}

/// What a part adds to the names and the style of an import.
spec fn part_adds(
    x: (Seq<Seq<char>>, ImportStyle),
    y: (Seq<Seq<char>>, ImportStyle),
    p: TreeView,
    in_clause: bool,
    n: Seq<char>,
) -> bool {
    &&& y.0.contains(n) <==> x.0.contains(n) || ts_part_names(p, in_clause, n)
    &&& p.kind == "identifier"@ || p.kind == "named_imports"@ ==> y.1 == ImportStyle::Names
    &&& p.kind == "namespace_import"@ ==> y.1 == ImportStyle::Star
    &&& p.kind != "identifier"@ && p.kind != "named_imports"@ && p.kind != "namespace_import"@ ==> y.1 == x.1
}

proof fn lemma_part(x: (Seq<Seq<char>>, ImportStyle), p: TreeView, in_clause: bool, n: Seq<char>)
    ensures
        part_adds(x, typescript_indexer::ts_import_part(x, p, in_clause), p, in_clause, n),
{
    reveal_strlit("identifier");
    reveal_strlit("named_imports");
    reveal_strlit("namespace_import");
    assert("identifier"@.len() == 10 && "named_imports"@.len() == 13 && "namespace_import"@.len() == 16);
    let added = if p.kind == "identifier"@ {
        seq![p.text]
    } else if p.kind == "named_imports"@ {
        typescript_indexer::ts_local_names(p.children)
    } else if p.kind == "namespace_import"@ && in_clause && syntax::field_of(p, "name"@) is Some {
        seq![syntax::field_of(p, "name"@)->0.text]
    } else {
        Seq::empty()
    };
    assert(typescript_indexer::ts_import_part(x, p, in_clause).0 =~= x.0 + added);
    tree_laws::lemma_both(x.0, added, n);
    lemma_local_names(p.children, n);
    if p.kind == "named_imports"@ {
        if exists|s: TreeView| #[trigger]
            p.children.contains(s) && s.named && s.kind == "import_specifier"@ && n.len() > 0 && n == (
            match syntax::field_of(s, "alias"@) {
                Some(a) => a.text,
                None => syntax::field_text(s, "name"@),
            }) {
            let s = choose|s: TreeView| #[trigger]
                p.children.contains(s) && s.named && s.kind == "import_specifier"@ && n.len() > 0 && n == (
                match syntax::field_of(s, "alias"@) {
                    Some(a) => a.text,
                    None => syntax::field_text(s, "name"@),
                });
            assert(tree_laws::child_of(p, s));
        }
    } else if added.len() > 0 {
        tree_laws::lemma_one(added[0], n);
    }
}

/// Some part gives a name.
spec fn clause_names(s: Seq<TreeView>, n: Seq<char>) -> bool {
    exists|p: TreeView| #[trigger] s.contains(p) && p.named && ts_part_names(p, true, n)
}

proof fn lemma_clause(x: (Seq<Seq<char>>, ImportStyle), s: Seq<TreeView>, n: Seq<char>)
    ensures
        typescript_indexer::ts_import_clause(x, s).0.contains(n) <==> x.0.contains(n) || clause_names(s, n),
    decreases s.len(),
{
    if s.len() > 0 {
        let front = s.drop_last();
        lemma_clause(x, front, n);
        lemma_part(typescript_indexer::ts_import_clause(x, front), s.last(), true, n);
        assert forall|c: TreeView| #[trigger] s.contains(c) implies (front.contains(c) || c == s.last()) by {
            tree_laws::lemma_ends(s, c);
        }
        assert forall|c: TreeView| #[trigger] front.contains(c) implies s.contains(c) by {
            tree_laws::lemma_ends(s, c);
        }
        tree_laws::lemma_ends(s, s.last());
    }
}

/// A child of an import gives a name.
spec fn child_names(k: TreeView, n: Seq<char>) -> bool {
    ||| k.kind == "import_clause"@ && clause_names(k.children, n)
    ||| k.kind != "import_clause"@ && ts_part_names(k, false, n)
}

proof fn lemma_parts(x: (Seq<Seq<char>>, ImportStyle), s: Seq<TreeView>, n: Seq<char>)
    ensures
        typescript_indexer::ts_import_parts(x, s).0.contains(n) <==> x.0.contains(n) || exists|k: TreeView|
            #[trigger] s.contains(k) && k.named && child_names(k, n),
    decreases s.len(),
{
    if s.len() > 0 {
        let front = s.drop_last();
        let y = typescript_indexer::ts_import_parts(x, front);
        lemma_parts(x, front, n);
        lemma_clause(y, s.last().children, n);
        lemma_part(y, s.last(), false, n);
        assert forall|c: TreeView| #[trigger] s.contains(c) implies (front.contains(c) || c == s.last()) by {
            tree_laws::lemma_ends(s, c);
        }
        assert forall|c: TreeView| #[trigger] front.contains(c) implies s.contains(c) by {
            tree_laws::lemma_ends(s, c);
        }
        tree_laws::lemma_ends(s, s.last());
    }
}

/// The names that an import gives: its default name, each listed name under the name that it has in the
/// file, and the name that the whole module gets; and no other.
pub proof fn law_typescript_import_names(c: TreeView, n: Seq<char>)
    ensures
        typescript_indexer::ts_import(c).span == c.span,
        typescript_indexer::ts_import(c).names.contains(n) <==> exists|p: TreeView, in_clause: bool| #[trigger]
            ts_part(c, p, in_clause) && ts_part_names(p, in_clause, n),
{
    let x = (Seq::<Seq<char>>::empty(), ImportStyle::ModuleOnly);
    lemma_parts(x, c.children, n);
    if typescript_indexer::ts_import(c).names.contains(n) {
        let k = choose|k: TreeView| #[trigger] c.children.contains(k) && k.named && child_names(k, n);
        assert(tree_laws::child_of(c, k));
        if k.kind == "import_clause"@ {
            let p = choose|p: TreeView| #[trigger]
                k.children.contains(p) && p.named && ts_part_names(p, true, n);
            assert(tree_laws::child_of(k, p));
            assert(ts_part(c, p, true));
        } else {
            assert(ts_part(c, k, false));
        }
    }
    if exists|p: TreeView, in_clause: bool| #[trigger]
        ts_part(c, p, in_clause) && ts_part_names(p, in_clause, n) {
        let (p, in_clause) = choose|p: TreeView, in_clause: bool| #[trigger]
            ts_part(c, p, in_clause) && ts_part_names(p, in_clause, n);
        let k = choose|k: TreeView| #[trigger]
            tree_laws::child_of(c, k) && {
                ||| in_clause && k.kind == "import_clause"@ && tree_laws::child_of(k, p)
                ||| !in_clause && k.kind != "import_clause"@ && p == k
            };
        if in_clause {
            assert(k.children.contains(p) && p.named && ts_part_names(p, true, n));
        }
        assert(child_names(k, n));
    }
}

proof fn lemma_imports(s: Seq<TreeView>, i: ImportView)
    ensures
        typescript_indexer::ts_imports(s).contains(i) <==> exists|c: TreeView| #[trigger]
            s.contains(c) && c.named && c.kind == "import_statement"@ && i == typescript_indexer::ts_import(c),
    decreases s.len(),
{
    if s.len() > 0 {
        let front = s.drop_last();
        let l = s.last();
        lemma_imports(front, i);
        if l.named && l.kind == "import_statement"@ {
            let a = typescript_indexer::ts_imports(front);
            let e = typescript_indexer::ts_import(l);
            assert(a.push(e) =~= a + seq![e]);
            tree_laws::lemma_both(a, seq![e], i);
            tree_laws::lemma_one(e, i);
        }
        assert forall|c: TreeView| #[trigger] s.contains(c) implies (front.contains(c) || c == l) by {
            tree_laws::lemma_ends(s, c);
        }
        assert forall|c: TreeView| #[trigger] front.contains(c) implies s.contains(c) by {
            tree_laws::lemma_ends(s, c);
        }
        tree_laws::lemma_ends(s, l);
    }
}

/// The imports of a file are its import statements.
pub proof fn law_typescript_imports(path: Seq<char>, content: Seq<char>, t: TreeView, i: ImportView)
    ensures
        typescript_indexer::ts_index(path, content, t).imports.contains(i) <==> exists|c: TreeView| #[trigger]
            tree_laws::child_of(t, c) && c.kind == "import_statement"@ && i == typescript_indexer::ts_import(c),
{
    lemma_imports(t.children, i);
    if exists|c: TreeView| #[trigger]
        t.children.contains(c) && c.named && c.kind == "import_statement"@ && i
            == typescript_indexer::ts_import(c) {
        let c = choose|c: TreeView| #[trigger]
            t.children.contains(c) && c.named && c.kind == "import_statement"@ && i
                == typescript_indexer::ts_import(c);
        assert(tree_laws::child_of(t, c));
    }
}

/// The style of an import is `Star` for the last part that names the whole module, `Names` for the last
/// that gives names; a part of another kind changes nothing.
pub proof fn law_typescript_import_style(
    x: (Seq<Seq<char>>, ImportStyle),
    s: Seq<TreeView>,
    p: TreeView,
)
    requires
        p.named,
    ensures
        ({
            let r = typescript_indexer::ts_import_clause(x, s.push(p)).1;
            &&& p.kind == "identifier"@ || p.kind == "named_imports"@ ==> r == ImportStyle::Names
            &&& p.kind == "namespace_import"@ ==> r == ImportStyle::Star
            &&& p.kind != "identifier"@ && p.kind != "named_imports"@ && p.kind != "namespace_import"@ ==> r
                == typescript_indexer::ts_import_clause(x, s).1
            &&& typescript_indexer::ts_import_clause(x, Seq::empty()) == x
        }),
{
    assert(s.push(p).drop_last() =~= s);
    lemma_part(typescript_indexer::ts_import_clause(x, s), p, true, Seq::empty());
}

/// The module of an import is its source without the quotes.
pub proof fn law_typescript_import_module(c: TreeView, m: Seq<char>)
    requires
        m.len() > 0,
        m[0] != '\'' && m[0] != '"' && m.last() != '\'' && m.last() != '"',
    ensures
        syntax::field_text(c, "source"@) == seq!['\''] + m + seq!['\''] ==> typescript_indexer::ts_import(c).module
            == m,
        syntax::field_text(c, "source"@) == seq!['"'] + m + seq!['"'] ==> typescript_indexer::ts_import(c).module
            == m,
{
    lemma_quoted(m, '\'');
    lemma_quoted(m, '"');
    lemma_unquoted(m, '\'');
    lemma_unquoted(m, '"');
    lemma_unquoted(seq!['"'] + m + seq!['"'], '\'');
}

proof fn lemma_unquoted(m: Seq<char>, q: char)
    requires
        m.len() > 0,
        m[0] != q && m.last() != q,
    ensures
        text::stripped(m, q) == m,
{
    assert(text::strip_front(m, q) == m);
    assert(text::strip_back(m, q) == m);
}

proof fn lemma_quoted(m: Seq<char>, q: char)
    requires
        m.len() > 0,
        m[0] != q && m.last() != q,
    ensures
        text::stripped(seq![q] + m + seq![q], q) == m,
{
    let s = seq![q] + m + seq![q];
    let a = m + seq![q];
    assert(s[0] == q && s.drop_first() =~= a);
    assert(a[0] == m[0]);
    assert(text::strip_front(a, q) == a);
    assert(text::strip_front(s, q) == a);
    assert(a.last() == q && a.drop_last() =~= m);
    assert(text::strip_back(m, q) == m);
    assert(text::strip_back(a, q) == m);
}

/// A file whose tree is known is read by its tree, with the grammar that the end of its name stands for.
pub proof fn law_typescript_file(path: Seq<char>, content: Seq<char>, bad: bool, t: TreeView)
    ensures
        text::finishes_with(path, ".tsx"@) && syntax::source_tree(Grammar::Tsx, content) == Some((bad, t))
            ==> typescript_indexer::ts_file_index(path, content) == Some(
            typescript_indexer::ts_index(path, content, t),
        ),
        !text::finishes_with(path, ".tsx"@) && syntax::source_tree(Grammar::TypeScript, content) == Some(
            (bad, t),
        ) ==> typescript_indexer::ts_file_index(path, content) == Some(
            typescript_indexer::ts_index(path, content, t),
        ),
{
}

} // verus!
