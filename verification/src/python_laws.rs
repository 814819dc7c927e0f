//! What the index of a Python file holds, told by the tree of the file.

use crate::file_index;
use crate::file_index::{
    CallView, ExtendsView, FactView, ImportView, ReceiverView, SymbolView, TypedView, UseView,
};
use crate::graph::{NodeKind, SourceSpan};
use crate::python_indexer;
use crate::spans;
use crate::syntax;
use crate::syntax::TreeView;
use crate::text;
use crate::tree_laws;
use vstd::prelude::*;

verus! {

proof fn lemma_py_calls_all(s: Seq<TreeView>, caller: Seq<char>, x: FactView)
    ensures
        python_indexer::py_calls_all(s, caller).contains(x) <==> tree_laws::given(s, |c: TreeView| python_indexer::py_calls(c, caller), x),
{
    let f = |c: TreeView| python_indexer::py_calls(c, caller);
    lemma_py_calls_all_gather(s, caller);
    tree_laws::lemma_gathered(s, f, x);
}

proof fn lemma_py_calls_all_gather(s: Seq<TreeView>, caller: Seq<char>)
    ensures
        python_indexer::py_calls_all(s, caller) == tree_laws::gathered(s, |c: TreeView| python_indexer::py_calls(c, caller)),
    decreases s.len(),
{
    let f = |c: TreeView| python_indexer::py_calls(c, caller);
    if s.len() > 0 {
        lemma_py_calls_all_gather(s.drop_last(), caller);
    }
}

/// What py calls holds comes from a node inside.
proof fn lemma_py_calls(t: TreeView, caller: Seq<char>, x: FactView)
    ensures
        python_indexer::py_calls(t, caller).contains(x) <==> tree_laws::found(t, |n: TreeView| python_indexer::py_own_calls(n, caller), x),
    decreases t,
{
    let own = |n: TreeView| python_indexer::py_own_calls(n, caller);
    let f = |c: TreeView| python_indexer::py_calls(c, caller);
    lemma_py_calls_all(t.children, caller, x);
    tree_laws::lemma_both(python_indexer::py_own_calls(t, caller), python_indexer::py_calls_all(t.children, caller), x);
    if tree_laws::found(t, own, x) {
        let n = choose|n: TreeView| #[trigger] tree_laws::within(t, n) && own(n).contains(x);
        if n != t {
            let c = tree_laws::lemma_below(t, n);
            lemma_py_calls(c, caller, x);
            assert(tree_laws::within(c, n) && own(n).contains(x));
            assert(t.children.contains(c) && c.named && f(c).contains(x));
        }
    }
    if tree_laws::given(t.children, f, x) {
        let c = choose|c: TreeView| #[trigger] t.children.contains(c) && c.named && f(c).contains(x);
        tree_laws::lemma_child_smaller(t, c);
        lemma_py_calls(c, caller, x);
        let n = choose|n: TreeView| #[trigger] tree_laws::within(c, n) && own(n).contains(x);
        tree_laws::lemma_inside(t, c, n);
        assert(tree_laws::within(t, n) && own(n).contains(x));
    }
    assert(tree_laws::within(t, t));
}

proof fn lemma_py_types_all(s: Seq<TreeView>, owner: Seq<char>, x: FactView)
    ensures
        python_indexer::py_types_all(s, owner).contains(x) <==> tree_laws::given(s, |c: TreeView| python_indexer::py_types(c, owner), x),
{
    let f = |c: TreeView| python_indexer::py_types(c, owner);
    lemma_py_types_all_gather(s, owner);
    tree_laws::lemma_gathered(s, f, x);
}

proof fn lemma_py_types_all_gather(s: Seq<TreeView>, owner: Seq<char>)
    ensures
        python_indexer::py_types_all(s, owner) == tree_laws::gathered(s, |c: TreeView| python_indexer::py_types(c, owner)),
    decreases s.len(),
{
    let f = |c: TreeView| python_indexer::py_types(c, owner);
    if s.len() > 0 {
        lemma_py_types_all_gather(s.drop_last(), owner);
    }
}

/// What py types holds comes from a node inside.
proof fn lemma_py_types(t: TreeView, owner: Seq<char>, x: FactView)
    ensures
        python_indexer::py_types(t, owner).contains(x) <==> tree_laws::found(t, |n: TreeView| python_indexer::py_own_types(n, owner), x),
    decreases t,
{
    let own = |n: TreeView| python_indexer::py_own_types(n, owner);
    let f = |c: TreeView| python_indexer::py_types(c, owner);
    lemma_py_types_all(t.children, owner, x);
    tree_laws::lemma_both(python_indexer::py_own_types(t, owner), python_indexer::py_types_all(t.children, owner), x);
    if tree_laws::found(t, own, x) {
        let n = choose|n: TreeView| #[trigger] tree_laws::within(t, n) && own(n).contains(x);
        if n != t {
            let c = tree_laws::lemma_below(t, n);
            lemma_py_types(c, owner, x);
            assert(tree_laws::within(c, n) && own(n).contains(x));
            assert(t.children.contains(c) && c.named && f(c).contains(x));
        }
    }
    if tree_laws::given(t.children, f, x) {
        let c = choose|c: TreeView| #[trigger] t.children.contains(c) && c.named && f(c).contains(x);
        tree_laws::lemma_child_smaller(t, c);
        lemma_py_types(c, owner, x);
        let n = choose|n: TreeView| #[trigger] tree_laws::within(c, n) && own(n).contains(x);
        tree_laws::lemma_inside(t, c, n);
        assert(tree_laws::within(t, n) && own(n).contains(x));
    }
    assert(tree_laws::within(t, t));
}

proof fn lemma_py_fields_all(s: Seq<TreeView>, class: Seq<char>, x: FactView)
    ensures
        python_indexer::py_fields_all(s, class).contains(x) <==> tree_laws::given(s, |c: TreeView| python_indexer::py_fields(c, class), x),
{
    let f = |c: TreeView| python_indexer::py_fields(c, class);
    lemma_py_fields_all_gather(s, class);
    tree_laws::lemma_gathered(s, f, x);
}

proof fn lemma_py_fields_all_gather(s: Seq<TreeView>, class: Seq<char>)
    ensures
        python_indexer::py_fields_all(s, class) == tree_laws::gathered(s, |c: TreeView| python_indexer::py_fields(c, class)),
    decreases s.len(),
{
    let f = |c: TreeView| python_indexer::py_fields(c, class);
    if s.len() > 0 {
        lemma_py_fields_all_gather(s.drop_last(), class);
    }
}

/// What py fields holds comes from a node inside.
proof fn lemma_py_fields(t: TreeView, class: Seq<char>, x: FactView)
    ensures
        python_indexer::py_fields(t, class).contains(x) <==> tree_laws::found(t, |n: TreeView| python_indexer::py_own_fields(n, class), x),
    decreases t,
{
    let own = |n: TreeView| python_indexer::py_own_fields(n, class);
    let f = |c: TreeView| python_indexer::py_fields(c, class);
    lemma_py_fields_all(t.children, class, x);
    tree_laws::lemma_both(python_indexer::py_own_fields(t, class), python_indexer::py_fields_all(t.children, class), x);
    if tree_laws::found(t, own, x) {
        let n = choose|n: TreeView| #[trigger] tree_laws::within(t, n) && own(n).contains(x);
        if n != t {
            let c = tree_laws::lemma_below(t, n);
            lemma_py_fields(c, class, x);
            assert(tree_laws::within(c, n) && own(n).contains(x));
            assert(t.children.contains(c) && c.named && f(c).contains(x));
        }
    }
    if tree_laws::given(t.children, f, x) {
        let c = choose|c: TreeView| #[trigger] t.children.contains(c) && c.named && f(c).contains(x);
        tree_laws::lemma_child_smaller(t, c);
        lemma_py_fields(c, class, x);
        let n = choose|n: TreeView| #[trigger] tree_laws::within(c, n) && own(n).contains(x);
        tree_laws::lemma_inside(t, c, n);
        assert(tree_laws::within(t, n) && own(n).contains(x));
    }
    assert(tree_laws::within(t, t));
}

proof fn lemma_py_loops_all(s: Seq<TreeView>, function: Seq<char>, x: FactView)
    ensures
        python_indexer::py_loops_all(s, function).contains(x) <==> tree_laws::given(s, |c: TreeView| python_indexer::py_loops(c, function), x),
{
    let f = |c: TreeView| python_indexer::py_loops(c, function);
    lemma_py_loops_all_gather(s, function);
    tree_laws::lemma_gathered(s, f, x);
}

proof fn lemma_py_loops_all_gather(s: Seq<TreeView>, function: Seq<char>)
    ensures
        python_indexer::py_loops_all(s, function) == tree_laws::gathered(s, |c: TreeView| python_indexer::py_loops(c, function)),
    decreases s.len(),
{
    let f = |c: TreeView| python_indexer::py_loops(c, function);
    if s.len() > 0 {
        lemma_py_loops_all_gather(s.drop_last(), function);
    }
}

/// What py loops holds comes from a node inside.
proof fn lemma_py_loops(t: TreeView, function: Seq<char>, x: FactView)
    ensures
        python_indexer::py_loops(t, function).contains(x) <==> tree_laws::found(t, |n: TreeView| python_indexer::py_own_loops(n, function), x),
    decreases t,
{
    let own = |n: TreeView| python_indexer::py_own_loops(n, function);
    let f = |c: TreeView| python_indexer::py_loops(c, function);
    lemma_py_loops_all(t.children, function, x);
    tree_laws::lemma_both(python_indexer::py_own_loops(t, function), python_indexer::py_loops_all(t.children, function), x);
    if tree_laws::found(t, own, x) {
        let n = choose|n: TreeView| #[trigger] tree_laws::within(t, n) && own(n).contains(x);
        if n != t {
            let c = tree_laws::lemma_below(t, n);
            lemma_py_loops(c, function, x);
            assert(tree_laws::within(c, n) && own(n).contains(x));
            assert(t.children.contains(c) && c.named && f(c).contains(x));
        }
    }
    if tree_laws::given(t.children, f, x) {
        let c = choose|c: TreeView| #[trigger] t.children.contains(c) && c.named && f(c).contains(x);
        tree_laws::lemma_child_smaller(t, c);
        lemma_py_loops(c, function, x);
        let n = choose|n: TreeView| #[trigger] tree_laws::within(c, n) && own(n).contains(x);
        tree_laws::lemma_inside(t, c, n);
        assert(tree_laws::within(t, n) && own(n).contains(x));
    }
    assert(tree_laws::within(t, t));
}

proof fn lemma_py_appends_all(s: Seq<TreeView>, x: FactView)
    ensures
        python_indexer::py_appends_all(s).contains(x) <==> tree_laws::given(s, |c: TreeView| python_indexer::py_appends(c), x),
{
    let f = |c: TreeView| python_indexer::py_appends(c);
    lemma_py_appends_all_gather(s);
    tree_laws::lemma_gathered(s, f, x);
}

proof fn lemma_py_appends_all_gather(s: Seq<TreeView>)
    ensures
        python_indexer::py_appends_all(s) == tree_laws::gathered(s, |c: TreeView| python_indexer::py_appends(c)),
    decreases s.len(),
{
    let f = |c: TreeView| python_indexer::py_appends(c);
    if s.len() > 0 {
        lemma_py_appends_all_gather(s.drop_last());
    }
}

/// What py appends holds comes from a node inside.
proof fn lemma_py_appends(t: TreeView, x: FactView)
    ensures
        python_indexer::py_appends(t).contains(x) <==> tree_laws::found(t, |n: TreeView| python_indexer::py_own_appends(n), x),
    decreases t,
{
    let own = |n: TreeView| python_indexer::py_own_appends(n);
    let f = |c: TreeView| python_indexer::py_appends(c);
    lemma_py_appends_all(t.children, x);
    tree_laws::lemma_both(python_indexer::py_own_appends(t), python_indexer::py_appends_all(t.children), x);
    if tree_laws::found(t, own, x) {
        let n = choose|n: TreeView| #[trigger] tree_laws::within(t, n) && own(n).contains(x);
        if n != t {
            let c = tree_laws::lemma_below(t, n);
            lemma_py_appends(c, x);
            assert(tree_laws::within(c, n) && own(n).contains(x));
            assert(t.children.contains(c) && c.named && f(c).contains(x));
        }
    }
    if tree_laws::given(t.children, f, x) {
        let c = choose|c: TreeView| #[trigger] t.children.contains(c) && c.named && f(c).contains(x);
        tree_laws::lemma_child_smaller(t, c);
        lemma_py_appends(c, x);
        let n = choose|n: TreeView| #[trigger] tree_laws::within(c, n) && own(n).contains(x);
        tree_laws::lemma_inside(t, c, n);
        assert(tree_laws::within(t, n) && own(n).contains(x));
    }
    assert(tree_laws::within(t, t));
}

proof fn lemma_py_bases(s: Seq<TreeView>, class: Seq<char>, x: FactView)
    ensures
        python_indexer::py_bases(s, class).contains(x) <==> tree_laws::given(s, |c: TreeView| python_indexer::py_base(c, class), x),
{
    let f = |c: TreeView| python_indexer::py_base(c, class);
    lemma_py_bases_gather(s, class);
    tree_laws::lemma_gathered(s, f, x);
}

proof fn lemma_py_bases_gather(s: Seq<TreeView>, class: Seq<char>)
    ensures
        python_indexer::py_bases(s, class) == tree_laws::gathered(s, |c: TreeView| python_indexer::py_base(c, class)),
    decreases s.len(),
{
    let f = |c: TreeView| python_indexer::py_base(c, class);
    if s.len() > 0 {
        lemma_py_bases_gather(s.drop_last(), class);
    }
}

proof fn lemma_py_bodies(s: Seq<TreeView>, key: Seq<char>, class: Seq<char>, x: FactView)
    ensures
        python_indexer::py_bodies(s, key, class).contains(x) <==> tree_laws::given(s, |c: TreeView| if c.kind == "block"@ {
            python_indexer::py_body(c, key, class)
        } else {
            Seq::empty()
        }, x),
{
    let f = |c: TreeView| if c.kind == "block"@ {
            python_indexer::py_body(c, key, class)
        } else {
            Seq::empty()
        };
    lemma_py_bodies_gather(s, key, class);
    tree_laws::lemma_gathered(s, f, x);
}

proof fn lemma_py_bodies_gather(s: Seq<TreeView>, key: Seq<char>, class: Seq<char>)
    ensures
        python_indexer::py_bodies(s, key, class) == tree_laws::gathered(s, |c: TreeView| if c.kind == "block"@ {
            python_indexer::py_body(c, key, class)
        } else {
            Seq::empty()
        }),
    decreases s.len(),
{
    let f = |c: TreeView| if c.kind == "block"@ {
            python_indexer::py_body(c, key, class)
        } else {
            Seq::empty()
        };
    if s.len() > 0 {
        lemma_py_bodies_gather(s.drop_last(), key, class);
        assert(tree_laws::gathered(s.drop_last(), f) + Seq::<FactView>::empty() =~= tree_laws::gathered(s.drop_last(), f));
    }
}

proof fn lemma_py_visit_all(s: Seq<TreeView>, path: Seq<char>, in_class: bool, class: Seq<char>, blocks_only: bool, x: FactView)
    ensures
        python_indexer::py_visit_all(s, path, in_class, class, blocks_only).contains(x) <==> tree_laws::given(s, |c: TreeView| if !blocks_only || c.kind == "block"@ {
            python_indexer::py_visit(c, path, in_class, class)
        } else {
            Seq::empty()
        }, x),
{
    let f = |c: TreeView| if !blocks_only || c.kind == "block"@ {
            python_indexer::py_visit(c, path, in_class, class)
        } else {
            Seq::empty()
        };
    lemma_py_visit_all_gather(s, path, in_class, class, blocks_only);
    tree_laws::lemma_gathered(s, f, x);
}

proof fn lemma_py_visit_all_gather(s: Seq<TreeView>, path: Seq<char>, in_class: bool, class: Seq<char>, blocks_only: bool)
    ensures
        python_indexer::py_visit_all(s, path, in_class, class, blocks_only) == tree_laws::gathered(s, |c: TreeView| if !blocks_only || c.kind == "block"@ {
            python_indexer::py_visit(c, path, in_class, class)
        } else {
            Seq::empty()
        }),
    decreases s.len(),
{
    let f = |c: TreeView| if !blocks_only || c.kind == "block"@ {
            python_indexer::py_visit(c, path, in_class, class)
        } else {
            Seq::empty()
        };
    if s.len() > 0 {
        lemma_py_visit_all_gather(s.drop_last(), path, in_class, class, blocks_only);
        assert(tree_laws::gathered(s.drop_last(), f) + Seq::<FactView>::empty() =~= tree_laws::gathered(s.drop_last(), f));
    }
}

proof fn lemma_py_statement_calls(s: Seq<TreeView>, caller: Seq<char>, x: FactView)
    ensures
        python_indexer::py_statement_calls(s, caller).contains(x) <==> tree_laws::given(s, |c: TreeView| if c.kind == "expression_statement"@ {
            python_indexer::py_calls(c, caller)
        } else {
            Seq::empty()
        }, x),
{
    let f = |c: TreeView| if c.kind == "expression_statement"@ {
            python_indexer::py_calls(c, caller)
        } else {
            Seq::empty()
        };
    lemma_py_statement_calls_gather(s, caller);
    tree_laws::lemma_gathered(s, f, x);
}

proof fn lemma_py_statement_calls_gather(s: Seq<TreeView>, caller: Seq<char>)
    ensures
        python_indexer::py_statement_calls(s, caller) == tree_laws::gathered(s, |c: TreeView| if c.kind == "expression_statement"@ {
            python_indexer::py_calls(c, caller)
        } else {
            Seq::empty()
        }),
    decreases s.len(),
{
    let f = |c: TreeView| if c.kind == "expression_statement"@ {
            python_indexer::py_calls(c, caller)
        } else {
            Seq::empty()
        };
    if s.len() > 0 {
        lemma_py_statement_calls_gather(s.drop_last(), caller);
        assert(tree_laws::gathered(s.drop_last(), f) + Seq::<FactView>::empty() =~= tree_laws::gathered(s.drop_last(), f));
    }
}

/// A node that is a name or a chain of attributes, and the chain that it is.
pub open spec fn py_chain(t: TreeView, r: ReceiverView) -> bool
    decreases r,
{
    match r {
        ReceiverView::Bare(n) => t.kind == "identifier"@ && n == t.text,
        ReceiverView::Attr { object, name } => t.kind == "attribute"@ && (match (
            syntax::field_of(t, "object"@),
            syntax::field_of(t, "attribute"@),
        ) {
            (Some(o), Some(p)) => p.text == name && py_chain(o, *object),
            _ => false,
        }),
    }
}

/// What a node calls is the chain that it is, and nothing else.
pub proof fn law_python_chain(t: TreeView, r: ReceiverView)
    ensures
        python_indexer::py_receiver(t) == Some(r) <==> py_chain(t, r),
    decreases t,
{
    reveal_strlit("identifier");
    reveal_strlit("attribute");
    assert("identifier"@.len() != "attribute"@.len());
    syntax::lemma_field_smaller(t, "object"@);
    if let Some(o) = syntax::field_of(t, "object"@) {
        if let ReceiverView::Attr { object, name } = r {
            law_python_chain(o, *object);
        }
        if let Some(q) = python_indexer::py_receiver(o) {
            law_python_chain(o, q);
        }
    }
}

/// The name of a type: that of a plain name is its text without the space around it, that of an
/// attribute is the attribute; no other node names one.
pub proof fn law_python_type_names(t: TreeView, a: TreeView)
    ensures
        t.kind == "identifier"@ ==> python_indexer::py_type_of(t) == (if text::trimmed(t.text).len() > 0 {
            Some(text::trimmed(t.text))
        } else {
            None
        }),
        t.kind == "attribute"@ && syntax::field_of(t, "attribute"@) == Some(a) && text::trimmed(a.text).len()
            > 0 ==> python_indexer::py_type_of(t) == Some(text::trimmed(a.text)),
        t.kind != "identifier"@ && t.kind != "attribute"@ ==> python_indexer::py_type_of(t) is None,
{
    reveal_strlit("identifier");
    reveal_strlit("attribute");
    assert("identifier"@.len() != "attribute"@.len());
}

/// What an annotation states: a name is itself, an attribute is the text behind its last point, a type is
/// what its first part states; no other node states anything.
pub proof fn law_python_annotations(t: TreeView, i: int)
    ensures
        t.kind == "identifier"@ ==> python_indexer::py_annotation(t) == Some(t.text),
        t.kind == "attribute"@ ==> python_indexer::py_annotation(t) == Some(text::pieces(t.text, '.').last()),
        t.kind == "type"@ && tree_laws::first_named(t.children, i) ==> python_indexer::py_annotation(t)
            == python_indexer::py_annotation(t.children[i]),
        t.kind != "identifier"@ && t.kind != "attribute"@ && t.kind != "type"@
            ==> python_indexer::py_annotation(t) is None,
{
    reveal_strlit("identifier");
    reveal_strlit("attribute");
    reveal_strlit("type");
    assert("identifier"@.len() == 10 && "attribute"@.len() == 9 && "type"@.len() == 4);
    if tree_laws::first_named(t.children, i) {
        tree_laws::law_named_nodes_are_counted(t.children, i, 0);
    }
}

/// A node calls the end of a chain.
pub open spec fn py_call(n: TreeView, r: ReceiverView) -> bool {
    &&& n.kind == "call"@
    &&& match syntax::field_of(n, "function"@) {
        Some(f) => py_chain(f, r),
        None => false,
    }
    &&& tree_laws::end_of_chain(r) != "isinstance"@ && tree_laws::end_of_chain(r) != "print"@
        && tree_laws::end_of_chain(r) != "super"@
}

/// A node asks whether something is of a type, and the node of that type.
pub open spec fn py_asks(n: TreeView, at: TreeView) -> bool {
    &&& n.kind == "call"@
    &&& match (syntax::field_of(n, "function"@), syntax::field_of(n, "arguments"@)) {
        (Some(f), Some(a)) => syntax::nth_named(a.children, 1) == Some(at) && exists|r: ReceiverView| #[trigger]
            py_chain(f, r) && tree_laws::end_of_chain(r) == "isinstance"@,
        _ => false,
    }
}

/// Something is called inside a node.
pub open spec fn py_calls_in(b: TreeView, r: ReceiverView, span: SourceSpan) -> bool {
    exists|n: TreeView| #[trigger] tree_laws::within(b, n) && py_call(n, r) && span == n.span
}

/// A type is asked for inside a node.
pub open spec fn py_asks_in(b: TreeView, name: Seq<char>, span: SourceSpan) -> bool {
    exists|n: TreeView, at: TreeView| #[trigger]
        tree_laws::within(b, n) && #[trigger] py_asks(n, at) && python_indexer::py_type_of(at) == Some(name)
            && span == at.span
}

proof fn lemma_type_use(at: TreeView, owner: Seq<char>, x: FactView)
    ensures
        python_indexer::py_type_use(at, owner).contains(x) <==> match x {
            FactView::Use(u) => u.owner == owner && python_indexer::py_type_of(at) == Some(u.type_ref)
                && u.span == at.span,
            _ => false,
        },
{
    if let Some(n) = python_indexer::py_type_of(at) {
        tree_laws::lemma_one(FactView::Use(UseView { owner, type_ref: n, span: at.span }), x);
    }
}

proof fn lemma_own_call(n: TreeView, caller: Seq<char>, x: FactView)
    ensures
        python_indexer::py_own_calls(n, caller).contains(x) <==> match x {
            FactView::Call(c) => c.caller == caller && py_call(n, c.callee) && c.span == n.span,
            FactView::Use(u) => u.owner == caller && exists|at: TreeView| #[trigger]
                py_asks(n, at) && python_indexer::py_type_of(at) == Some(u.type_ref) && u.span == at.span,
            _ => false,
        },
{
    reveal_strlit("isinstance");
    reveal_strlit("print");
    reveal_strlit("super");
    assert("isinstance"@.len() == 10 && "print"@.len() == 5 && "super"@.len() == 5);
    if n.kind == "call"@ {
        if let Some(f) = syntax::field_of(n, "function"@) {
            if let FactView::Call(c) = x {
                law_python_chain(f, c.callee);
            }
            if let Some(r) = python_indexer::py_receiver(f) {
                law_python_chain(f, r);
                tree_laws::law_chain_ends(r);
                tree_laws::lemma_one(FactView::Call(CallView { caller, callee: r, span: n.span }), x);
                if tree_laws::end_of_chain(r) == "isinstance"@ {
                    if let Some(a) = syntax::field_of(n, "arguments"@) {
                        if let Some(at) = syntax::nth_named(a.children, 1) {
                            lemma_type_use(at, caller, x);
                            assert(py_asks(n, at));
                        }
                    }
                }
            }
            if let FactView::Use(u) = x {
                if exists|at: TreeView| #[trigger]
                    py_asks(n, at) && python_indexer::py_type_of(at) == Some(u.type_ref) && u.span == at.span {
                    let r = choose|r: ReceiverView| #[trigger]
                        py_chain(f, r) && tree_laws::end_of_chain(r) == "isinstance"@;
                    law_python_chain(f, r);
                }
            }
        }
    }
}

proof fn lemma_calls_hold(b: TreeView, caller: Seq<char>, x: FactView)
    ensures
        python_indexer::py_calls(b, caller).contains(x) <==> match x {
            FactView::Call(c) => c.caller == caller && py_calls_in(b, c.callee, c.span),
            FactView::Use(u) => u.owner == caller && py_asks_in(b, u.type_ref, u.span),
            _ => false,
        },
{
    let own = |n: TreeView| python_indexer::py_own_calls(n, caller);
    lemma_py_calls(b, caller, x);
    if tree_laws::found(b, own, x) {
        let n = choose|n: TreeView| #[trigger] tree_laws::within(b, n) && own(n).contains(x);
        lemma_own_call(n, caller, x);
        if let FactView::Use(u) = x {
            let at = choose|at: TreeView| #[trigger]
                py_asks(n, at) && python_indexer::py_type_of(at) == Some(u.type_ref) && u.span == at.span;
            assert(tree_laws::within(b, n) && py_asks(n, at));
        }
    }
    if let FactView::Call(c) = x {
        if c.caller == caller && py_calls_in(b, c.callee, c.span) {
            let n = choose|n: TreeView| #[trigger]
                tree_laws::within(b, n) && py_call(n, c.callee) && c.span == n.span;
            lemma_own_call(n, caller, x);
            assert(tree_laws::within(b, n) && own(n).contains(x));
        }
    }
    if let FactView::Use(u) = x {
        if u.owner == caller && py_asks_in(b, u.type_ref, u.span) {
            let (n, at) = choose|n: TreeView, at: TreeView| #[trigger]
                tree_laws::within(b, n) && #[trigger] py_asks(n, at) && python_indexer::py_type_of(at) == Some(
                    u.type_ref,
                ) && u.span == at.span;
            lemma_own_call(n, caller, x);
            assert(tree_laws::within(b, n) && own(n).contains(x));
        }
    }
}

/// A node of the parameters states a type.
pub open spec fn py_states(n: TreeView, at: TreeView) -> bool {
    ||| n.kind == "typed_parameter"@ && syntax::field_of(n, "type"@) == Some(at)
    ||| n.kind == "type"@ && at == n
}

/// A type is stated inside the child of a node in a field.
pub open spec fn py_states_in(t: TreeView, field: Seq<char>, name: Seq<char>, span: SourceSpan) -> bool {
    match syntax::field_of(t, field) {
        Some(p) => exists|n: TreeView, at: TreeView| #[trigger]
            tree_laws::within(p, n) && #[trigger] py_states(n, at) && python_indexer::py_type_of(at) == Some(
                name,
            ) && span == at.span,
        None => false,
    }
}

/// The child of a node in a field is a type.
pub open spec fn py_states_at(t: TreeView, field: Seq<char>, name: Seq<char>, span: SourceSpan) -> bool {
    match syntax::field_of(t, field) {
        Some(p) => python_indexer::py_type_of(p) == Some(name) && span == p.span,
        None => false,
    }
}

proof fn lemma_types_at(t: TreeView, field: Seq<char>, owner: Seq<char>, x: FactView)
    ensures
        python_indexer::py_types_at(t, field, owner).contains(x) <==> match x {
            FactView::Use(u) => u.owner == owner && py_states_in(t, field, u.type_ref, u.span),
            _ => false,
        },
        python_indexer::py_type_use_at(t, field, owner).contains(x) <==> match x {
            FactView::Use(u) => u.owner == owner && py_states_at(t, field, u.type_ref, u.span),
            _ => false,
        },
{
    reveal_strlit("typed_parameter");
    reveal_strlit("type");
    assert("typed_parameter"@.len() == 15 && "type"@.len() == 4);
    if let Some(p) = syntax::field_of(t, field) {
        let own = |n: TreeView| python_indexer::py_own_types(n, owner);
        lemma_py_types(p, owner, x);
        lemma_type_use(p, owner, x);
        if tree_laws::found(p, own, x) {
            let n = choose|n: TreeView| #[trigger] tree_laws::within(p, n) && own(n).contains(x);
            let at = if n.kind == "typed_parameter"@ {
                syntax::field_of(n, "type"@)->0
            } else {
                n
            };
            lemma_type_use(at, owner, x);
            assert(tree_laws::within(p, n) && py_states(n, at));
        }
        if let FactView::Use(u) = x {
            if u.owner == owner && py_states_in(t, field, u.type_ref, u.span) {
                let (n, at) = choose|n: TreeView, at: TreeView| #[trigger]
                    tree_laws::within(p, n) && #[trigger] py_states(n, at) && python_indexer::py_type_of(at)
                        == Some(u.type_ref) && u.span == at.span;
                lemma_type_use(at, owner, x);
                assert(tree_laws::within(p, n) && own(n).contains(x));
            }
        }
    }
}

/// A value is made by a call, or is an attribute, and the name that its chain starts with.
pub open spec fn py_makes(v: TreeView, made: Seq<char>) -> bool {
    exists|f: TreeView, q: ReceiverView| #[trigger]
        py_chain(f, q) && made == tree_laws::start_of_chain(q) && {
            ||| v.kind == "call"@ && syntax::field_of(v, "function"@) == Some(f)
            ||| v.kind == "attribute"@ && f == v
        }
}

proof fn lemma_makes(v: TreeView, made: Seq<char>)
    ensures
        python_indexer::py_made_by(v) == Some(made) <==> py_makes(v, made),
{
    reveal_strlit("call");
    reveal_strlit("attribute");
    assert("call"@.len() == 4 && "attribute"@.len() == 9);
    let g = if v.kind == "call"@ {
        syntax::field_of(v, "function"@)
    } else {
        Some(v)
    };
    if let Some(f) = g {
        if let Some(q) = python_indexer::py_receiver(f) {
            law_python_chain(f, q);
            tree_laws::law_chain_ends(q);
        }
    }
    if py_makes(v, made) {
        let (f, q) = choose|f: TreeView, q: ReceiverView| #[trigger]
            py_chain(f, q) && made == tree_laws::start_of_chain(q) && {
                ||| v.kind == "call"@ && syntax::field_of(v, "function"@) == Some(f)
                ||| v.kind == "attribute"@ && f == v
            };
        law_python_chain(f, q);
        tree_laws::law_chain_ends(q);
    }
}

/// A node is an attribute of `self`.
pub open spec fn py_of_self(l: TreeView, field: Seq<char>) -> bool {
    l.kind == "attribute"@ && (match (syntax::field_of(l, "object"@), syntax::field_of(l, "attribute"@)) {
        (Some(o), Some(a)) => o.kind == "identifier"@ && o.text == "self"@ && a.text == field,
        _ => false,
    })
}

/// A node sets an attribute of `self`: to a value that is made, or with a type that is stated; a stated
/// type goes before the value's.
pub open spec fn py_sets(n: TreeView, field: Seq<char>, made: Seq<char>) -> bool {
    &&& made != "self"@
    &&& {
        ||| n.kind == "assignment"@ && (match (syntax::field_of(n, "left"@), syntax::field_of(n, "right"@)) {
            (Some(l), Some(v)) => py_of_self(l, field) && py_makes(v, made),
            _ => false,
        })
        ||| n.kind == "annotated_assignment"@ && (match syntax::field_of(n, "name"@) {
            Some(l) => py_of_self(l, field),
            None => false,
        }) && (match syntax::field_of(n, "type"@) {
            Some(a) => python_indexer::py_annotation(a) == Some(made) || python_indexer::py_annotation(a) is None
                && py_value_makes(n, made),
            None => py_value_makes(n, made),
        })
    }
}

/// The value of a node is made by a call, or is an attribute.
pub open spec fn py_value_makes(n: TreeView, made: Seq<char>) -> bool {
    match syntax::field_of(n, "value"@) {
        Some(v) => py_makes(v, made),
        None => false,
    }
}

proof fn lemma_own_fields(n: TreeView, class: Seq<char>, x: FactView)
    ensures
        python_indexer::py_own_fields(n, class).contains(x) <==> match x {
            FactView::Field { class: c, field, type_ref } => c == class && py_sets(n, field, type_ref),
            _ => false,
        },
{
    reveal_strlit("assignment");
    reveal_strlit("annotated_assignment");
    assert("assignment"@.len() == 10 && "annotated_assignment"@.len() == 20);
    if let FactView::Field { class: c, field, type_ref } = x {
        if let Some(v) = syntax::field_of(n, "right"@) {
            lemma_makes(v, type_ref);
        }
        if let Some(v) = syntax::field_of(n, "value"@) {
            lemma_makes(v, type_ref);
        }
    }
    if let (Some(field), Some(type_ref)) = (
        python_indexer::py_target(n),
        python_indexer::py_given_type(n),
    ) {
        tree_laws::lemma_one(FactView::Field { class, field, type_ref }, x);
    }
}

/// A node puts a value that is made on a list.
pub open spec fn py_puts(n: TreeView, list: Seq<char>, made: Seq<char>) -> bool {
    &&& n.kind == "call"@ && made != "self"@
    &&& match syntax::field_of(n, "function"@) {
        Some(f) => f.kind == "attribute"@ && (match (
            syntax::field_of(f, "attribute"@),
            syntax::field_of(f, "object"@),
        ) {
            (Some(m), Some(l)) => m.text == "append"@ && l.kind == "identifier"@ && l.text == list,
            _ => false,
        }),
        None => false,
    }
    &&& match syntax::field_of(n, "arguments"@) {
        Some(a) => exists|i: int| #[trigger] py_first_argument(a.children, i) && py_makes(a.children[i], made),
        None => false,
    }
}

/// `s[i]` is the first argument: the first node that has a name and is no comment.
pub open spec fn py_first_argument(s: Seq<TreeView>, i: int) -> bool {
    &&& 0 <= i < s.len() && s[i].named && s[i].kind != "comment"@
    &&& forall|j: int| 0 <= j < i ==> !((#[trigger] s[j]).named && s[j].kind != "comment"@)
}

proof fn lemma_first_argument(s: Seq<TreeView>)
    ensures
        forall|i: int| #[trigger]
            py_first_argument(s, i) ==> python_indexer::py_first_argument(s) == Some(s[i]),
        python_indexer::py_first_argument(s) is Some ==> exists|i: int| #[trigger] py_first_argument(s, i),
    decreases s.len(),
{
    if s.len() > 0 {
        let r = s.skip(1);
        lemma_first_argument(r);
        assert forall|j: int| 0 <= j < r.len() implies #[trigger] r[j] == s[j + 1] by {}
        if s[0].named && s[0].kind != "comment"@ {
            assert(py_first_argument(s, 0));
            assert forall|i: int| #[trigger] py_first_argument(s, i) implies i == 0 by {
                if i > 0 {
                    assert(s[0].named);
                }
            }
        } else {
            assert forall|i: int| #[trigger] py_first_argument(s, i) implies py_first_argument(r, i - 1)
                && r[i - 1] == s[i] by {
                assert forall|j: int| 0 <= j < i - 1 implies !((#[trigger] r[j]).named && r[j].kind
                    != "comment"@) by {
                    assert(r[j] == s[j + 1]);
                }
            }
            if python_indexer::py_first_argument(r) is Some {
                let i = choose|i: int| #[trigger] py_first_argument(r, i);
                assert forall|j: int| 0 <= j < i + 1 implies !((#[trigger] s[j]).named && s[j].kind
                    != "comment"@) by {
                    if j > 0 {
                        assert(s[j] == r[j - 1]);
                    }
                }
                assert(py_first_argument(s, i + 1));
            }
        }
    }
}

proof fn lemma_own_appends(n: TreeView, x: FactView)
    ensures
        python_indexer::py_own_appends(n).contains(x) <==> match x {
            FactView::Element { list, type_ref } => py_puts(n, list, type_ref),
            _ => false,
        },
{
    if let Some(a) = syntax::field_of(n, "arguments"@) {
        lemma_first_argument(a.children);
        if let Some(c) = python_indexer::py_first_argument(a.children) {
            let i = choose|i: int| #[trigger] py_first_argument(a.children, i);
            assert(a.children[i] == c);
            if let Some(made) = python_indexer::py_made_by(c) {
                lemma_makes(c, made);
            }
            if let FactView::Element { list, type_ref } = x {
                lemma_makes(c, type_ref);
            }
        }
    }
    if let (Some(list), Some(type_ref)) = (
        python_indexer::py_appended_list(n),
        python_indexer::py_argument_type(n),
    ) {
        tree_laws::lemma_one(FactView::Element { list, type_ref }, x);
    }
}

/// A loop runs over a list.
pub open spec fn py_loops_over(n: TreeView, var: Seq<char>, list: Seq<char>) -> bool {
    n.kind == "for_statement"@ && (match (syntax::field_of(n, "left"@), syntax::field_of(n, "right"@)) {
        (Some(l), Some(r)) => l.kind == "identifier"@ && r.kind == "identifier"@ && var == l.text && list
            == r.text,
        _ => false,
    })
}

proof fn lemma_own_loops(n: TreeView, function: Seq<char>, x: FactView)
    ensures
        python_indexer::py_own_loops(n, function).contains(x) <==> match x {
            FactView::LoopVar { function: f, var, list } => f == function && py_loops_over(n, var, list),
            _ => false,
        },
{
    if let (Some(l), Some(r)) = (syntax::field_of(n, "left"@), syntax::field_of(n, "right"@)) {
        tree_laws::lemma_one(FactView::LoopVar { function, var: l.text, list: r.text }, x);
    }
}

/// What the body of a function tells: what is called and asked for in it, what is put on lists, what
/// loops run over, and, in a method, what attributes of `self` are set to.
pub open spec fn py_body_tells(b: TreeView, key: Seq<char>, class: Seq<char>, x: FactView) -> bool {
    match x {
        FactView::Call(c) => c.caller == key && py_calls_in(b, c.callee, c.span),
        FactView::Use(u) => u.owner == key && py_asks_in(b, u.type_ref, u.span),
        FactView::Element { list, type_ref } => exists|n: TreeView| #[trigger]
            tree_laws::within(b, n) && py_puts(n, list, type_ref),
        FactView::LoopVar { function, var, list } => function == key && exists|n: TreeView| #[trigger]
            tree_laws::within(b, n) && py_loops_over(n, var, list),
        FactView::Field { class: c, field, type_ref } => class.len() > 0 && c == class && exists|n: TreeView|
            #[trigger] tree_laws::within(b, n) && py_sets(n, field, type_ref),
        _ => false,
    }
}

proof fn lemma_deep_facts(b: TreeView, key: Seq<char>, class: Seq<char>, x: FactView)
    ensures
        python_indexer::py_appends(b).contains(x) <==> x is Element && py_body_tells(b, key, class, x),
        python_indexer::py_loops(b, key).contains(x) <==> x is LoopVar && py_body_tells(b, key, class, x),
        class.len() > 0 ==> (python_indexer::py_fields(b, class).contains(x) <==> x is Field && py_body_tells(
            b,
            key,
            class,
            x,
        )),
{
    let appends = |n: TreeView| python_indexer::py_own_appends(n);
    let loops = |n: TreeView| python_indexer::py_own_loops(n, key);
    let fields = |n: TreeView| python_indexer::py_own_fields(n, class);
    lemma_py_appends(b, x);
    lemma_py_loops(b, key, x);
    lemma_py_fields(b, class, x);
    assert forall|n: TreeView| #[trigger] tree_laws::within(b, n) implies (appends(n).contains(x) <==> match x {
        FactView::Element { list, type_ref } => py_puts(n, list, type_ref),
        _ => false,
    }) && (loops(n).contains(x) <==> match x {
        FactView::LoopVar { function: f, var, list } => f == key && py_loops_over(n, var, list),
        _ => false,
    }) && (fields(n).contains(x) <==> match x {
        FactView::Field { class: c, field, type_ref } => c == class && py_sets(n, field, type_ref),
        _ => false,
    }) by {
        lemma_own_appends(n, x);
        lemma_own_loops(n, key, x);
        lemma_own_fields(n, class, x);
    }
}

proof fn lemma_body(b: TreeView, key: Seq<char>, class: Seq<char>, x: FactView)
    ensures
        python_indexer::py_body(b, key, class).contains(x) <==> py_body_tells(b, key, class, x),
{
    let p = python_indexer::py_appends(b);
    let q = python_indexer::py_loops(b, key);
    let r = python_indexer::py_calls(b, key);
    let s = if class.len() > 0 {
        python_indexer::py_fields(b, class)
    } else {
        Seq::empty()
    };
    tree_laws::lemma_both(p + q + r, s, x);
    tree_laws::lemma_both(p + q, r, x);
    tree_laws::lemma_both(p, q, x);
    lemma_calls_hold(b, key, x);
    lemma_deep_facts(b, key, class, x);
}

/// The key of a name, in a class or not.
pub open spec fn py_named(in_class: bool, class: Seq<char>, name: Seq<char>) -> Seq<char> {
    if in_class {
        class + "."@ + name
    } else {
        name
    }
}

/// A function or a class `d` stands in `t`, and the class that it stands in: at the top of a file, in a
/// block, behind decorators, or in the block of a class.
pub open spec fn py_placed(
    t: TreeView,
    in_class: bool,
    class: Seq<char>,
    d: TreeView,
    d_in_class: bool,
    d_class: Seq<char>,
) -> bool
    decreases t,
{
    if t.kind == "module"@ || t.kind == "block"@ || t.kind == "decorated_definition"@ {
        exists|i: int|
            0 <= i < t.children.len() && t.children[i].named && py_placed(
                #[trigger] t.children[i],
                in_class,
                class,
                d,
                d_in_class,
                d_class,
            )
    } else if t.kind == "class_definition"@ {
        ||| d == t && d_in_class == in_class && d_class == class
        ||| exists|i: int|
            0 <= i < t.children.len() && t.children[i].named && t.children[i].kind == "block"@ && py_placed(
                #[trigger] t.children[i],
                true,
                py_named(in_class, class, syntax::field_text(t, "name"@)),
                d,
                d_in_class,
                d_class,
            )
    } else if t.kind == "function_definition"@ {
        d == t && d_in_class == in_class && d_class == class
    } else {
        false
    }
}

/// What a function or a class tells.
pub open spec fn py_tells(d: TreeView, path: Seq<char>, in_class: bool, class: Seq<char>, x: FactView) -> bool {
    let key = py_named(in_class, class, syntax::field_text(d, "name"@));
    if d.kind == "class_definition"@ {
        match x {
            FactView::Symbol(s) => tree_laws::stands_for(s, path, key, NodeKind::Class, d.span),
            FactView::Extends(e) => e.class == key && e.base != "object"@ && (match syntax::field_of(
                d,
                "superclasses"@,
            ) {
                Some(b) => exists|c: TreeView| #[trigger]
                    tree_laws::child_of(b, c) && python_indexer::py_type_of(c) == Some(e.base) && e.span
                        == c.span,
                None => false,
            }),
            _ => false,
        }
    } else {
        ||| match x {
            FactView::Symbol(s) => tree_laws::stands_for(s, path, key, NodeKind::Function, d.span),
            FactView::Use(u) => u.owner == key && (py_states_in(d, "parameters"@, u.type_ref, u.span)
                || py_states_at(d, "return_type"@, u.type_ref, u.span)),
            _ => false,
        }
        ||| exists|b: TreeView| #[trigger]
            tree_laws::child_of(d, b) && b.kind == "block"@ && py_body_tells(
                b,
                key,
                if in_class {
                    class
                } else {
                    Seq::empty()
                },
                x,
            )
    }
}

proof fn lemma_kinds()
    ensures
        "module"@.len() == 6,
        "block"@.len() == 5,
        "decorated_definition"@.len() == 20,
        "class_definition"@.len() == 16,
        "function_definition"@.len() == 19,
        "expression_statement"@.len() == 20,
        "expression_statement"@[0] == 'e',
{
    reveal_strlit("module");
    reveal_strlit("block");
    reveal_strlit("decorated_definition");
    reveal_strlit("class_definition");
    reveal_strlit("function_definition");
    reveal_strlit("expression_statement");
}

proof fn lemma_function(d: TreeView, path: Seq<char>, in_class: bool, class: Seq<char>, x: FactView)
    requires
        d.kind == "function_definition"@,
    ensures
        python_indexer::py_function(d, path, in_class, class).contains(x) <==> py_tells(
            d,
            path,
            in_class,
            class,
            x,
        ),
{
    lemma_kinds();
    let key = py_named(in_class, class, syntax::field_text(d, "name"@));
    let inner = if in_class {
        class
    } else {
        Seq::empty()
    };
    let s = FactView::Symbol(file_index::symbol_at(path, key, NodeKind::Function, d.span));
    let a = python_indexer::py_types_at(d, "parameters"@, key);
    let b = python_indexer::py_type_use_at(d, "return_type"@, key);
    let c = python_indexer::py_bodies(d.children, key, inner);
    tree_laws::lemma_both(seq![s] + a + b, c, x);
    tree_laws::lemma_both(seq![s] + a, b, x);
    tree_laws::lemma_both(seq![s], a, x);
    tree_laws::lemma_one(s, x);
    lemma_types_at(d, "parameters"@, key, x);
    lemma_types_at(d, "return_type"@, key, x);
    if let FactView::Symbol(q) = x {
        if tree_laws::stands_for(q, path, key, NodeKind::Function, d.span) {
            assert(q =~= s->Symbol_0);
        }
    }
    let f = |c: TreeView|
        if c.kind == "block"@ {
            python_indexer::py_body(c, key, inner)
        } else {
            Seq::empty()
        };
    lemma_py_bodies(d.children, key, inner, x);
    if tree_laws::given(d.children, f, x) {
        let k = choose|k: TreeView| #[trigger] d.children.contains(k) && k.named && f(k).contains(x);
        lemma_body(k, key, inner, x);
        assert(tree_laws::child_of(d, k));
    }
    if exists|k: TreeView| #[trigger]
        tree_laws::child_of(d, k) && k.kind == "block"@ && py_body_tells(k, key, inner, x) {
        let k = choose|k: TreeView| #[trigger]
            tree_laws::child_of(d, k) && k.kind == "block"@ && py_body_tells(k, key, inner, x);
        lemma_body(k, key, inner, x);
        assert(d.children.contains(k) && k.named && f(k).contains(x));
    }
}

proof fn lemma_class(d: TreeView, path: Seq<char>, in_class: bool, class: Seq<char>, x: FactView)
    requires
        d.kind == "class_definition"@,
    ensures
        python_indexer::py_class(
            d,
            path,
            py_named(in_class, class, syntax::field_text(d, "name"@)),
        ).contains(x) <==> py_tells(d, path, in_class, class, x),
{
    let key = py_named(in_class, class, syntax::field_text(d, "name"@));
    let s = FactView::Symbol(file_index::symbol_at(path, key, NodeKind::Class, d.span));
    let rest = match syntax::field_of(d, "superclasses"@) {
        Some(b) => python_indexer::py_bases(b.children, key),
        None => Seq::empty(),
    };
    tree_laws::lemma_both(seq![s], rest, x);
    tree_laws::lemma_one(s, x);
    if let FactView::Symbol(q) = x {
        if tree_laws::stands_for(q, path, key, NodeKind::Class, d.span) {
            assert(q =~= s->Symbol_0);
        }
    }
    if let Some(b) = syntax::field_of(d, "superclasses"@) {
        let f = |c: TreeView| python_indexer::py_base(c, key);
        lemma_py_bases(b.children, key, x);
        if tree_laws::given(b.children, f, x) {
            let c = choose|c: TreeView| #[trigger] b.children.contains(c) && c.named && f(c).contains(x);
            lemma_base(c, key, x);
            assert(tree_laws::child_of(b, c));
        }
        if let FactView::Extends(e) = x {
            if py_tells(d, path, in_class, class, x) {
                let c = choose|c: TreeView| #[trigger]
                    tree_laws::child_of(b, c) && python_indexer::py_type_of(c) == Some(e.base) && e.span
                        == c.span;
                lemma_base(c, key, x);
                assert(b.children.contains(c) && c.named && f(c).contains(x));
            }
        }
    }
}

proof fn lemma_base(c: TreeView, class: Seq<char>, x: FactView)
    ensures
        python_indexer::py_base(c, class).contains(x) <==> match x {
            FactView::Extends(e) => e.class == class && e.base != "object"@ && python_indexer::py_type_of(c)
                == Some(e.base) && e.span == c.span,
            _ => false,
        },
{
    if let Some(base) = python_indexer::py_type_of(c) {
        tree_laws::lemma_one(FactView::Extends(ExtendsView { class, base, span: c.span }), x);
    }
}

/// A function or a class of a tree tells something.
pub open spec fn py_told_in(t: TreeView, path: Seq<char>, in_class: bool, class: Seq<char>, x: FactView) -> bool {
    exists|d: TreeView, d_in_class: bool, d_class: Seq<char>| #[trigger]
        py_placed(t, in_class, class, d, d_in_class, d_class) && py_tells(d, path, d_in_class, d_class, x)
}

/// A function or a class among the children of a node tells something.
spec fn told_below(
    s: Seq<TreeView>,
    path: Seq<char>,
    in_class: bool,
    class: Seq<char>,
    blocks_only: bool,
    x: FactView,
) -> bool {
    exists|c: TreeView| #[trigger]
        s.contains(c) && c.named && (!blocks_only || c.kind == "block"@) && py_told_in(
            c,
            path,
            in_class,
            class,
            x,
        )
}

proof fn lemma_visit_all(
    b: TreeView,
    path: Seq<char>,
    in_class: bool,
    class: Seq<char>,
    blocks_only: bool,
    x: FactView,
)
    ensures
        python_indexer::py_visit_all(b.children, path, in_class, class, blocks_only).contains(x)
            <==> told_below(b.children, path, in_class, class, blocks_only, x),
    decreases b, 0nat,
{
    let f = |c: TreeView|
        if !blocks_only || c.kind == "block"@ {
            python_indexer::py_visit(c, path, in_class, class)
        } else {
            Seq::empty()
        };
    lemma_py_visit_all(b.children, path, in_class, class, blocks_only, x);
    if tree_laws::given(b.children, f, x) {
        let c = choose|c: TreeView| #[trigger] b.children.contains(c) && c.named && f(c).contains(x);
        tree_laws::lemma_child_smaller(b, c);
        lemma_visit(c, path, in_class, class, x);
    }
    if told_below(b.children, path, in_class, class, blocks_only, x) {
        let c = choose|c: TreeView| #[trigger]
            b.children.contains(c) && c.named && (!blocks_only || c.kind == "block"@) && py_told_in(
                c,
                path,
                in_class,
                class,
                x,
            );
        tree_laws::lemma_child_smaller(b, c);
        lemma_visit(c, path, in_class, class, x);
        assert(b.children.contains(c) && c.named && f(c).contains(x));
    }
}

proof fn lemma_visit(t: TreeView, path: Seq<char>, in_class: bool, class: Seq<char>, x: FactView)
    ensures
        python_indexer::py_visit(t, path, in_class, class).contains(x) <==> py_told_in(
            t,
            path,
            in_class,
            class,
            x,
        ),
    decreases t, 1nat,
{
    lemma_kinds();
    let key = py_named(in_class, class, syntax::field_text(t, "name"@));
    if t.kind == "module"@ || t.kind == "block"@ || t.kind == "decorated_definition"@ {
        lemma_visit_all(t, path, in_class, class, false, x);
        lemma_told_below(t, path, in_class, class, in_class, class, x);
    } else if t.kind == "class_definition"@ {
        lemma_visit_all(t, path, true, key, true, x);
        lemma_class(t, path, in_class, class, x);
        tree_laws::lemma_both(
            python_indexer::py_class(t, path, key),
            python_indexer::py_visit_all(t.children, path, true, key, true),
            x,
        );
        assert(py_placed(t, in_class, class, t, in_class, class));
        lemma_told_below(t, path, in_class, class, true, key, x);
    } else if t.kind == "function_definition"@ {
        lemma_function(t, path, in_class, class, x);
        assert(py_placed(t, in_class, class, t, in_class, class));
    }
}

proof fn lemma_told_below(
    t: TreeView,
    path: Seq<char>,
    in_class: bool,
    class: Seq<char>,
    inner: bool,
    inner_class: Seq<char>,
    x: FactView,
)
    requires
        t.kind == "module"@ || t.kind == "block"@ || t.kind == "decorated_definition"@ || t.kind
            == "class_definition"@,
        t.kind != "class_definition"@ ==> inner == in_class && inner_class == class,
        t.kind == "class_definition"@ ==> inner && inner_class == py_named(
            in_class,
            class,
            syntax::field_text(t, "name"@),
        ),
    ensures
        py_told_in(t, path, in_class, class, x) <==> told_below(
            t.children,
            path,
            inner,
            inner_class,
            t.kind == "class_definition"@,
            x,
        ) || t.kind == "class_definition"@ && py_tells(t, path, in_class, class, x),
{
    lemma_kinds();
    let only = t.kind == "class_definition"@;
    if told_below(t.children, path, inner, inner_class, only, x) {
        let c = choose|c: TreeView| #[trigger]
            t.children.contains(c) && c.named && (!only || c.kind == "block"@) && py_told_in(
                c,
                path,
                inner,
                inner_class,
                x,
            );
        let (d, p, q) = choose|d: TreeView, p: bool, q: Seq<char>| #[trigger]
            py_placed(c, inner, inner_class, d, p, q) && py_tells(d, path, p, q, x);
        let i = choose|i: int| 0 <= i < t.children.len() && t.children[i] == c;
        assert(t.children[i].named && py_placed(t.children[i], inner, inner_class, d, p, q));
        assert(py_placed(t, in_class, class, d, p, q));
    }
    if only && py_tells(t, path, in_class, class, x) {
        assert(py_placed(t, in_class, class, t, in_class, class));
    }
    if py_told_in(t, path, in_class, class, x) {
        let (d, p, q) = choose|d: TreeView, p: bool, q: Seq<char>| #[trigger]
            py_placed(t, in_class, class, d, p, q) && py_tells(d, path, p, q, x);
        if !(only && d == t && p == in_class && q == class) {
            let i = choose|i: int|
                0 <= i < t.children.len() && t.children[i].named && (!only || t.children[i].kind == "block"@)
                    && py_placed(#[trigger] t.children[i], inner, inner_class, d, p, q);
            let c = t.children[i];
            assert(t.children.contains(c) && py_told_in(c, path, inner, inner_class, x));
        }
    }
}

/// What stands at the top of a file calls or asks for something; both are the file's.
pub open spec fn py_top_tells(t: TreeView, x: FactView) -> bool {
    exists|s: TreeView|
        #![trigger py_top(t, s)]
        py_top(t, s) && match x {
            FactView::Call(c) => c.caller == "$file"@ && py_calls_in(s, c.callee, c.span),
            FactView::Use(u) => u.owner == "$file"@ && py_asks_in(s, u.type_ref, u.span),
            _ => false,
        }
}

/// A statement at the top of a file.
pub open spec fn py_top(t: TreeView, s: TreeView) -> bool {
    &&& s.kind == "expression_statement"@
    &&& s == t || (t.kind == "module"@ || t.kind == "block"@) && tree_laws::child_of(t, s)
}

proof fn lemma_top(t: TreeView, x: FactView)
    ensures
        python_indexer::py_module_calls(t).contains(x) <==> py_top_tells(t, x),
{
    lemma_kinds();
    let f = |c: TreeView|
        if c.kind == "expression_statement"@ {
            python_indexer::py_calls(c, "$file"@)
        } else {
            Seq::empty()
        };
    lemma_py_statement_calls(t.children, "$file"@, x);
    lemma_calls_hold(t, "$file"@, x);
    if t.kind == "expression_statement"@ {
        assert(py_top(t, t));
    } else if t.kind == "module"@ || t.kind == "block"@ {
        if tree_laws::given(t.children, f, x) {
            let s = choose|s: TreeView| #[trigger] t.children.contains(s) && s.named && f(s).contains(x);
            lemma_calls_hold(s, "$file"@, x);
            assert(tree_laws::child_of(t, s));
            assert(py_top(t, s));
        }
        if py_top_tells(t, x) {
            let s = choose|s: TreeView|
                #![trigger py_top(t, s)]
                py_top(t, s) && match x {
                    FactView::Call(c) => c.caller == "$file"@ && py_calls_in(s, c.callee, c.span),
                    FactView::Use(u) => u.owner == "$file"@ && py_asks_in(s, u.type_ref, u.span),
                    _ => false,
                };
            lemma_calls_hold(s, "$file"@, x);
            assert(t.children.contains(s) && s.named && f(s).contains(x));
        }
    }
}

/// The facts that a file gives.
pub open spec fn py_facts(path: Seq<char>, content: Seq<char>, t: TreeView) -> Seq<FactView> {
    seq![FactView::Symbol(file_index::file_symbol(path, content))] + python_indexer::py_visit(
        t,
        path,
        false,
        Seq::empty(),
    ) + python_indexer::py_module_calls(t)
}

proof fn lemma_facts(path: Seq<char>, content: Seq<char>, t: TreeView, x: FactView)
    ensures
        py_facts(path, content, t).contains(x) <==> {
            ||| x == FactView::Symbol(file_index::file_symbol(path, content))
            ||| py_told_in(t, path, false, Seq::empty(), x)
            ||| py_top_tells(t, x)
        },
{
    let s = FactView::Symbol(file_index::file_symbol(path, content));
    let a = python_indexer::py_visit(t, path, false, Seq::empty());
    tree_laws::lemma_both(seq![s] + a, python_indexer::py_module_calls(t), x);
    tree_laws::lemma_both(seq![s], a, x);
    tree_laws::lemma_one(s, x);
    lemma_visit(t, path, false, Seq::empty(), x);
    lemma_top(t, x);
}

/// What the index of a file says, besides its symbols, its functions and classes say, and the statements
/// at its top: what is called however deep in a body is a call of the function that has it; the types
/// that a function states or asks for are uses by it; a class has the bases that it names, but for
/// `object`. Nothing else is called, used or a base.
pub proof fn law_python_index(
    path: Seq<char>,
    content: Seq<char>,
    t: TreeView,
    imports: Seq<ImportView>,
    c: CallView,
    u: UseView,
    e: ExtendsView,
)
    ensures
        ({
            let x = python_indexer::py_index(path, content, t, imports);
            &&& x.imports == imports
            &&& x.calls.contains(c) <==> py_top_tells(t, FactView::Call(c)) || exists|
                d: TreeView,
                in_class: bool,
                class: Seq<char>,
            | #[trigger]
                py_placed(t, false, Seq::empty(), d, in_class, class) && py_tells(
                    d,
                    path,
                    in_class,
                    class,
                    FactView::Call(c),
                )
            &&& x.uses.contains(u) <==> py_top_tells(t, FactView::Use(u)) || exists|
                d: TreeView,
                in_class: bool,
                class: Seq<char>,
            | #[trigger]
                py_placed(t, false, Seq::empty(), d, in_class, class) && py_tells(
                    d,
                    path,
                    in_class,
                    class,
                    FactView::Use(u),
                )
            &&& x.extends.contains(e) <==> exists|d: TreeView, in_class: bool, class: Seq<char>| #[trigger]
                py_placed(t, false, Seq::empty(), d, in_class, class) && py_tells(
                    d,
                    path,
                    in_class,
                    class,
                    FactView::Extends(e),
                )
        }),
{
    let facts = py_facts(path, content, t);
    tree_laws::law_index_knows_the_facts(facts, FactView::Call(c));
    tree_laws::law_index_knows_the_facts(facts, FactView::Use(u));
    tree_laws::law_index_knows_the_facts(facts, FactView::Extends(e));
    lemma_facts(path, content, t, FactView::Call(c));
    lemma_facts(path, content, t, FactView::Use(u));
    lemma_facts(path, content, t, FactView::Extends(e));
}

/// The symbols of a file: the file itself, and its functions and classes.
pub proof fn law_python_symbols(
    path: Seq<char>,
    content: Seq<char>,
    t: TreeView,
    imports: Seq<ImportView>,
    s: SymbolView,
)
    requires
        s.disambiguator == Seq::<char>::empty(),
    ensures
        tree_laws::lists(python_indexer::py_index(path, content, t, imports).symbols, s) <==> {
            ||| s.key == "$file"@ && s.name == path && s.kind == NodeKind::File && s.span == spans::whole_span(
                content,
            )
            ||| exists|d: TreeView, in_class: bool, class: Seq<char>| #[trigger]
                py_placed(t, false, Seq::empty(), d, in_class, class) && py_tells(
                    d,
                    path,
                    in_class,
                    class,
                    FactView::Symbol(s),
                )
        },
{
    let x = FactView::Symbol(s);
    let facts = py_facts(path, content, t);
    let given = file_index::with_facts(file_index::empty_index(), facts).symbols;
    tree_laws::law_index_knows_the_facts(facts, x);
    lemma_facts(path, content, t, x);
    assert forall|i: int| 0 <= i < given.len() implies (#[trigger] given[i]).disambiguator
        == Seq::<char>::empty() by {
        let y = FactView::Symbol(given[i]);
        assert(given.contains(given[i]));
        tree_laws::law_index_knows_the_facts(facts, y);
        lemma_facts(path, content, t, y);
    }
    tree_laws::lemma_listed(given, s);
    if s.key == "$file"@ && s.name == path && s.kind == NodeKind::File && s.span == spans::whole_span(
        content,
    ) {
        assert(s =~= file_index::file_symbol(path, content));
    }
}

/// A field has a type if a method of its class sets it, and the type is one that such a setting gives it;
/// what lists hold is what is put on them; and a loop over a list on which something was put before gives
/// its variable a type.
pub proof fn law_python_values(
    path: Seq<char>,
    content: Seq<char>,
    t: TreeView,
    imports: Seq<ImportView>,
    class: Seq<char>,
    field: Seq<char>,
    list: Seq<char>,
    type_ref: Seq<char>,
    v: TypedView,
)
    ensures
        ({
            let x = python_indexer::py_index(path, content, t, imports);
            let r = file_index::first_type(x.fields, class, field);
            &&& r is Some <==> exists|made: Seq<char>|
                #![trigger py_told_in(t, path, false, Seq::empty(), (FactView::Field { class, field, type_ref: made }))]
                py_told_in(
                    t,
                    path,
                    false,
                    Seq::empty(),
                    (FactView::Field { class, field, type_ref: made }),
                )
            &&& r is Some ==> py_told_in(
                t,
                path,
                false,
                Seq::empty(),
                (FactView::Field { class, field, type_ref: r->0 }),
            )
            &&& x.elements.contains(TypedView { owner: Seq::empty(), name: list, type_ref }) <==> py_told_in(
                t,
                path,
                false,
                Seq::empty(),
                (FactView::Element { list, type_ref }),
            )
            &&& x.locals.contains(v) <==> exists|j: int, k: int| #[trigger]
                tree_laws::runs_over(py_facts(path, content, t), v, j, k)
        }),
{
    let facts = py_facts(path, content, t);
    let x = python_indexer::py_index(path, content, t, imports);
    let r = file_index::first_type(x.fields, class, field);
    tree_laws::law_first_type_counts(facts, class, field);
    if r is Some {
        let k = choose|k: int| #[trigger] tree_laws::first_told(facts, class, field, k);
        assert(facts.contains(facts[k]));
        lemma_facts(path, content, t, facts[k]);
        assert(facts[k] == FactView::Field { class, field, type_ref: r->0 });
    }
    assert forall|made: Seq<char>|
        #![trigger py_told_in(t, path, false, Seq::empty(), (FactView::Field { class, field, type_ref: made }))]
        py_told_in(
            t,
            path,
            false,
            Seq::empty(),
            (FactView::Field { class, field, type_ref: made }),
        ) implies r is Some by {
        let f = FactView::Field { class, field, type_ref: made };
        lemma_facts(path, content, t, f);
        tree_laws::law_index_knows_the_facts(facts, f);
    }
    let e = FactView::Element { list, type_ref };
    lemma_facts(path, content, t, e);
    tree_laws::law_index_knows_the_facts(facts, e);
    tree_laws::law_loop_variables(facts, v);
}

} // verus!
