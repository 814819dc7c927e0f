//! Where nodes stand in a syntax tree, and what an index holds of the facts that a file gives.

use crate::file_index;
use crate::file_index::{FactView, IndexView, ReceiverView, SymbolView, TypedView};
use crate::graph::{NodeKind, SourceSpan};
use crate::syntax;
use crate::syntax::TreeView;
use vstd::prelude::*;

verus! {

/// `n` is `t` or stands somewhere inside it; what stands inside a node without a name is left out.
pub open spec fn within(t: TreeView, n: TreeView) -> bool
    decreases t,
{
    t == n || exists|i: int|
        0 <= i < t.children.len() && t.children[i].named && within(#[trigger] t.children[i], n)
}

/// A child with a name.
pub open spec fn child_of(t: TreeView, c: TreeView) -> bool {
    c.named && t.children.contains(c)
}

/// What the named nodes of a list give, one after the other.
pub open spec fn gathered<T>(s: Seq<TreeView>, f: spec_fn(TreeView) -> Seq<T>) -> Seq<T>
    decreases s.len(),
{
    if s.len() == 0 {
        Seq::empty()
    } else if s.last().named {
        gathered(s.drop_last(), f) + f(s.last())
    } else {
        gathered(s.drop_last(), f)
    }
}

/// What two lists hold together.
pub proof fn lemma_both<T>(a: Seq<T>, b: Seq<T>, x: T)
    ensures
        (a + b).contains(x) <==> a.contains(x) || b.contains(x),
{
    if a.contains(x) {
        let i = choose|i: int| 0 <= i < a.len() && a[i] == x;
        assert((a + b)[i] == x);
    }
    if b.contains(x) {
        let i = choose|i: int| 0 <= i < b.len() && b[i] == x;
        assert((a + b)[a.len() + i] == x);
    }
    if (a + b).contains(x) {
        let i = choose|i: int| 0 <= i < (a + b).len() && (a + b)[i] == x;
        if i < a.len() {
            assert(a[i] == x);
        } else {
            assert(b[i - a.len()] == x);
        }
    }
}

/// What a list of one holds.
pub proof fn lemma_one<T>(a: T, x: T)
    ensures
        seq![a].contains(x) <==> x == a,
{
    assert(seq![a][0] == a);
}

/// An element of a list is its last or among the others.
pub proof fn lemma_ends<T>(s: Seq<T>, x: T)
    requires
        s.len() > 0,
    ensures
        s.contains(x) <==> s.drop_last().contains(x) || x == s.last(),
{
    assert(s =~= s.drop_last() + seq![s.last()]);
    lemma_both(s.drop_last(), seq![s.last()], x);
    lemma_one(s.last(), x);
}

/// Some node of a list that has a name gives `x`.
pub open spec fn given<T>(s: Seq<TreeView>, f: spec_fn(TreeView) -> Seq<T>, x: T) -> bool {
    exists|c: TreeView| #[trigger] s.contains(c) && c.named && f(c).contains(x)
}

/// What was gathered was given.
pub proof fn lemma_gathered<T>(s: Seq<TreeView>, f: spec_fn(TreeView) -> Seq<T>, x: T)
    ensures
        gathered(s, f).contains(x) <==> given(s, f, x),
    decreases s.len(),
{
    if s.len() > 0 {
        let front = s.drop_last();
        lemma_gathered(front, f, x);
        if s.last().named {
            lemma_both(gathered(front, f), f(s.last()), x);
        }
        if given(s, f, x) {
            let c = choose|c: TreeView| #[trigger] s.contains(c) && c.named && f(c).contains(x);
            lemma_ends(s, c);
        }
        if given(front, f, x) {
            let c = choose|c: TreeView| #[trigger] front.contains(c) && c.named && f(c).contains(x);
            lemma_ends(s, c);
        }
        lemma_ends(s, s.last());
    }
}

/// Some node inside another gives `x`.
pub open spec fn found<T>(t: TreeView, f: spec_fn(TreeView) -> Seq<T>, x: T) -> bool {
    exists|n: TreeView| #[trigger] within(t, n) && f(n).contains(x)
}

/// A node inside a child stands inside the node.
pub proof fn lemma_inside(t: TreeView, c: TreeView, n: TreeView)
    requires
        child_of(t, c),
        within(c, n),
    ensures
        within(t, n),
{
    let i = choose|i: int| 0 <= i < t.children.len() && t.children[i] == c;
    assert(t.children[i].named && within(t.children[i], n));
}

/// The child of a node in which another stands.
pub proof fn lemma_below(t: TreeView, n: TreeView) -> (c: TreeView)
    requires
        within(t, n),
        t != n,
    ensures
        child_of(t, c),
        within(c, n),
        decreases_to!(t => c),
{
    let i = choose|i: int|
        0 <= i < t.children.len() && t.children[i].named && within(#[trigger] t.children[i], n);
    assert(decreases_to!(t => t.children));
    assert(decreases_to!(t.children => t.children[i]));
    t.children[i]
}

/// A child is smaller than its node.
pub proof fn lemma_child_smaller(t: TreeView, c: TreeView)
    requires
        t.children.contains(c),
    ensures
        decreases_to!(t => c),
{
    let i = choose|i: int| 0 <= i < t.children.len() && t.children[i] == c;
    assert(decreases_to!(t => t.children));
    assert(decreases_to!(t.children => t.children[i]));
}

/// An index knows a fact: it lists the call, the use or the base; it lists the symbol; it knows some
/// type of the field.
pub open spec fn knows(x: IndexView, f: FactView) -> bool {
    match f {
        FactView::Symbol(s) => x.symbols.contains(s),
        FactView::Call(c) => x.calls.contains(c),
        FactView::Use(u) => x.uses.contains(u),
        FactView::Extends(e) => x.extends.contains(e),
        FactView::Field { class, field, type_ref } => file_index::first_type(x.fields, class, field) is Some,
        FactView::Element { list, type_ref } => x.elements.contains(
            TypedView { owner: Seq::empty(), name: list, type_ref },
        ),
        FactView::LoopVar { function, var, list } => true,
    }
}

proof fn lemma_first_type_push(s: Seq<TypedView>, e: TypedView, owner: Seq<char>, name: Seq<char>)
    ensures
        file_index::first_type(s.push(e), owner, name) == (match file_index::first_type(s, owner, name) {
            Some(t) => Some(t),
            None => if e.owner == owner && e.name == name {
                Some(e.type_ref)
            } else {
                None
            },
        }),
    decreases s.len(),
{
    reveal_with_fuel(file_index::first_type, 2);
    if s.len() == 0 {
        assert(s.push(e).skip(1) =~= Seq::empty());
        assert(s.push(e)[0] == e);
    } else {
        assert(s.push(e).skip(1) =~= s.skip(1).push(e));
        assert(s.push(e)[0] == s[0]);
        lemma_first_type_push(s.skip(1), e, owner, name);
    }
}

/// What facts leave in an index: of each call, use and base, of each symbol and each element of a list
/// just those that are told; a field whose type is told at all is known.
pub proof fn law_index_knows_the_facts(facts: Seq<FactView>, f: FactView)
    ensures
        facts.contains(f) ==> knows(file_index::with_facts(file_index::empty_index(), facts), f),
        !(f is Field) && !(f is LoopVar) && knows(
            file_index::with_facts(file_index::empty_index(), facts),
            f,
        ) ==> facts.contains(f),
    decreases facts.len(),
{
    if facts.len() > 0 {
        let front = facts.drop_last();
        let x = file_index::with_facts(file_index::empty_index(), front);
        let last = facts.last();
        law_index_knows_the_facts(front, f);
        lemma_ends(facts, f);
        match last {
            FactView::Symbol(s) => {
                assert(x.symbols.push(s) =~= x.symbols + seq![s]);
                if let FactView::Symbol(a) = f {
                    lemma_both(x.symbols, seq![s], a);
                    lemma_one(s, a);
                }
            },
            FactView::Call(s) => {
                assert(x.calls.push(s) =~= x.calls + seq![s]);
                if let FactView::Call(a) = f {
                    lemma_both(x.calls, seq![s], a);
                    lemma_one(s, a);
                }
            },
            FactView::Use(s) => {
                assert(x.uses.push(s) =~= x.uses + seq![s]);
                if let FactView::Use(a) = f {
                    lemma_both(x.uses, seq![s], a);
                    lemma_one(s, a);
                }
            },
            FactView::Extends(s) => {
                assert(x.extends.push(s) =~= x.extends + seq![s]);
                if let FactView::Extends(a) = f {
                    lemma_both(x.extends, seq![s], a);
                    lemma_one(s, a);
                }
            },
            FactView::Field { class, field, type_ref } => {
                let e = TypedView { owner: class, name: field, type_ref };
                if let FactView::Field { class: c, field: d, type_ref: r } = f {
                    lemma_first_type_push(x.fields, e, c, d);
                }
            },
            FactView::Element { list, type_ref } => {
                let e = TypedView { owner: Seq::empty(), name: list, type_ref };
                assert(x.elements.push(e) =~= x.elements + seq![e]);
                if let FactView::Element { list: l, type_ref: r } = f {
                    let a = TypedView { owner: Seq::empty(), name: l, type_ref: r };
                    lemma_both(x.elements, seq![e], a);
                    lemma_one(e, a);
                }
            },
            FactView::LoopVar { function, var, list } => {},
        }
    }
}

/// The first type that facts tell of a field.
pub open spec fn first_told(facts: Seq<FactView>, owner: Seq<char>, name: Seq<char>, k: int) -> bool {
    &&& 0 <= k < facts.len()
    &&& facts[k] is Field && facts[k]->Field_class == owner && facts[k]->field == name
    &&& forall|j: int|
        0 <= j < k ==> !((#[trigger] facts[j]) is Field && facts[j]->Field_class == owner
            && facts[j]->field == name)
}

/// Of a field whose type is told more than once the first counts, and a field of which nothing is told
/// has no type.
pub proof fn law_first_type_counts(facts: Seq<FactView>, owner: Seq<char>, name: Seq<char>)
    ensures
        ({
            let x = file_index::with_facts(file_index::empty_index(), facts);
            &&& forall|k: int| #[trigger]
                first_told(facts, owner, name, k) ==> file_index::first_type(x.fields, owner, name)
                    == Some(facts[k]->Field_type_ref)
            &&& file_index::first_type(x.fields, owner, name) is Some ==> exists|k: int|
                #[trigger] first_told(facts, owner, name, k)
        }),
    decreases facts.len(),
{
    let x = file_index::with_facts(file_index::empty_index(), facts);
    if facts.len() > 0 {
        let front = facts.drop_last();
        let y = file_index::with_facts(file_index::empty_index(), front);
        let n = front.len() as int;
        let last = facts.last();
        law_first_type_counts(front, owner, name);
        if let FactView::Field { class, field, type_ref } = last {
            lemma_first_type_push(y.fields, TypedView { owner: class, name: field, type_ref }, owner, name);
        }
        assert forall|k: int| #[trigger] first_told(facts, owner, name, k) implies file_index::first_type(
            x.fields,
            owner,
            name,
        ) == Some(facts[k]->Field_type_ref) by {
            if k < n {
                assert forall|j: int| 0 <= j < k implies !((#[trigger] front[j]) is Field
                    && front[j]->Field_class == owner && front[j]->field == name) by {
                    assert(front[j] == facts[j]);
                }
                assert(first_told(front, owner, name, k));
            } else if file_index::first_type(y.fields, owner, name) is Some {
                let m = choose|m: int| #[trigger] first_told(front, owner, name, m);
                assert(facts[m] == front[m]);
            }
        }
        if file_index::first_type(x.fields, owner, name) is Some {
            if file_index::first_type(y.fields, owner, name) is Some {
                let m = choose|m: int| #[trigger] first_told(front, owner, name, m);
                assert forall|j: int| 0 <= j < m implies !((#[trigger] facts[j]) is Field
                    && facts[j]->Field_class == owner && facts[j]->field == name) by {
                    assert(front[j] == facts[j]);
                }
                assert(first_told(facts, owner, name, m));
            } else {
                assert forall|j: int| 0 <= j < n implies !((#[trigger] facts[j]) is Field
                    && facts[j]->Field_class == owner && facts[j]->field == name) by {
                    assert(front[j] == facts[j]);
                    if front[j] is Field && front[j]->Field_class == owner && front[j]->field == name {
                        assert(front.contains(front[j]));
                        law_index_knows_the_facts(front, front[j]);
                    }
                }
                assert(first_told(facts, owner, name, n));
            }
        }
    }
}

/// The last that facts before the `k`th tell of what a list holds.
pub open spec fn last_told(facts: Seq<FactView>, list: Seq<char>, j: int, k: int) -> bool {
    &&& 0 <= j < k <= facts.len()
    &&& facts[j] is Element && facts[j]->Element_list == list
    &&& forall|i: int| j < i < k ==> !((#[trigger] facts[i]) is Element && facts[i]->Element_list == list)
}

proof fn lemma_last_told(facts: Seq<FactView>, list: Seq<char>)
    ensures
        ({
            let x = file_index::with_facts(file_index::empty_index(), facts);
            let r = file_index::last_type(x.elements, Seq::empty(), list);
            &&& forall|j: int| #[trigger]
                last_told(facts, list, j, facts.len() as int) ==> r == Some(facts[j]->Element_type_ref)
            &&& r is Some ==> exists|j: int| #[trigger] last_told(facts, list, j, facts.len() as int)
        }),
    decreases facts.len(),
{
    let n = facts.len() as int;
    let x = file_index::with_facts(file_index::empty_index(), facts);
    if n > 0 {
        let front = facts.drop_last();
        let y = file_index::with_facts(file_index::empty_index(), front);
        let last = facts.last();
        lemma_last_told(front, list);
        if let FactView::Element { list: l, type_ref } = last {
            let e = TypedView { owner: Seq::empty(), name: l, type_ref };
            assert(x.elements.drop_last() =~= y.elements);
            assert(x.elements.last() == e);
        }
        let told = last is Element && last->Element_list == list;
        if told {
            assert(last_told(facts, list, n - 1, n));
            assert forall|j: int| #[trigger] last_told(facts, list, j, n) implies j == n - 1 by {
                if j < n - 1 {
                    assert(facts[n - 1] is Element);
                }
            }
        } else {
            assert forall|j: int| #[trigger] last_told(facts, list, j, n) implies last_told(
                front,
                list,
                j,
                n - 1,
            ) && front[j] == facts[j] by {
                assert forall|i: int| j < i < n - 1 implies !((#[trigger] front[i]) is Element
                    && front[i]->Element_list == list) by {
                    assert(front[i] == facts[i]);
                }
            }
            if file_index::last_type(y.elements, Seq::empty(), list) is Some {
                let j = choose|j: int| #[trigger] last_told(front, list, j, n - 1);
                assert forall|i: int| j < i < n implies !((#[trigger] facts[i]) is Element
                    && facts[i]->Element_list == list) by {
                    if i < n - 1 {
                        assert(front[i] == facts[i]);
                    }
                }
                assert(last_told(facts, list, j, n));
            }
        }
    }
}

/// A variable that runs over a list has the type of what was last put on the list before; a variable
/// that runs over a list on which nothing was put has none.
pub open spec fn runs_over(facts: Seq<FactView>, v: TypedView, j: int, k: int) -> bool {
    &&& 0 <= k < facts.len()
    &&& facts[k] is LoopVar && facts[k]->LoopVar_function == v.owner && facts[k]->LoopVar_var == v.name
    &&& last_told(facts, facts[k]->LoopVar_list, j, k)
    &&& facts[j]->Element_type_ref == v.type_ref
}

/// The variables of functions whose types are known: those that run over a list on which something was
/// put before, each with the type of what was put there last.
pub proof fn law_loop_variables(facts: Seq<FactView>, v: TypedView)
    ensures
        file_index::with_facts(file_index::empty_index(), facts).locals.contains(v) <==> exists|j: int, k: int|
            #[trigger] runs_over(facts, v, j, k),
    decreases facts.len(),
{
    let n = facts.len() as int;
    if n > 0 {
        let front = facts.drop_last();
        let y = file_index::with_facts(file_index::empty_index(), front);
        let x = file_index::with_facts(file_index::empty_index(), facts);
        law_loop_variables(front, v);
        assert forall|j: int, k: int| #[trigger] runs_over(front, v, j, k) implies runs_over(facts, v, j, k) by {
            lemma_told_before(facts, front[k]->LoopVar_list, j, k);
        }
        assert forall|j: int, k: int| k < n - 1 && #[trigger] runs_over(facts, v, j, k) implies runs_over(
            front,
            v,
            j,
            k,
        ) by {
            lemma_told_before(facts, facts[k]->LoopVar_list, j, k);
        }
        if let FactView::LoopVar { function, var, list } = facts.last() {
            lemma_last_told(front, list);
            let r = file_index::last_type(y.elements, Seq::empty(), list);
            assert forall|j: int| #[trigger] last_told(front, list, j, n - 1) <==> last_told(
                facts,
                list,
                j,
                n - 1,
            ) by {
                if 0 <= j < n - 1 {
                    lemma_told_before(facts, list, j, n - 1);
                }
            }
            if let Some(t) = r {
                let e = TypedView { owner: function, name: var, type_ref: t };
                assert(x.locals =~= y.locals + seq![e]);
                lemma_both(y.locals, seq![e], v);
                lemma_one(e, v);
                let j = choose|j: int| #[trigger] last_told(front, list, j, n - 1);
                assert(front[j] == facts[j]);
                if v == e {
                    assert(runs_over(facts, v, j, n - 1));
                }
            }
            if exists|j: int, k: int| #[trigger] runs_over(facts, v, j, k) {
                let (j, k) = choose|j: int, k: int| #[trigger] runs_over(facts, v, j, k);
                if k == n - 1 {
                    assert(last_told(front, list, j, n - 1));
                    assert(front[j] == facts[j]);
                }
            }
        } else {
            assert(x.locals == y.locals);
        }
    }
}

proof fn lemma_told_before(facts: Seq<FactView>, list: Seq<char>, j: int, k: int)
    requires
        0 <= j < k < facts.len(),
    ensures
        last_told(facts.drop_last(), list, j, k) <==> last_told(facts, list, j, k),
        facts.drop_last()[j] == facts[j],
        k < facts.len() - 1 ==> facts.drop_last()[k] == facts[k],
{
    let front = facts.drop_last();
    assert forall|i: int| 0 <= i < front.len() implies #[trigger] front[i] == facts[i] by {}
    if last_told(front, list, j, k) {
        assert forall|i: int| j < i < k implies !((#[trigger] facts[i]) is Element && facts[i]->Element_list
            == list) by {
            assert(front[i] == facts[i]);
        }
    }
}

/// Telling namesakes apart keeps every symbol, in its place, but for what tells it apart.
pub proof fn law_telling_apart_keeps_the_symbols(s: Seq<SymbolView>)
    ensures
        file_index::told_apart(s).len() == s.len(),
        forall|i: int|
            0 <= i < s.len() ==> (#[trigger] file_index::told_apart(s)[i]).key == s[i].key
                && file_index::told_apart(s)[i].name == s[i].name && file_index::told_apart(s)[i].kind
                == s[i].kind && file_index::told_apart(s)[i].span == s[i].span,
{
}

/// `s[i]` is the first node of a list that has a name.
pub open spec fn first_named(s: Seq<TreeView>, i: int) -> bool {
    0 <= i < s.len() && s[i].named && forall|j: int| 0 <= j < i ==> !(#[trigger] s[j]).named
}

/// The nodes of a list that have a name, counted: the first of all, and behind it those of the rest.
pub proof fn law_named_nodes_are_counted(s: Seq<TreeView>, i: int, n: nat)
    requires
        first_named(s, i),
    ensures
        syntax::nth_named(s, 0) == Some(s[i]),
        syntax::nth_named(s, n + 1) == syntax::nth_named(s.skip(i + 1), n),
    decreases i,
{
    if i > 0 {
        let r = s.skip(1);
        assert forall|j: int| 0 <= j < i - 1 implies !(#[trigger] r[j]).named by {
            assert(r[j] == s[j + 1]);
        }
        assert(r[i - 1] == s[i]);
        law_named_nodes_are_counted(r, i - 1, n);
        assert(r.skip(i) =~= s.skip(i + 1));
        assert(!s[0].named);
    } else {
        assert(s.skip(1) =~= s.skip(i + 1));
    }
}

/// The child of a node in a field is the first that stands in it; there is none if none stands in it.
pub proof fn law_field_is_the_first(t: TreeView, name: Seq<char>, i: int)
    ensures
        0 <= i < t.children.len() && t.children[i].field == Some(name) && (forall|j: int|
            0 <= j < i ==> (#[trigger] t.children[j]).field != Some(name)) ==> syntax::field_of(t, name)
            == Some(t.children[i]) && syntax::field_text(t, name) == t.children[i].text,
        (forall|j: int| 0 <= j < t.children.len() ==> (#[trigger] t.children[j]).field != Some(name))
            ==> syntax::field_of(t, name) is None && syntax::field_text(t, name).len() == 0,
{
    lemma_field_first(t.children, name, i);
}

proof fn lemma_field_first(s: Seq<TreeView>, name: Seq<char>, i: int)
    ensures
        0 <= i < s.len() && s[i].field == Some(name) && (forall|j: int|
            0 <= j < i ==> (#[trigger] s[j]).field != Some(name)) ==> syntax::field_among(s, name) == Some(s[i]),
        (forall|j: int| 0 <= j < s.len() ==> (#[trigger] s[j]).field != Some(name)) ==> syntax::field_among(
            s,
            name,
        ) is None,
    decreases s.len(),
{
    if s.len() > 0 {
        let r = s.skip(1);
        assert forall|j: int| 0 <= j < r.len() implies #[trigger] r[j] == s[j + 1] by {}
        lemma_field_first(r, name, i - 1);
        if s[0].field == Some(name) && 0 < i < s.len() && (forall|j: int|
            0 <= j < i ==> (#[trigger] s[j]).field != Some(name)) {
            assert(s[0].field != Some(name));
        }
    }
}

/// A symbol of a file: its key, its name in the file, and where it stands.
pub open spec fn stands_for(s: SymbolView, path: Seq<char>, key: Seq<char>, kind: NodeKind, span: SourceSpan) -> bool {
    &&& s.key == key
    &&& s.name == path + "::"@ + key
    &&& s.kind == kind
    &&& s.span == span
    &&& s.disambiguator == Seq::<char>::empty()
}

/// The name at the end of a chain.
pub open spec fn end_of_chain(r: ReceiverView) -> Seq<char> {
    match r {
        ReceiverView::Bare(n) => n,
        ReceiverView::Attr { object, name } => name,
    }
}

/// The name that a chain starts with.
pub open spec fn start_of_chain(r: ReceiverView) -> Seq<char>
    decreases r,
{
    match r {
        ReceiverView::Bare(n) => n,
        ReceiverView::Attr { object, name } => start_of_chain(*object),
    }
}

/// The ends of a chain of names.
pub proof fn law_chain_ends(r: ReceiverView)
    ensures
        file_index::leaf_of(r) == end_of_chain(r),
        file_index::root_of(r) == start_of_chain(r),
    decreases r,
{
    if let ReceiverView::Attr { object, name } = r {
        law_chain_ends(*object);
    }
}

/// A symbol of a list, whatever tells it apart from its namesakes.
pub open spec fn lists(s: Seq<SymbolView>, x: SymbolView) -> bool {
    exists|i: int|
        0 <= i < s.len() && (#[trigger] s[i]).key == x.key && s[i].name == x.name && s[i].kind == x.kind
            && s[i].span == x.span
}

pub proof fn lemma_listed(s: Seq<SymbolView>, x: SymbolView)
    requires
        forall|i: int| 0 <= i < s.len() ==> (#[trigger] s[i]).disambiguator == Seq::<char>::empty(),
        x.disambiguator == Seq::<char>::empty(),
    ensures
        lists(file_index::told_apart(s), x) <==> s.contains(x),
{
    let r = file_index::told_apart(s);
    if s.contains(x) {
        let i = choose|i: int| 0 <= i < s.len() && s[i] == x;
        assert(r[i].key == x.key);
    }
    if lists(r, x) {
        let i = choose|i: int|
            0 <= i < r.len() && (#[trigger] r[i]).key == x.key && r[i].name == x.name && r[i].kind == x.kind
                && r[i].span == x.span;
        assert(s[i] == x);
    }
}

} // verus!
