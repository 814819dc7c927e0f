//! What indexes hold of files that are read by matches of expressions.

use crate::file_index;
use crate::file_index::{CallView, FactView, ImportStyle, ReceiverView};
use crate::graph::{NodeKind, SourceSpan};
use crate::matched_facts;
use crate::python_indexer;
use crate::regexes;
use crate::regexes::CaptureView;
use crate::spans;
use crate::text;
use crate::tree_laws;
use crate::typescript_indexer;
use vstd::prelude::*;

verus! {

proof fn lemma_named_functions(s: Seq<CaptureView>, path: Seq<char>, content: Seq<char>, x: FactView)
    ensures
        matched_facts::named_functions(s, path, content).contains(x) <==> exists|c: CaptureView| #[trigger]
            s.contains(c) && matched_facts::named_function(c, path, content).contains(x),
    decreases s.len(),
{
    if s.len() > 0 {
        let front = s.drop_last();
        lemma_named_functions(front, path, content, x);
        tree_laws::lemma_both(matched_facts::named_functions(front, path, content), matched_facts::named_function(s.last(), path, content), x);
        assert forall|c: CaptureView| #[trigger] s.contains(c) implies (front.contains(c) || c == s.last()) by {
            tree_laws::lemma_ends(s, c);
        }
        assert forall|c: CaptureView| #[trigger] front.contains(c) implies s.contains(c) by {
            tree_laws::lemma_ends(s, c);
        }
        tree_laws::lemma_ends(s, s.last());
    }
}

proof fn lemma_member_calls(s: Seq<CaptureView>, content: Seq<char>, caller: Seq<char>, x: FactView)
    ensures
        typescript_indexer::member_calls(s, content, caller).contains(x) <==> exists|c: CaptureView| #[trigger]
            s.contains(c) && typescript_indexer::member_call(c, content, caller).contains(x),
    decreases s.len(),
{
    if s.len() > 0 {
        let front = s.drop_last();
        lemma_member_calls(front, content, caller, x);
        tree_laws::lemma_both(typescript_indexer::member_calls(front, content, caller), typescript_indexer::member_call(s.last(), content, caller), x);
        assert forall|c: CaptureView| #[trigger] s.contains(c) implies (front.contains(c) || c == s.last()) by {
            tree_laws::lemma_ends(s, c);
        }
        assert forall|c: CaptureView| #[trigger] front.contains(c) implies s.contains(c) by {
            tree_laws::lemma_ends(s, c);
        }
        tree_laws::lemma_ends(s, s.last());
    }
}

proof fn lemma_ts_name_calls(s: Seq<CaptureView>, content: Seq<char>, caller: Seq<char>, x: FactView)
    ensures
        typescript_indexer::ts_name_calls(s, content, caller).contains(x) <==> exists|c: CaptureView| #[trigger]
            s.contains(c) && typescript_indexer::ts_name_call(c, content, caller).contains(x),
    decreases s.len(),
{
    if s.len() > 0 {
        let front = s.drop_last();
        lemma_ts_name_calls(front, content, caller, x);
        tree_laws::lemma_both(typescript_indexer::ts_name_calls(front, content, caller), typescript_indexer::ts_name_call(s.last(), content, caller), x);
        assert forall|c: CaptureView| #[trigger] s.contains(c) implies (front.contains(c) || c == s.last()) by {
            tree_laws::lemma_ends(s, c);
        }
        assert forall|c: CaptureView| #[trigger] front.contains(c) implies s.contains(c) by {
            tree_laws::lemma_ends(s, c);
        }
        tree_laws::lemma_ends(s, s.last());
    }
}

proof fn lemma_py_line_member_calls(s: Seq<CaptureView>, content: Seq<char>, x: FactView)
    ensures
        python_indexer::py_line_member_calls(s, content).contains(x) <==> exists|c: CaptureView| #[trigger]
            s.contains(c) && python_indexer::py_line_member_call(c, content).contains(x),
    decreases s.len(),
{
    if s.len() > 0 {
        let front = s.drop_last();
        lemma_py_line_member_calls(front, content, x);
        tree_laws::lemma_both(python_indexer::py_line_member_calls(front, content), python_indexer::py_line_member_call(s.last(), content), x);
        assert forall|c: CaptureView| #[trigger] s.contains(c) implies (front.contains(c) || c == s.last()) by {
            tree_laws::lemma_ends(s, c);
        }
        assert forall|c: CaptureView| #[trigger] front.contains(c) implies s.contains(c) by {
            tree_laws::lemma_ends(s, c);
        }
        tree_laws::lemma_ends(s, s.last());
    }
}

proof fn lemma_py_line_calls(s: Seq<CaptureView>, content: Seq<char>, x: FactView)
    ensures
        python_indexer::py_line_calls(s, content).contains(x) <==> exists|c: CaptureView| #[trigger]
            s.contains(c) && python_indexer::py_line_call(c, content).contains(x),
    decreases s.len(),
{
    if s.len() > 0 {
        let front = s.drop_last();
        lemma_py_line_calls(front, content, x);
        tree_laws::lemma_both(python_indexer::py_line_calls(front, content), python_indexer::py_line_call(s.last(), content), x);
        assert forall|c: CaptureView| #[trigger] s.contains(c) implies (front.contains(c) || c == s.last()) by {
            tree_laws::lemma_ends(s, c);
        }
        assert forall|c: CaptureView| #[trigger] front.contains(c) implies s.contains(c) by {
            tree_laws::lemma_ends(s, c);
        }
        tree_laws::lemma_ends(s, s.last());
    }
}

proof fn lemma_py_body_calls(s: Seq<CaptureView>, content: Seq<char>, body: Seq<char>, from: usize, caller: Seq<char>, x: FactView)
    ensures
        python_indexer::py_body_calls(s, content, body, from, caller).contains(x) <==> exists|c: CaptureView| #[trigger]
            s.contains(c) && python_indexer::py_body_call(c, content, body, from, caller).contains(x),
    decreases s.len(),
{
    if s.len() > 0 {
        let front = s.drop_last();
        lemma_py_body_calls(front, content, body, from, caller, x);
        tree_laws::lemma_both(python_indexer::py_body_calls(front, content, body, from, caller), python_indexer::py_body_call(s.last(), content, body, from, caller), x);
        assert forall|c: CaptureView| #[trigger] s.contains(c) implies (front.contains(c) || c == s.last()) by {
            tree_laws::lemma_ends(s, c);
        }
        assert forall|c: CaptureView| #[trigger] front.contains(c) implies s.contains(c) by {
            tree_laws::lemma_ends(s, c);
        }
        tree_laws::lemma_ends(s, s.last());
    }
}

proof fn lemma_py_body_member_calls(s: Seq<CaptureView>, content: Seq<char>, from: usize, caller: Seq<char>, x: FactView)
    ensures
        python_indexer::py_body_member_calls(s, content, from, caller).contains(x) <==> exists|c: CaptureView| #[trigger]
            s.contains(c) && python_indexer::py_body_member_call(c, content, from, caller).contains(x),
    decreases s.len(),
{
    if s.len() > 0 {
        let front = s.drop_last();
        lemma_py_body_member_calls(front, content, from, caller, x);
        tree_laws::lemma_both(python_indexer::py_body_member_calls(front, content, from, caller), python_indexer::py_body_member_call(s.last(), content, from, caller), x);
        assert forall|c: CaptureView| #[trigger] s.contains(c) implies (front.contains(c) || c == s.last()) by {
            tree_laws::lemma_ends(s, c);
        }
        assert forall|c: CaptureView| #[trigger] front.contains(c) implies s.contains(c) by {
            tree_laws::lemma_ends(s, c);
        }
        tree_laws::lemma_ends(s, s.last());
    }
}

/// A match names a function.
pub open spec fn names_function(c: CaptureView, name: Seq<char>) -> bool {
    c.groups.len() > 1 && c.groups[1] == Some(name)
}

/// The place of a match.
pub open spec fn place_of(content: Seq<char>, c: CaptureView) -> SourceSpan {
    spans::span_between(content, c.start as nat, c.end as nat)
}

/// A match calls a member of something.
pub open spec fn calls_member(c: CaptureView, base: Seq<char>, name: Seq<char>) -> bool {
    c.groups.len() > 2 && c.groups[1] == Some(base) && c.groups[2] == Some(name)
}

proof fn lemma_named(c: CaptureView, path: Seq<char>, content: Seq<char>, x: FactView)
    ensures
        matched_facts::named_function(c, path, content).contains(x) <==> x is Symbol && exists|name: Seq<char>|
            #[trigger] names_function(c, name) && tree_laws::stands_for(
                x->Symbol_0,
                path,
                name,
                NodeKind::Function,
                place_of(content, c),
            ),
{
    if let Some(n) = regexes::group_of(c, 1) {
        let s = FactView::Symbol(file_index::symbol_at(path, n, NodeKind::Function, place_of(content, c)));
        tree_laws::lemma_one(s, x);
        assert(names_function(c, n));
        if x is Symbol && tree_laws::stands_for(
            x->Symbol_0,
            path,
            n,
            NodeKind::Function,
            place_of(content, c),
        ) {
            assert(x->Symbol_0 =~= s->Symbol_0);
        }
    }
}

proof fn lemma_member_call(c: CaptureView, content: Seq<char>, caller: Seq<char>, x: FactView)
    ensures
        typescript_indexer::member_call(c, content, caller).contains(x) <==> x is Call && x->Call_0.caller
            == caller && x->Call_0.span == place_of(content, c) && (match x->Call_0.callee {
            ReceiverView::Attr { object, name } => match *object {
                ReceiverView::Bare(base) => calls_member(c, base, name),
                _ => false,
            },
            _ => false,
        }),
{
    if let (Some(base), Some(name)) = (regexes::group_of(c, 1), regexes::group_of(c, 2)) {
        tree_laws::lemma_one(
            FactView::Call(
                CallView {
                    caller,
                    callee: ReceiverView::Attr { object: Box::new(ReceiverView::Bare(base)), name },
                    span: place_of(content, c),
                },
            ),
            x,
        );
    }
}

proof fn lemma_name_call(c: CaptureView, content: Seq<char>, caller: Seq<char>, x: FactView)
    ensures
        typescript_indexer::ts_name_call(c, content, caller).contains(x) <==> x is Call && x->Call_0.caller
            == caller && x->Call_0.span == place_of(content, c) && (match x->Call_0.callee {
            ReceiverView::Bare(n) => names_function(c, n) && n != "function"@ && n != caller
                && !regexes::behind_point(content, c.start),
            _ => false,
        }),
{
    if let Some(n) = regexes::group_of(c, 1) {
        tree_laws::lemma_one(
            FactView::Call(
                CallView { caller, callee: ReceiverView::Bare(n), span: place_of(content, c) },
            ),
            x,
        );
    }
}

/// In a file that is read by matches alone, every function that is found calls every member that is
/// found, and every name that is found, but for itself, for `function`, and for names behind a point.
pub open spec fn ts_matched_call(
    content: Seq<char>,
    functions: Seq<CaptureView>,
    members: Seq<CaptureView>,
    names: Seq<CaptureView>,
    c: CallView,
) -> bool {
    &&& exists|f: CaptureView| #[trigger] functions.contains(f) && names_function(f, c.caller)
    &&& match c.callee {
        ReceiverView::Bare(n) => n != "function"@ && n != c.caller && exists|k: CaptureView| #[trigger]
            names.contains(k) && names_function(k, n) && !regexes::behind_point(content, k.start) && c.span
                == place_of(content, k),
        ReceiverView::Attr { object, name } => match *object {
            ReceiverView::Bare(base) => exists|k: CaptureView| #[trigger]
                members.contains(k) && calls_member(k, base, name) && c.span == place_of(content, k),
            _ => false,
        },
    }
}

proof fn lemma_calls_of_one(
    members: Seq<CaptureView>,
    names: Seq<CaptureView>,
    content: Seq<char>,
    caller: Seq<char>,
    x: FactView,
)
    ensures
        (typescript_indexer::member_calls(members, content, caller) + typescript_indexer::ts_name_calls(
            names,
            content,
            caller,
        )).contains(x) <==> x is Call && x->Call_0.caller == caller && (match x->Call_0.callee {
            ReceiverView::Bare(n) => n != "function"@ && n != caller && exists|k: CaptureView| #[trigger]
                names.contains(k) && names_function(k, n) && !regexes::behind_point(content, k.start)
                    && x->Call_0.span == place_of(content, k),
            ReceiverView::Attr { object, name } => match *object {
                ReceiverView::Bare(base) => exists|k: CaptureView| #[trigger]
                    members.contains(k) && calls_member(k, base, name) && x->Call_0.span == place_of(content, k),
                _ => false,
            },
        }),
{
    tree_laws::lemma_both(
        typescript_indexer::member_calls(members, content, caller),
        typescript_indexer::ts_name_calls(names, content, caller),
        x,
    );
    lemma_member_calls(members, content, caller, x);
    lemma_ts_name_calls(names, content, caller, x);
    assert forall|k: CaptureView| #[trigger] members.contains(k) implies (typescript_indexer::member_call(
        k,
        content,
        caller,
    ).contains(x) <==> x is Call && x->Call_0.caller == caller && x->Call_0.span == place_of(content, k) && (
    match x->Call_0.callee {
        ReceiverView::Attr { object, name } => match *object {
            ReceiverView::Bare(base) => calls_member(k, base, name),
            _ => false,
        },
        _ => false,
    })) by {
        lemma_member_call(k, content, caller, x);
    }
    assert forall|k: CaptureView| #[trigger] names.contains(k) implies (typescript_indexer::ts_name_call(
        k,
        content,
        caller,
    ).contains(x) <==> x is Call && x->Call_0.caller == caller && x->Call_0.span == place_of(content, k) && (
    match x->Call_0.callee {
        ReceiverView::Bare(n) => names_function(k, n) && n != "function"@ && n != caller
            && !regexes::behind_point(content, k.start),
        _ => false,
    })) by {
        lemma_name_call(k, content, caller, x);
    }
}

proof fn lemma_file_calls(
    functions: Seq<CaptureView>,
    members: Seq<CaptureView>,
    names: Seq<CaptureView>,
    content: Seq<char>,
    x: FactView,
)
    ensures
        typescript_indexer::ts_file_calls(functions, members, names, content).contains(x) <==> x is Call
            && ts_matched_call(content, functions, members, names, x->Call_0),
    decreases functions.len(),
{
    if functions.len() > 0 {
        let front = functions.drop_last();
        let l = functions.last();
        lemma_file_calls(front, members, names, content, x);
        let own = match regexes::group_of(l, 1) {
            Some(f) => typescript_indexer::member_calls(members, content, f)
                + typescript_indexer::ts_name_calls(names, content, f),
            None => Seq::empty(),
        };
        tree_laws::lemma_both(
            typescript_indexer::ts_file_calls(front, members, names, content),
            own,
            x,
        );
        if let Some(f) = regexes::group_of(l, 1) {
            lemma_calls_of_one(members, names, content, f, x);
        }
        assert forall|c: CaptureView| #[trigger] functions.contains(c) implies (front.contains(c) || c == l) by {
            tree_laws::lemma_ends(functions, c);
        }
        assert forall|c: CaptureView| #[trigger] front.contains(c) implies functions.contains(c) by {
            tree_laws::lemma_ends(functions, c);
        }
        tree_laws::lemma_ends(functions, l);
    }
}

/// What the index of a TypeScript file holds that is read by matches: its calls, and for each import that
/// is found, in order, what the match says.
pub proof fn law_typescript_matches(
    path: Seq<char>,
    content: Seq<char>,
    functions: Seq<CaptureView>,
    imports: Seq<CaptureView>,
    members: Seq<CaptureView>,
    names: Seq<CaptureView>,
    c: CallView,
    i: int,
)
    ensures
        ({
            let x = typescript_indexer::ts_matched_index(path, content, functions, imports, members, names);
            &&& x.calls.contains(c) <==> ts_matched_call(content, functions, members, names, c)
            &&& x.imports.len() == imports.len()
            &&& 0 <= i < imports.len() ==> x.imports[i].span == place_of(content, imports[i])
            &&& 0 <= i < imports.len() && imports[i].groups.len() > 3 && imports[i].groups[3] is Some
                ==> x.imports[i].module == imports[i].groups[3]->0
            &&& 0 <= i < imports.len() && imports[i].groups.len() > 2 && imports[i].groups[1] is None
                && imports[i].groups[2] is Some ==> x.imports[i].style == ImportStyle::Names
                && x.imports[i].names == seq![imports[i].groups[2]->0]
            &&& 0 <= i < imports.len() && imports[i].groups.len() > 2 && imports[i].groups[1] is None
                && imports[i].groups[2] is None ==> x.imports[i].style == ImportStyle::ModuleOnly
                && x.imports[i].names.len() == 0
        }),
{
    let x = FactView::Call(c);
    let s = FactView::Symbol(file_index::file_symbol(path, content));
    let a = matched_facts::named_functions(functions, path, content);
    let b = typescript_indexer::ts_file_calls(functions, members, names, content);
    let facts = seq![s] + a + b;
    tree_laws::law_index_knows_the_facts(facts, x);
    tree_laws::lemma_both(seq![s] + a, b, x);
    tree_laws::lemma_both(seq![s], a, x);
    tree_laws::lemma_one(s, x);
    lemma_named_functions(functions, path, content, x);
    lemma_file_calls(functions, members, names, content, x);
    assert forall|k: CaptureView| #[trigger] functions.contains(k) implies !matched_facts::named_function(
        k,
        path,
        content,
    ).contains(x) by {
        lemma_named(k, path, content, x);
    }
}

/// The names that a list of a TypeScript import gives: of each part the text before a colon, without the
/// space round it, where anything is left.
pub proof fn law_listed_names(parts: Seq<Seq<char>>, n: Seq<char>)
    ensures
        typescript_indexer::ts_listed_names(parts).contains(n) <==> n.len() > 0 && exists|i: int|
            0 <= i < parts.len() && n == text::trimmed(
                text::pieces(text::trimmed(#[trigger] parts[i]), ':')[0],
            ),
    decreases parts.len(),
{
    if parts.len() > 0 {
        let front = parts.drop_last();
        let a = typescript_indexer::ts_listed_names(front);
        let e = typescript_indexer::ts_listed_name(parts.last());
        law_listed_names(front, n);
        assert forall|i: int| 0 <= i < front.len() implies #[trigger] front[i] == parts[i] by {}
        assert(parts[parts.len() - 1] == parts.last());
        assert(a.push(e) =~= a + seq![e]);
        tree_laws::lemma_both(a, seq![e], n);
        tree_laws::lemma_one(e, n);
        if exists|i: int|
            0 <= i < front.len() && n == text::trimmed(text::pieces(text::trimmed(#[trigger] front[i]), ':')[0]) {
            let i = choose|i: int|
                0 <= i < front.len() && n == text::trimmed(
                    text::pieces(text::trimmed(#[trigger] front[i]), ':')[0],
                );
            assert(parts[i] == front[i]);
        }
        if exists|i: int|
            0 <= i < parts.len() && n == text::trimmed(text::pieces(text::trimmed(#[trigger] parts[i]), ':')[0]) {
            let i = choose|i: int|
                0 <= i < parts.len() && n == text::trimmed(
                    text::pieces(text::trimmed(#[trigger] parts[i]), ':')[0],
                );
            if i < front.len() {
                assert(front[i] == parts[i]);
            }
        }
    }
}

/// What a match of a Python import says: `import m` is the module alone; `from m import *` takes all;
/// `from m import ..` takes names.
pub proof fn law_python_import_match(c: CaptureView, content: Seq<char>, module: Seq<char>, rest: Seq<char>)
    ensures
        c.groups.len() > 1 && c.groups[1] == Some(module) ==> ({
            let r = python_indexer::py_module_import(c, content);
            r.len() == 1 && r[0].module == module && r[0].style == ImportStyle::ModuleOnly && r[0].names.len()
                == 0 && r[0].span == place_of(content, c)
        }),
        c.groups.len() > 2 && c.groups[1] == Some(module) && c.groups[2] == Some(rest) ==> ({
            let r = python_indexer::py_from_import(c, content);
            &&& r.len() == 1 && r[0].module == module && r[0].span == place_of(content, c)
            &&& text::trimmed(rest) == "*"@ ==> r[0].style == ImportStyle::Star && r[0].names.len() == 0
            &&& text::trimmed(rest) != "*"@ ==> r[0].style == ImportStyle::Names && r[0].names
                == python_indexer::py_listed_names(text::pieces(text::trimmed(rest), ','))
        }),
        c.groups.len() > 1 && c.groups[1] is None ==> python_indexer::py_module_import(c, content).len() == 0
            && python_indexer::py_from_import(c, content).len() == 0,
{
}

/// The names that the list of a Python import gives: of each part, without space and brackets, the name
/// before an ` as `; a part that is empty or a star gives none.
pub proof fn law_python_listed_names(parts: Seq<Seq<char>>, n: Seq<char>)
    ensures
        python_indexer::py_listed_names(parts).contains(n) <==> n.len() > 0 && exists|i: int|
            0 <= i < parts.len() && py_lists(#[trigger] parts[i], n),
    decreases parts.len(),
{
    if parts.len() > 0 {
        let front = parts.drop_last();
        let a = python_indexer::py_listed_names(front);
        let p = python_indexer::py_listed(parts.last());
        let e = text::trimmed(text::before(p, " as "@));
        law_python_listed_names(front, n);
        assert forall|i: int| 0 <= i < front.len() implies #[trigger] front[i] == parts[i] by {}
        assert(parts[parts.len() - 1] == parts.last());
        assert(a.push(e) =~= a + seq![e]);
        tree_laws::lemma_both(a, seq![e], n);
        tree_laws::lemma_one(e, n);
        if exists|i: int| 0 <= i < front.len() && py_lists(#[trigger] front[i], n) {
            let i = choose|i: int| 0 <= i < front.len() && py_lists(#[trigger] front[i], n);
            assert(parts[i] == front[i]);
        }
        if exists|i: int| 0 <= i < parts.len() && py_lists(#[trigger] parts[i], n) {
            let i = choose|i: int| 0 <= i < parts.len() && py_lists(#[trigger] parts[i], n);
            if i < front.len() {
                assert(front[i] == parts[i]);
            }
        }
    }
}

/// A part of a list gives a name.
pub open spec fn py_lists(part: Seq<char>, n: Seq<char>) -> bool {
    let p = text::stripped(text::stripped(text::trimmed(part), '('), ')');
    p.len() > 0 && p != "*"@ && n == text::trimmed(text::before(p, " as "@))
}

/// The calls at the top of a Python file that is read by matches: members that are called, but for `def`
/// and `if`; and names that are called in a line without a point, but for what the language has.
pub proof fn law_python_line_calls(
    members: Seq<CaptureView>,
    names: Seq<CaptureView>,
    content: Seq<char>,
    base: Seq<char>,
    name: Seq<char>,
    span: SourceSpan,
)
    ensures
        python_indexer::py_line_member_calls(members, content).contains(
            FactView::Call(
                CallView {
                    caller: "$file"@,
                    callee: ReceiverView::Attr { object: Box::new(ReceiverView::Bare(base)), name },
                    span,
                },
            ),
        ) <==> name != "def"@ && name != "if"@ && exists|k: CaptureView| #[trigger]
            members.contains(k) && calls_member(k, base, name) && span == place_of(content, k),
        python_indexer::py_line_calls(names, content).contains(
            FactView::Call(CallView { caller: "$file"@, callee: ReceiverView::Bare(name), span }),
        ) <==> name != "def"@ && name != "class"@ && name != "if"@ && name != "for"@ && name != "while"@ && name
            != "with"@ && exists|k: CaptureView| #[trigger]
            names.contains(k) && names_function(k, name) && span == place_of(content, k) && plain_line(k),
{
    let x = FactView::Call(
        CallView {
            caller: "$file"@,
            callee: ReceiverView::Attr { object: Box::new(ReceiverView::Bare(base)), name },
            span,
        },
    );
    let y = FactView::Call(CallView { caller: "$file"@, callee: ReceiverView::Bare(name), span });
    lemma_py_line_member_calls(members, content, x);
    lemma_py_line_calls(names, content, y);
    assert forall|k: CaptureView| #[trigger] members.contains(k) implies (python_indexer::py_line_member_call(
        k,
        content,
    ).contains(x) <==> name != "def"@ && name != "if"@ && calls_member(k, base, name) && span == place_of(
        content,
        k,
    )) by {
        if let (Some(b), Some(n)) = (regexes::group_of(k, 1), regexes::group_of(k, 2)) {
            tree_laws::lemma_one(
                FactView::Call(
                    CallView {
                        caller: "$file"@,
                        callee: ReceiverView::Attr { object: Box::new(ReceiverView::Bare(b)), name: n },
                        span: place_of(content, k),
                    },
                ),
                x,
            );
        }
    }
    assert forall|k: CaptureView| #[trigger] names.contains(k) implies (python_indexer::py_line_call(
        k,
        content,
    ).contains(y) <==> names_function(k, name) && !python_indexer::py_keyword(name) && span == place_of(
        content,
        k,
    ) && plain_line(k)) by {
        if let Some(n) = regexes::group_of(k, 1) {
            tree_laws::lemma_one(
                FactView::Call(
                    CallView { caller: "$file"@, callee: ReceiverView::Bare(n), span: place_of(content, k) },
                ),
                y,
            );
        }
    }
}

/// The line of a match defines nothing, and has no point.
pub open spec fn plain_line(k: CaptureView) -> bool {
    let whole = if k.groups.len() > 0 && k.groups[0] is Some {
        k.groups[0]->0
    } else {
        Seq::empty()
    };
    !text::begins_with(text::trim_start(whole), "def "@) && !text::contains_text(whole, "."@)
}

/// The calls in the body of a Python function that is read by matches: names that are called, but for the
/// function itself, for what stands behind a point, and for `def`, `async`, `print` and `super`; and
/// members, but for `def` and `async`. They stand where the body stands in the file.
pub proof fn law_python_body_calls(
    s: Seq<CaptureView>,
    content: Seq<char>,
    body: Seq<char>,
    from: usize,
    caller: Seq<char>,
    base: Seq<char>,
    name: Seq<char>,
    span: SourceSpan,
)
    ensures
        python_indexer::py_body_calls(s, content, body, from, caller).contains(
            FactView::Call(CallView { caller, callee: ReceiverView::Bare(name), span }),
        ) <==> name != caller && name != "def"@ && name != "async"@ && name != "print"@ && name != "super"@
            && exists|k: CaptureView| #[trigger]
            s.contains(k) && names_function(k, name) && !regexes::behind_point(body, k.start) && span
                == spans::span_between(
                content,
                regexes::shifted(from, k.start) as nat,
                regexes::shifted(from, k.end) as nat,
            ),
        python_indexer::py_body_member_calls(s, content, from, caller).contains(
            FactView::Call(
                CallView {
                    caller,
                    callee: ReceiverView::Attr { object: Box::new(ReceiverView::Bare(base)), name },
                    span,
                },
            ),
        ) <==> name != "def"@ && name != "async"@ && exists|k: CaptureView| #[trigger]
            s.contains(k) && calls_member(k, base, name) && span == spans::span_between(
                content,
                regexes::shifted(from, k.start) as nat,
                regexes::shifted(from, k.end) as nat,
            ),
{
    let x = FactView::Call(CallView { caller, callee: ReceiverView::Bare(name), span });
    let y = FactView::Call(
        CallView {
            caller,
            callee: ReceiverView::Attr { object: Box::new(ReceiverView::Bare(base)), name },
            span,
        },
    );
    lemma_py_body_calls(s, content, body, from, caller, x);
    lemma_py_body_member_calls(s, content, from, caller, y);
    assert forall|k: CaptureView| #[trigger] s.contains(k) implies (python_indexer::py_body_call(
        k,
        content,
        body,
        from,
        caller,
    ).contains(x) <==> names_function(k, name) && name != caller && !python_indexer::py_quiet(name)
        && !regexes::behind_point(body, k.start) && span == spans::span_between(
        content,
        regexes::shifted(from, k.start) as nat,
        regexes::shifted(from, k.end) as nat,
    )) && (python_indexer::py_body_member_call(k, content, from, caller).contains(y) <==> name != "def"@ && name
        != "async"@ && calls_member(k, base, name) && span == spans::span_between(
        content,
        regexes::shifted(from, k.start) as nat,
        regexes::shifted(from, k.end) as nat,
    )) by {
        let place = spans::span_between(
            content,
            regexes::shifted(from, k.start) as nat,
            regexes::shifted(from, k.end) as nat,
        );
        if let Some(n) = regexes::group_of(k, 1) {
            tree_laws::lemma_one(
                FactView::Call(CallView { caller, callee: ReceiverView::Bare(n), span: place }),
                x,
            );
            if let Some(m) = regexes::group_of(k, 2) {
                tree_laws::lemma_one(
                    FactView::Call(
                        CallView {
                            caller,
                            callee: ReceiverView::Attr { object: Box::new(ReceiverView::Bare(n)), name: m },
                            span: place,
                        },
                    ),
                    y,
                );
            }
        }
    }
}

} // verus!
