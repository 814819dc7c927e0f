//! What is known of a source file: its symbols, imports, calls, uses and bases.

use crate::graph::{NodeKind, SourceSpan};
use crate::hex;
use crate::hex::decimal_text;
use crate::spans;
use crate::spans::whole_file_span;
use crate::syntax;
use crate::text;
use crate::text::{append_text, chars_of, owned, same_text, text_trim};
use vstd::prelude::*;

verus! {

/// A symbol that a file defines.
#[derive(Debug)]
pub struct ParsedSymbol {
    pub stable_key: String,
    pub disambiguator: String,
    pub qualified_name: String,
    pub kind: NodeKind,
    pub span: SourceSpan,
}

/// What a symbol holds.
pub struct SymbolView {
    pub key: Seq<char>,
    pub disambiguator: Seq<char>,
    pub name: Seq<char>,
    pub kind: NodeKind,
    pub span: SourceSpan,
}

impl View for ParsedSymbol {
    type V = SymbolView;

    open spec fn view(&self) -> SymbolView {
        SymbolView {
            key: self.stable_key@,
            disambiguator: self.disambiguator@,
            name: self.qualified_name@,
            kind: self.kind,
            span: self.span,
        }
    }
}

/// The name that an identity goes by: the key, and behind a sign what tells it apart.
pub open spec fn identity_name(key: Seq<char>, disambiguator: Seq<char>) -> Seq<char> {
    if disambiguator.len() == 0 {
        key
    } else {
        key + "#"@ + disambiguator
    }
}

/// Builds the name that an identity goes by.
pub fn symbol_identity_key(stable_key: &str, disambiguator: &str) -> (r: String)
    ensures
        r@ == identity_name(stable_key@, disambiguator@),
{
    let d = chars_of(disambiguator);
    let mut out = owned(stable_key);
    if d.len() > 0 {
        append_text(&mut out, "#");
        append_text(&mut out, disambiguator);
    }
    out
}

impl ParsedSymbol {
    /// The name that the symbol's identity goes by.
    pub fn identity_key(&self) -> (r: String)
        ensures
            r@ == identity_name(self@.key, self@.disambiguator),
    {
        symbol_identity_key(self.stable_key.as_str(), self.disambiguator.as_str())
    }
}

/// How names are imported.
#[derive(Debug, Clone, Copy, PartialEq, Eq, Structural)]
pub enum ImportStyle {
    Names,
    ModuleOnly,
    Star,
}

/// An import of a file.
#[derive(Debug)]
pub struct ParsedImport {
    pub module: String,
    pub style: ImportStyle,
    pub names: Vec<String>,
    pub span: SourceSpan,
}

/// What an import holds.
pub struct ImportView {
    pub module: Seq<char>,
    pub style: ImportStyle,
    pub names: Seq<Seq<char>>,
    pub span: SourceSpan,
}

impl View for ParsedImport {
    type V = ImportView;

    open spec fn view(&self) -> ImportView {
        ImportView {
            module: self.module@,
            style: self.style,
            names: text::texts(self.names@),
            span: self.span,
        }
    }
}

/// What is called: a name, or a name of something.
#[derive(Debug)]
pub enum CallReceiver {
    Bare(String),
    Attr { object: Box<CallReceiver>, name: String },
}

/// What a receiver holds.
pub enum ReceiverView {
    Bare(Seq<char>),
    Attr { object: Box<ReceiverView>, name: Seq<char> },
}

/// What a receiver holds.
pub open spec fn receiver_view(r: CallReceiver) -> ReceiverView
    decreases r,
{
    match r {
        CallReceiver::Bare(n) => ReceiverView::Bare(n@),
        CallReceiver::Attr { object, name } => ReceiverView::Attr {
            object: Box::new(receiver_view(*object)),
            name: name@,
        },
    }
}

impl View for CallReceiver {
    type V = ReceiverView;

    open spec fn view(&self) -> ReceiverView {
        receiver_view(*self)
    }
}

/// The last name of a receiver.
pub open spec fn leaf_of(r: ReceiverView) -> Seq<char> {
    match r {
        ReceiverView::Bare(n) => n,
        ReceiverView::Attr { object, name } => name,
    }
}

/// The first name of a receiver.
pub open spec fn root_of(r: ReceiverView) -> Seq<char>
    decreases r,
{
    match r {
        ReceiverView::Bare(n) => n,
        ReceiverView::Attr { object, name } => root_of(*object),
    }
}

/// The names of a receiver, with points between them.
pub open spec fn label_of(r: ReceiverView) -> Seq<char>
    decreases r,
{
    match r {
        ReceiverView::Bare(n) => n,
        ReceiverView::Attr { object, name } => label_of(*object) + "."@ + name,
    }
}

impl CallReceiver {
    /// A name alone.
    pub fn bare(name: &str) -> (r: CallReceiver)
        ensures
            r@ == ReceiverView::Bare(name@),
    {
        CallReceiver::Bare(owned(name))
    }

    /// The last name.
    pub fn leaf_name(&self) -> (r: &str)
        ensures
            r@ == leaf_of(self@),
    {
        match self {
            CallReceiver::Bare(n) => n.as_str(),
            CallReceiver::Attr { object, name } => name.as_str(),
        }
    }

    /// The first name.
    pub fn root_bare_name(&self) -> (r: &str)
        ensures
            r@ == root_of(self@),
        decreases self,
    {
        match self {
            CallReceiver::Bare(n) => n.as_str(),
            CallReceiver::Attr { object, name } => object.root_bare_name(),
        }
    }

    /// The names, with points between them.
    pub fn label(&self) -> (r: String)
        ensures
            r@ == label_of(self@),
        decreases self,
    {
        match self {
            CallReceiver::Bare(n) => owned(n.as_str()),
            CallReceiver::Attr { object, name } => {
                let mut out = object.label();
                append_text(&mut out, ".");
                append_text(&mut out, name.as_str());
                out
            },
        }
    }
}

/// A call in a file.
#[derive(Debug)]
pub struct ParsedCall {
    pub caller_stable_key: String,
    pub callee: CallReceiver,
    pub span: SourceSpan,
}

/// What a call holds.
pub struct CallView {
    pub caller: Seq<char>,
    pub callee: ReceiverView,
    pub span: SourceSpan,
}

impl View for ParsedCall {
    type V = CallView;

    open spec fn view(&self) -> CallView {
        CallView { caller: self.caller_stable_key@, callee: self.callee@, span: self.span }
    }
}

/// A use of a type in a file.
#[derive(Debug)]
pub struct ParsedUse {
    pub owner_stable_key: String,
    pub type_ref: String,
    pub span: SourceSpan,
}

/// What a use holds.
pub struct UseView {
    pub owner: Seq<char>,
    pub type_ref: Seq<char>,
    pub span: SourceSpan,
}

impl View for ParsedUse {
    type V = UseView;

    open spec fn view(&self) -> UseView {
        UseView { owner: self.owner_stable_key@, type_ref: self.type_ref@, span: self.span }
    }
}

/// A base of a class in a file.
#[derive(Debug)]
pub struct ParsedExtends {
    pub class_stable_key: String,
    pub base_name: String,
    pub span: SourceSpan,
}

/// What a base holds.
pub struct ExtendsView {
    pub class: Seq<char>,
    pub base: Seq<char>,
    pub span: SourceSpan,
}

impl View for ParsedExtends {
    type V = ExtendsView;

    open spec fn view(&self) -> ExtendsView {
        ExtendsView { class: self.class_stable_key@, base: self.base_name@, span: self.span }
    }
}

/// Something that a syntax tree says of its file.
#[derive(Debug)]
pub enum Fact {
    Symbol(ParsedSymbol),
    Call(ParsedCall),
    Use(ParsedUse),
    Extends(ParsedExtends),
    /// A field of a class is set to a value of a type.
    Field { class_key: String, field: String, type_ref: String },
    /// A value of a type is put on a list.
    Element { list: String, type_ref: String },
    /// A variable of a function runs over a list.
    LoopVar { function: String, var: String, list: String },
}

/// What a fact holds.
pub enum FactView {
    Symbol(SymbolView),
    Call(CallView),
    Use(UseView),
    Extends(ExtendsView),
    Field { class: Seq<char>, field: Seq<char>, type_ref: Seq<char> },
    Element { list: Seq<char>, type_ref: Seq<char> },
    LoopVar { function: Seq<char>, var: Seq<char>, list: Seq<char> },
}

impl View for Fact {
    type V = FactView;

    open spec fn view(&self) -> FactView {
        match self {
            Fact::Symbol(s) => FactView::Symbol(s@),
            Fact::Call(c) => FactView::Call(c@),
            Fact::Use(u) => FactView::Use(u@),
            Fact::Extends(e) => FactView::Extends(e@),
            Fact::Field { class_key, field, type_ref } => FactView::Field {
                class: class_key@,
                field: field@,
                type_ref: type_ref@,
            },
            Fact::Element { list, type_ref } => FactView::Element {
                list: list@,
                type_ref: type_ref@,
            },
            Fact::LoopVar { function, var, list } => FactView::LoopVar {
                function: function@,
                var: var@,
                list: list@,
            },
        }
    }
}

/// What facts hold.
pub open spec fn fact_views(v: Seq<Fact>) -> Seq<FactView> {
    v.map_values(|f: Fact| f@)
}

/// Adds a fact.
pub fn add_fact(facts: &mut Vec<Fact>, f: Fact)
    ensures
        fact_views(final(facts)@) == fact_views(old(facts)@).push(f@),
{
    let ghost before = fact_views(facts@);
    let ghost fv = f@;
    facts.push(f);
    assert(fact_views(facts@) =~= before.push(fv));
}

/// A field of a class with the type of its value.
#[derive(Debug)]
pub struct TypedName {
    /// The class or the function that the name belongs to.
    pub owner: String,
    pub name: String,
    pub type_ref: String,
}

/// What a typed name holds.
pub struct TypedView {
    pub owner: Seq<char>,
    pub name: Seq<char>,
    pub type_ref: Seq<char>,
}

impl View for TypedName {
    type V = TypedView;

    open spec fn view(&self) -> TypedView {
        TypedView { owner: self.owner@, name: self.name@, type_ref: self.type_ref@ }
    }
}

/// What is known of a file.
#[derive(Debug)]
pub struct FileIndex {
    pub symbols: Vec<ParsedSymbol>,
    pub imports: Vec<ParsedImport>,
    pub calls: Vec<ParsedCall>,
    pub uses: Vec<ParsedUse>,
    pub extends: Vec<ParsedExtends>,
    /// Fields of classes; the first value that a field is set to counts.
    pub instance_fields: Vec<TypedName>,
    /// What lists hold; the last value that is put on a list counts.
    pub list_element_types: Vec<TypedName>,
    /// Variables of functions.
    pub function_locals: Vec<TypedName>,
}

/// What is known of a file.
#[verifier::ext_equal]
pub struct IndexView {
    pub symbols: Seq<SymbolView>,
    pub imports: Seq<ImportView>,
    pub calls: Seq<CallView>,
    pub uses: Seq<UseView>,
    pub extends: Seq<ExtendsView>,
    pub fields: Seq<TypedView>,
    pub elements: Seq<TypedView>,
    pub locals: Seq<TypedView>,
}

impl View for FileIndex {
    type V = IndexView;

    open spec fn view(&self) -> IndexView {
        IndexView {
            symbols: self.symbols@.map_values(|s: ParsedSymbol| s@),
            imports: self.imports@.map_values(|s: ParsedImport| s@),
            calls: self.calls@.map_values(|s: ParsedCall| s@),
            uses: self.uses@.map_values(|s: ParsedUse| s@),
            extends: self.extends@.map_values(|s: ParsedExtends| s@),
            fields: self.instance_fields@.map_values(|s: TypedName| s@),
            elements: self.list_element_types@.map_values(|s: TypedName| s@),
            locals: self.function_locals@.map_values(|s: TypedName| s@),
        }
    }
}

/// Nothing is known.
pub open spec fn empty_index() -> IndexView {
    IndexView {
        symbols: Seq::empty(),
        imports: Seq::empty(),
        calls: Seq::empty(),
        uses: Seq::empty(),
        extends: Seq::empty(),
        fields: Seq::empty(),
        elements: Seq::empty(),
        locals: Seq::empty(),
    }
}

/// The type of the first entry for a name.
pub open spec fn first_type(s: Seq<TypedView>, owner: Seq<char>, name: Seq<char>) -> Option<
    Seq<char>,
>
    decreases s.len(),
{
    if s.len() == 0 {
        None
    } else if s[0].owner == owner && s[0].name == name {
        Some(s[0].type_ref)
    } else {
        first_type(s.skip(1), owner, name)
    }
}

/// The type of the last entry for a name.
pub open spec fn last_type(s: Seq<TypedView>, owner: Seq<char>, name: Seq<char>) -> Option<
    Seq<char>,
>
    decreases s.len(),
{
    if s.len() == 0 {
        None
    } else if s.last().owner == owner && s.last().name == name {
        Some(s.last().type_ref)
    } else {
        last_type(s.drop_last(), owner, name)
    }
}

/// What typed names hold.
pub open spec fn typed_views(v: Seq<TypedName>) -> Seq<TypedView> {
    v.map_values(|s: TypedName| s@)
}

/// Finds the type of the first entry for a name.
fn find_first_type(v: &Vec<TypedName>, owner: &str, name: &str) -> (r: Option<String>)
    ensures
        match r {
            Some(t) => first_type(typed_views(v@), owner@, name@) == Some(t@),
            None => first_type(typed_views(v@), owner@, name@) is None,
        },
{
    let ghost s = typed_views(v@);
    let mut i: usize = 0;
    assert(s.skip(0) =~= s);
    while i < v.len()
        invariant
            i <= v.len(),
            s == typed_views(v@),
            first_type(s.skip(i as int), owner@, name@) == first_type(s, owner@, name@),
        decreases v.len() - i,
    {
        assert(s.skip(i as int)[0] == v@[i as int]@);
        assert(s.skip(i as int).skip(1) =~= s.skip(i + 1));
        if same_text(v[i].owner.as_str(), owner) && same_text(v[i].name.as_str(), name) {
            return Some(owned(v[i].type_ref.as_str()));
        }
        i = i + 1;
    }
    None
}

/// Finds the type of the last entry for a name.
fn find_last_type(v: &Vec<TypedName>, owner: &str, name: &str) -> (r: Option<String>)
    ensures
        match r {
            Some(t) => last_type(typed_views(v@), owner@, name@) == Some(t@),
            None => last_type(typed_views(v@), owner@, name@) is None,
        },
{
    let ghost s = typed_views(v@);
    let mut i: usize = v.len();
    assert(s.take(i as int) =~= s);
    while i > 0
        invariant
            i <= v.len(),
            s == typed_views(v@),
            last_type(s.take(i as int), owner@, name@) == last_type(s, owner@, name@),
        decreases i,
    {
        assert(s.take(i as int).last() == v@[i - 1]@);
        assert(s.take(i as int).drop_last() =~= s.take(i - 1));
        let t = &v[i - 1];
        if same_text(t.owner.as_str(), owner) && same_text(t.name.as_str(), name) {
            return Some(owned(t.type_ref.as_str()));
        }
        i = i - 1;
    }
    None
}

/// What is known with one more fact.
pub open spec fn with_fact(x: IndexView, f: FactView) -> IndexView {
    match f {
        FactView::Symbol(s) => IndexView { symbols: x.symbols.push(s), ..x },
        FactView::Call(c) => IndexView { calls: x.calls.push(c), ..x },
        FactView::Use(u) => IndexView { uses: x.uses.push(u), ..x },
        FactView::Extends(e) => IndexView { extends: x.extends.push(e), ..x },
        FactView::Field { class, field, type_ref } => if first_type(x.fields, class, field) is Some {
            x
        } else {
            IndexView {
                fields: x.fields.push(TypedView { owner: class, name: field, type_ref }),
                ..x
            }
        },
        FactView::Element { list, type_ref } => IndexView {
            elements: x.elements.push(
                TypedView { owner: Seq::empty(), name: list, type_ref },
            ),
            ..x
        },
        FactView::LoopVar { function, var, list } => match last_type(
            x.elements,
            Seq::empty(),
            list,
        ) {
            Some(t) => IndexView {
                locals: x.locals.push(TypedView { owner: function, name: var, type_ref: t }),
                ..x
            },
            None => x,
        },
    }
}

/// What is known with facts, in order.
pub open spec fn with_facts(x: IndexView, facts: Seq<FactView>) -> IndexView
    decreases facts.len(),
{
    if facts.len() == 0 {
        x
    } else {
        with_fact(with_facts(x, facts.drop_last()), facts.last())
    }
}

impl FileIndex {
    /// Nothing is known.
    pub fn new() -> (r: Self)
        ensures
            r@ == empty_index(),
    {
        let r = FileIndex {
            symbols: Vec::new(),
            imports: Vec::new(),
            calls: Vec::new(),
            uses: Vec::new(),
            extends: Vec::new(),
            instance_fields: Vec::new(),
            list_element_types: Vec::new(),
            function_locals: Vec::new(),
        };
        assert(r@ =~= empty_index());
        r
    }

    /// The type of the value that a field of a class is first set to.
    pub fn field_type(&self, class_key: &str, field: &str) -> (r: Option<String>)
        ensures
            syntax::text_view(r) == first_type(self@.fields, class_key@, field@),
    {
        find_first_type(&self.instance_fields, class_key, field)
    }

    /// The type of a variable of a function.
    pub fn local_type(&self, function: &str, var: &str) -> (r: Option<String>)
        ensures
            syntax::text_view(r) == last_type(self@.locals, function@, var@),
    {
        find_last_type(&self.function_locals, function, var)
    }

    /// Takes in a fact.
    fn learn(&mut self, f: Fact)
        ensures
            final(self)@ == with_fact(old(self)@, f@),
    {
        let ghost before = self@;
        let ghost fv = f@;
        match f {
            Fact::Symbol(s) => {
                self.symbols.push(s);
            },
            Fact::Call(c) => {
                self.calls.push(c);
            },
            Fact::Use(u) => {
                self.uses.push(u);
            },
            Fact::Extends(e) => {
                self.extends.push(e);
            },
            Fact::Field { class_key, field, type_ref } => {
                if find_first_type(
                    &self.instance_fields,
                    class_key.as_str(),
                    field.as_str(),
                ).is_none() {
                    self.instance_fields.push(
                        TypedName { owner: class_key, name: field, type_ref },
                    );
                }
            },
            Fact::Element { list, type_ref } => {
                let none = String::new();
                assert(none@ =~= Seq::<char>::empty());
                self.list_element_types.push(TypedName { owner: none, name: list, type_ref });
            },
            Fact::LoopVar { function, var, list } => {
                let none = String::new();
                assert(none@ =~= Seq::<char>::empty());
                if let Some(t) = find_last_type(
                    &self.list_element_types,
                    none.as_str(),
                    list.as_str(),
                ) {
                    self.function_locals.push(
                        TypedName { owner: function, name: var, type_ref: t },
                    );
                }
            },
        }
        assert(self@ =~= with_fact(before, fv));
    }

    /// Takes in facts, in order.
    pub fn learn_all(&mut self, facts: Vec<Fact>)
        ensures
            final(self)@ == with_facts(old(self)@, fact_views(facts@)),
    {
        let ghost start = self@;
        let ghost all = facts@;
        let ghost fv = fact_views(all);
        let n = facts.len();
        let mut front = facts;
        let mut back: Vec<Fact> = Vec::new();
        while front.len() > 0
            invariant
                front.len() <= n,
                n == all.len(),
                front@ == all.take(front.len() as int),
                back@.len() == n - front.len(),
                forall|j: int| 0 <= j < back@.len() ==> #[trigger] back@[j] == all[n - 1 - j],
            decreases front.len(),
        {
            if let Some(f) = front.pop() {
                back.push(f);
            }
        }
        let mut i: usize = 0;
        assert(fv.take(0) =~= Seq::<FactView>::empty());
        while i < n
            invariant
                i <= n,
                n == all.len(),
                fv == fact_views(all),
                back@.len() == n - i,
                forall|j: int| 0 <= j < back@.len() ==> #[trigger] back@[j] == all[n - 1 - j],
                self@ == with_facts(start, fv.take(i as int)),
            decreases n - i,
        {
            assert(back@[back@.len() - 1] == all[i as int]);
            if let Some(f) = back.pop() {
                proof {
                    assert(fv.take(i + 1).drop_last() =~= fv.take(i as int));
                    assert(fv.take(i + 1).last() == f@);
                }
                self.learn(f);
            }
            i = i + 1;
        }
        assert(fv.take(n as int) =~= fv);
    }
}

/// The symbol of a file itself.
pub open spec fn file_symbol(path: Seq<char>, content: Seq<char>) -> SymbolView {
    SymbolView {
        key: "$file"@,
        disambiguator: Seq::empty(),
        name: path,
        kind: NodeKind::File,
        span: spans::whole_span(content),
    }
}

/// Builds the symbol of a file itself.
pub fn file_symbol_of(path: &str, content: &str) -> (r: ParsedSymbol)
    ensures
        r@ == file_symbol(path@, content@),
{
    let none = String::new();
    assert(none@ =~= Seq::<char>::empty());
    ParsedSymbol {
        stable_key: owned("$file"),
        disambiguator: none,
        qualified_name: owned(path),
        kind: NodeKind::File,
        span: whole_file_span(content),
    }
}

/// A symbol that a file defines under a key.
pub open spec fn symbol_at(path: Seq<char>, key: Seq<char>, kind: NodeKind, span: SourceSpan) -> SymbolView {
    SymbolView {
        key,
        disambiguator: Seq::empty(),
        name: path + "::"@ + key,
        kind,
        span,
    }
}

/// Builds a symbol that a file defines under a key.
pub fn symbol_of(path: &str, key: &str, kind: NodeKind, span: SourceSpan) -> (r: ParsedSymbol)
    ensures
        r@ == symbol_at(path@, key@, kind, span),
{
    let mut name = owned(path);
    append_text(&mut name, "::");
    append_text(&mut name, key);
    let none = String::new();
    assert(none@ =~= Seq::<char>::empty());
    ParsedSymbol {
        stable_key: owned(key),
        disambiguator: none,
        qualified_name: name,
        kind,
        span,
    }
}

/// How many of the first `n` symbols are of a kind and have a key.
pub open spec fn namesakes(s: Seq<SymbolView>, n: int, kind: NodeKind, key: Seq<char>) -> nat
    decreases n,
{
    if n <= 0 {
        0
    } else {
        namesakes(s, n - 1, kind, key) + (if s[n - 1].kind == kind && s[n - 1].key == key {
            1nat
        } else {
            0nat
        })
    }
}

/// What tells a symbol apart from others with its key: of several functions each but the last is
/// numbered, and so of several classes; the last class is told apart from a function.
pub open spec fn disambiguator_of(s: Seq<SymbolView>, i: int) -> Seq<char> {
    let x = s[i];
    let n = s.len() as int;
    let before = namesakes(s, i, x.kind, x.key);
    let after = namesakes(s, n, x.kind, x.key) - namesakes(s, i + 1, x.kind, x.key);
    match x.kind {
        NodeKind::Function => if after > 0 {
            "fn:"@ + hex::decimal(before)
        } else {
            Seq::empty()
        },
        NodeKind::Class => if after > 0 {
            "class:"@ + hex::decimal(before)
        } else if namesakes(s, n, NodeKind::Function, x.key) > 0 {
            "class"@
        } else {
            Seq::empty()
        },
        _ => Seq::empty(),
    }
}

/// The symbols, told apart.
pub open spec fn told_apart(s: Seq<SymbolView>) -> Seq<SymbolView> {
    Seq::new(
        s.len(),
        |i: int| SymbolView { disambiguator: disambiguator_of(s, i), ..s[i] },
    )
}

/// Counts the symbols among the first `n` that are of a kind and have a key.
fn count_namesakes(v: &Vec<ParsedSymbol>, n: usize, kind: NodeKind, key: &str) -> (r: usize)
    requires
        n <= v.len(),
    ensures
        r == namesakes(v@.map_values(|s: ParsedSymbol| s@), n as int, kind, key@),
        r <= n,
{
    let ghost s = v@.map_values(|s: ParsedSymbol| s@);
    let mut i: usize = 0;
    let mut c: usize = 0;
    while i < n
        invariant
            i <= n,
            n <= v.len(),
            c <= i,
            s == v@.map_values(|s: ParsedSymbol| s@),
            c == namesakes(s, i as int, kind, key@),
        decreases n - i,
    {
        assert(s[i as int] == v@[i as int]@);
        if v[i].kind == kind && same_text(v[i].stable_key.as_str(), key) {
            c = c + 1;
        }
        i = i + 1;
    }
    c
}

/// More symbols hold no fewer namesakes.
proof fn lemma_namesakes_grow(s: Seq<SymbolView>, a: int, b: int, kind: NodeKind, key: Seq<char>)
    requires
        a <= b,
    ensures
        namesakes(s, a, kind, key) <= namesakes(s, b, kind, key),
    decreases b - a,
{
    if a < b {
        lemma_namesakes_grow(s, a, b - 1, kind, key);
    }
}

/// Numbers a namesake.
fn numbered(tag: &str, n: usize) -> (r: String)
    ensures
        r@ == tag@ + hex::decimal(n as nat),
{
    let mut out = owned(tag);
    append_text(&mut out, decimal_text(n as u64).as_str());
    out
}

/// Finds what tells a symbol apart.
fn tell_apart(v: &Vec<ParsedSymbol>, i: usize) -> (r: String)
    requires
        i < v.len(),
    ensures
        r@ == disambiguator_of(v@.map_values(|s: ParsedSymbol| s@), i as int),
{
    let ghost s = v@.map_values(|s: ParsedSymbol| s@);
    assert(s[i as int] == v@[i as int]@);
    let n = v.len();
    let kind = v[i].kind;
    let key = v[i].stable_key.as_str();
    let before = count_namesakes(v, i, kind, key);
    let upto = count_namesakes(v, i + 1, kind, key);
    let all = count_namesakes(v, n, kind, key);
    let functions = count_namesakes(v, n, NodeKind::Function, key);
    proof {
        lemma_namesakes_grow(s, i + 1, n as int, kind, key@);
    }
    let none = String::new();
    assert(none@ =~= Seq::<char>::empty());
    match kind {
        NodeKind::Function => if all > upto {
            numbered("fn:", before)
        } else {
            none
        },
        NodeKind::Class => if all > upto {
            numbered("class:", before)
        } else if functions > 0 {
            owned("class")
        } else {
            none
        },
        _ => none,
    }
}

/// Tells the symbols of a file apart.
pub fn assign_collision_disambiguators(idx: &mut FileIndex)
    ensures
        final(idx)@ == (IndexView { symbols: told_apart(old(idx)@.symbols), ..old(idx)@ }),
{
    let ghost x = idx@;
    let mut marks: Vec<String> = Vec::new();
    let mut i: usize = 0;
    while i < idx.symbols.len()
        invariant
            i <= idx.symbols.len(),
            x == idx@,
            marks.len() == i,
            forall|j: int|
                0 <= j < i ==> (#[trigger] marks@[j])@ == disambiguator_of(x.symbols, j),
        decreases idx.symbols.len() - i,
    {
        marks.push(tell_apart(&idx.symbols, i));
        i = i + 1;
    }
    let mut out: Vec<ParsedSymbol> = Vec::new();
    let mut k: usize = 0;
    while k < idx.symbols.len()
        invariant
            k <= idx.symbols.len(),
            x == idx@,
            marks.len() == idx.symbols.len(),
            forall|j: int|
                0 <= j < marks.len() ==> (#[trigger] marks@[j])@ == disambiguator_of(
                    x.symbols,
                    j,
                ),
            out.len() == k,
            forall|j: int|
                0 <= j < k ==> (#[trigger] out@[j])@ == (SymbolView {
                    disambiguator: disambiguator_of(x.symbols, j),
                    ..x.symbols[j]
                }),
        decreases idx.symbols.len() - k,
    {
        let s = &idx.symbols[k];
        assert(x.symbols[k as int] == s@);
        out.push(
            ParsedSymbol {
                stable_key: owned(s.stable_key.as_str()),
                disambiguator: owned(marks[k].as_str()),
                qualified_name: owned(s.qualified_name.as_str()),
                kind: s.kind,
                span: s.span,
            },
        );
        k = k + 1;
    }
    assert(out@.map_values(|s: ParsedSymbol| s@) =~= told_apart(x.symbols));
    idx.symbols = out;
    assert(idx@ =~= (IndexView { symbols: told_apart(x.symbols), ..x }));
}

/// Symbols of one kind with one key are told apart.
pub proof fn law_namesakes_are_told_apart(s: Seq<SymbolView>, i: int, j: int)
    requires
        0 <= i < j < s.len(),
        s[i].key == s[j].key,
        s[i].kind == NodeKind::Function || s[i].kind == NodeKind::Class,
        s[j].kind == NodeKind::Function || s[j].kind == NodeKind::Class,
    ensures
        disambiguator_of(s, i) != disambiguator_of(s, j),
{
    let n = s.len() as int;
    reveal_strlit("fn:");
    reveal_strlit("class:");
    reveal_strlit("class");
    let (a, b) = (disambiguator_of(s, i), disambiguator_of(s, j));
    let kind = s[i].kind;
    let key = s[i].key;
    let bi = namesakes(s, i, kind, key);
    let bj = namesakes(s, j, s[j].kind, key);
    hex::lemma_decimal_reads_back(bi);
    hex::lemma_decimal_reads_back(bj);
    if s[j].kind == kind {
        lemma_namesakes_grow(s, i + 1, j, kind, key);
        lemma_namesakes_grow(s, j + 1, n, kind, key);
        assert(bi < bj);
        if a == b {
            let t = if kind == NodeKind::Function {
                3int
            } else {
                6int
            };
            if namesakes(s, n, kind, key) > namesakes(s, j + 1, kind, key) {
                assert(a.skip(t) =~= hex::decimal(bi));
                assert(b.skip(t) =~= hex::decimal(bj));
            } else if kind == NodeKind::Class {
                assert(a.len() > 6);
            }
        }
    } else {
        lemma_namesakes_grow(s, i + 1, n, kind, key);
        lemma_namesakes_grow(s, j + 1, n, s[j].kind, key);
        if s[i].kind == NodeKind::Function {
            assert(namesakes(s, i + 1, NodeKind::Function, key) > 0);
            assert(b.len() > 0 && b[0] == 'c');
            assert(a.len() == 0 || a[0] == 'f');
        } else {
            assert(namesakes(s, j + 1, NodeKind::Function, key) > 0);
            assert(a.len() > 0 && a[0] == 'c');
            assert(b.len() == 0 || b[0] == 'f');
        }
    }
}

/// Adds a name to names.
pub fn add_name(names: &mut Vec<String>, name: String)
    ensures
        text::texts(final(names)@) == text::texts(old(names)@).push(name@),
{
    let ghost before = text::texts(names@);
    let ghost nv = name@;
    names.push(name);
    assert(text::texts(names@) =~= before.push(nv));
}

/// What imports hold.
pub open spec fn import_views(v: Seq<ParsedImport>) -> Seq<ImportView> {
    v.map_values(|i: ParsedImport| i@)
}

/// The key of a member: the class and the name, with a point between them.
pub open spec fn member_key(class: Seq<char>, name: Seq<char>) -> Seq<char> {
    class + "."@ + name
}

/// Builds the key of a member.
pub fn member_key_of(class: &str, name: &str) -> (r: String)
    ensures
        r@ == member_key(class@, name@),
{
    let mut out = owned(class);
    append_text(&mut out, ".");
    append_text(&mut out, name);
    out
}

/// A text that is not empty once white space around it is gone.
pub open spec fn some_text(s: Seq<char>) -> Option<Seq<char>> {
    if text::trimmed(s).len() > 0 {
        Some(text::trimmed(s))
    } else {
        None
    }
}

/// Reads a text, white space around it aside.
pub fn read_some_text(s: &str) -> (r: Option<String>)
    ensures
        syntax::text_view(r) == some_text(s@),
{
    let t = text_trim(s);
    if chars_of(t.as_str()).len() > 0 {
        Some(t)
    } else {
        None
    }
}

} // verus!
