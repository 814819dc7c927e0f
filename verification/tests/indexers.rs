use cis_core::file_index::{symbol_identity_key, CallReceiver, FileIndex};
use cis_core::graph::NodeKind;
use cis_core::language_indexer::LanguageIndexer;
use cis_core::python_indexer::{
    extract_python_file_index_regex, extract_python_top_level_defs, index_python_file,
    parse_import_names, path_to_python_module_key,
};
use cis_core::rust_indexer::{index_rust_file, path_to_rust_module_key, RustIndexer};
use cis_core::typescript_indexer::{
    index_typescript_file, index_typescript_file_regex, path_to_typescript_module_key,
    TypeScriptIndexer, TypeScriptTsxIndexer,
};

#[test]
fn indexes_struct_and_impl_method() {
    let src = r#"
struct Board {
    cells: Vec<Cell>,
}

impl Board {
    fn new() -> Self {
        Board { cells: vec![] }
    }

    fn get_cell(&self, idx: usize) -> &Cell {
        &self.cells[idx]
    }
}
"#;
    let idx = index_rust_file("board.rs", src).unwrap();
    assert!(idx.symbols.iter().any(|s| s.stable_key == "Board" && s.kind == NodeKind::Class));
    assert!(idx.symbols.iter().any(|s| s.stable_key == "Board.new" && s.kind == NodeKind::Function));
    assert!(idx.symbols.iter().any(|s| s.stable_key == "Board.get_cell" && s.kind == NodeKind::Function));
}

#[test]
fn indexes_trait_impl_extends() {
    let src = r#"
trait Display {
    fn fmt(&self) -> String;
}

struct Foo;

impl Display for Foo {
    fn fmt(&self) -> String { String::new() }
}
"#;
    let idx = index_rust_file("foo.rs", src).unwrap();
    assert!(idx.extends.iter().any(|e| e.class_stable_key == "Foo" && e.base_name == "Display"));
}

#[test]
fn indexes_use_declarations() {
    let src = "use std::collections::HashMap;\nuse crate::graph::{NodeKind, Language};\n";
    let idx = index_rust_file("lib.rs", src).unwrap();
    assert!(!idx.imports.is_empty());
    let crate_graph = idx
        .imports
        .iter()
        .find(|i| i.module == "crate.graph")
        .expect("crate::graph import");
    assert!(crate_graph.names.iter().any(|n| n == "NodeKind"));
    assert!(crate_graph.names.iter().any(|n| n == "Language"));
}

#[test]
fn module_key_uses_dot_separators() {
    assert_eq!(
        path_to_rust_module_key("cis-core/src/coordinator.rs"),
        "cis-core.src.coordinator"
    );
    assert_eq!(path_to_rust_module_key("cis-core/src/lib.rs"), "cis-core.src");
    assert_eq!(path_to_rust_module_key("cis-core/src/foo/mod.rs"), "cis-core.src.foo");
}

#[test]
fn indexes_enum_and_type_alias() {
    let src = r#"
enum Color { Red, Green, Blue }
type Result<T> = std::result::Result<T, Error>;
"#;
    let idx = index_rust_file("types.rs", src).unwrap();
    assert!(idx.symbols.iter().any(|s| s.stable_key == "Color" && s.kind == NodeKind::Class));
    assert!(idx.symbols.iter().any(|s| s.stable_key == "Result" && s.kind == NodeKind::Class));
}

#[test]
fn indexes_call_sites() {
    let src = r#"
fn main() {
    let board = Board::new();
    board.get_cell(0);
    helper();
}
fn helper() {}
"#;
    let idx = index_rust_file("main.rs", src).unwrap();
    assert!(idx.calls.iter().any(|c| c.caller_stable_key == "main"));
    let associated = idx
        .calls
        .iter()
        .find(|c| c.callee.label() == "Board.new")
        .expect("Board::new should be Attr(Board, new)");
    assert!(matches!(
        &associated.callee,
        CallReceiver::Attr { name, .. } if name == "new"
    ));
    assert!(idx.calls.iter().any(|c| c.callee.label() == "board.get_cell"));
    assert!(idx.calls.iter().any(|c| c.callee.label() == "helper"));
}

#[test]
fn indexes_type_uses_and_disambiguates_collisions() {
    let src = r#"
struct Foo {}
fn Foo() {}
fn helper(x: Board) -> Cell { Cell }
"#;
    let idx = index_rust_file("mix.rs", src).unwrap();
    let foos: Vec<_> = idx.symbols.iter().filter(|s| s.stable_key == "Foo").collect();
    assert_eq!(foos.len(), 2);
    assert!(foos.iter().any(|s| s.kind == NodeKind::Class && s.disambiguator == "class"));
    assert!(foos.iter().any(|s| s.kind == NodeKind::Function && s.disambiguator.is_empty()));
    assert!(idx.uses.iter().any(|u| u.owner_stable_key == "helper" && u.type_ref == "Board"));
    assert!(idx.uses.iter().any(|u| u.owner_stable_key == "helper" && u.type_ref == "Cell"));
}

#[test]
fn indexes_ts_function_and_call() {
    let src = "import { foo } from './util';\nexport function main() {\n  foo();\n}\n";
    let idx = index_typescript_file("app.ts", src).unwrap();
    assert!(idx.symbols.iter().any(|s| s.stable_key == "main"));
    assert!(!idx.calls.is_empty());
}

#[test]
fn ts_tree_sitter_indexes_class_and_interface() {
    let src = r#"
interface Drawable {
    draw(): void;
}

class Board implements Drawable {
    private size: number;

    constructor(size: number) {
        this.size = size;
    }

    draw(): void {
        console.log('drawing');
    }

    getSize(): number {
        return this.size;
    }
}
"#;
    let idx = index_typescript_file("board.ts", src).unwrap();
    assert!(idx.symbols.iter().any(|s| s.stable_key == "Drawable" && s.kind == NodeKind::Class));
    assert!(idx.symbols.iter().any(|s| s.stable_key == "Board" && s.kind == NodeKind::Class));
    assert!(idx.symbols.iter().any(|s| s.stable_key == "Board.constructor"));
    assert!(idx.symbols.iter().any(|s| s.stable_key == "Board.draw"));
    assert!(idx.symbols.iter().any(|s| s.stable_key == "Board.getSize"));
}

#[test]
fn ts_tree_sitter_indexes_enum_and_type_alias() {
    let src = r#"
enum Color { Red, Green, Blue }
type Point = { x: number; y: number; };
"#;
    let idx = index_typescript_file("types.ts", src).unwrap();
    assert!(idx.symbols.iter().any(|s| s.stable_key == "Color"));
    assert!(idx.symbols.iter().any(|s| s.stable_key == "Point"));
}

#[test]
fn ts_tree_sitter_indexes_arrow_function() {
    let src = "const add = (a: number, b: number): number => a + b;\n";
    let idx = index_typescript_file("util.ts", src).unwrap();
    assert!(idx.symbols.iter().any(|s| s.stable_key == "add" && s.kind == NodeKind::Function));
}

#[test]
fn ts_tree_sitter_indexes_extends_implements_and_instance_fields() {
    let src = r#"
class Dog extends Animal implements Runnable {
    constructor() {
        this.cells = new ArrayList();
        this.board = Board();
    }

    tick(): void {
        this.cells.get(0);
    }
}

@abstractmethod
abstract class Foo extends Bar {
    method(): void {}
}
"#;
    let idx = index_typescript_file("dog.ts", src).unwrap();
    assert!(idx.extends.iter().any(|e| e.class_stable_key == "Dog" && e.base_name == "Animal"));
    assert!(idx.extends.iter().any(|e| e.class_stable_key == "Dog" && e.base_name == "Runnable"));
    assert!(idx.extends.iter().any(|e| e.class_stable_key == "Foo" && e.base_name == "Bar"));
    assert!(idx.symbols.iter().any(|s| s.stable_key == "Foo" && s.kind == NodeKind::Class));
    assert!(idx.symbols.iter().any(|s| s.stable_key == "Foo.method"));
    assert_eq!(idx.field_type("Dog", "cells").as_deref(), Some("ArrayList"));
    assert_eq!(idx.field_type("Dog", "board").as_deref(), Some("Board"));
}

#[test]
fn indexer_disambiguates_class_and_function_same_name() {
    let src = "class foo:\n    pass\n\ndef foo():\n    return 1\n";
    let idx = index_python_file("m.py", src).unwrap();
    let classes: Vec<_> = idx
        .symbols
        .iter()
        .filter(|s| s.kind == NodeKind::Class && s.stable_key == "foo")
        .collect();
    let funcs: Vec<_> = idx
        .symbols
        .iter()
        .filter(|s| s.kind == NodeKind::Function && s.stable_key == "foo")
        .collect();
    assert_eq!(classes.len(), 1);
    assert_eq!(funcs.len(), 1);
    assert_eq!(classes[0].disambiguator, "class");
    assert_eq!(funcs[0].disambiguator, "");
    assert_eq!(classes[0].qualified_name, "m.py::foo");
    assert_eq!(funcs[0].qualified_name, "m.py::foo");
    assert_ne!(classes[0].identity_key(), funcs[0].identity_key());
    assert_eq!(funcs[0].identity_key(), symbol_identity_key("foo", ""));
    assert_eq!(classes[0].identity_key(), symbol_identity_key("foo", "class"));
}

#[test]
fn indexer_disambiguates_duplicate_function_defs() {
    let src = "def foo(x: int):\n    ...\n\ndef foo(x: str):\n    ...\n\ndef foo(x):\n    return x\n";
    let idx = index_python_file("m.py", src).unwrap();
    let foos: Vec<_> = idx
        .symbols
        .iter()
        .filter(|s| s.kind == NodeKind::Function && s.stable_key == "foo")
        .collect();
    assert_eq!(foos.len(), 3);
    assert_eq!(foos[0].disambiguator, "fn:0");
    assert_eq!(foos[1].disambiguator, "fn:1");
    assert_eq!(foos[2].disambiguator, "");
    let keys: std::collections::HashSet<_> = foos.iter().map(|s| s.identity_key()).collect();
    assert_eq!(keys.len(), 3);
    assert!(foos.iter().all(|s| s.qualified_name == "m.py::foo"));
}

fn has_call(idx: &FileIndex, caller: &str, callee: &str) -> bool {
    idx.calls.iter().any(|c| c.caller_stable_key == caller && c.callee.label() == callee)
}

#[test]
fn python_imports_calls_and_fields() {
    let src = "import os\nfrom chess.board import Board, Cell as C\n\nclass Game(Base):\n    def __init__(self):\n        self.board = Board()\n\n    def play(self):\n        self.board.move(1)\n        helper()\n\ndef helper():\n    os.getcwd()\n";
    let idx = index_python_file("chess/game.py", src).unwrap();
    assert!(idx.imports.iter().any(|i| i.module == "os"));
    assert!(idx.imports.iter().any(|i| i.module == "chess.board" && i.names.iter().any(|n| n == "Board")));
    assert!(idx.extends.iter().any(|e| e.class_stable_key == "Game" && e.base_name == "Base"));
    assert!(idx.symbols.iter().any(|s| s.stable_key == "Game.play"));
    assert!(has_call(&idx, "Game.play", "self.board.move"));
    assert!(has_call(&idx, "Game.play", "helper"));
    assert!(has_call(&idx, "helper", "os.getcwd"));
    assert_eq!(idx.field_type("Game", "board").as_deref(), Some("Board"));
}

#[test]
fn python_regex_finds_functions_and_calls() {
    let src = "def a(x):\n    b(x)\n\ndef b(y):\n    return y\n\nb(3)\n";
    let idx = extract_python_file_index_regex("m.py", src).unwrap();
    assert!(idx.symbols.iter().any(|s| s.stable_key == "a"));
    assert!(idx.symbols.iter().any(|s| s.stable_key == "b"));
    assert!(has_call(&idx, "a", "b"));
}

#[test]
fn python_top_level_names() {
    let names = extract_python_top_level_defs("def a():\n    pass\n\nclass B:\n    def c(self):\n        pass\n").unwrap();
    assert!(names.iter().any(|n| n == "a"));
    assert!(!names.iter().any(|n| n == "B.c"));
}

#[test]
fn python_import_name_list() {
    assert_eq!(parse_import_names("Board, Cell as C"), vec!["Board".to_string(), "Cell".to_string()]);
}

#[test]
fn module_keys_of_paths() {
    assert_eq!(path_to_python_module_key("pkg/sub/mod.py"), "pkg.sub.mod");
    assert_eq!(path_to_python_module_key("pkg/__init__.py"), "pkg.__init__");
    assert_eq!(path_to_typescript_module_key("src/app.ts"), TypeScriptIndexer.module_key("src/app.ts"));
}

#[test]
fn typescript_regex_finds_functions() {
    let src = "import { foo } from './util';\nexport function main() {\n  foo();\n}\n";
    let idx = index_typescript_file_regex("app.ts", src).unwrap();
    assert!(idx.symbols.iter().any(|s| s.stable_key == "main"));
    assert!(idx.imports.iter().any(|i| i.names.iter().any(|n| n == "foo")));
}

#[test]
fn indexers_know_their_files() {
    assert_eq!(RustIndexer.file_extension(), "rs");
    assert_eq!(TypeScriptIndexer.file_extension(), "ts");
    assert_eq!(TypeScriptTsxIndexer.file_extension(), "tsx");
    let idx = RustIndexer.index_file("m.rs", "fn f() {}\n").unwrap();
    assert!(idx.symbols.iter().any(|s| s.stable_key == "f"));
}
