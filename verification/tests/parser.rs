//! Python source parsing into raw elements.

use pydoc_gen::model::ElementKind;
use pydoc_gen::parser::{parse_source, parsed_module, PyStmt};

#[test]
fn collects_top_level_function() {
    let src = "def foo():\n    pass\n";
    let pm = parse_source(src).expect("parse");
    let els = &pm.elements;
    assert_eq!(els.len(), 1);
    assert_eq!(els[0].name, "foo");
    assert_eq!(els[0].kind, ElementKind::Function);
    assert_eq!(els[0].def_line, 1);
}

#[test]
fn collects_class_with_method_children() {
    let src = "class A:\n    def m(self):\n        pass\n";
    let pm = parse_source(src).expect("parse");
    let els = &pm.elements;
    assert_eq!(els.len(), 1);
    assert_eq!(els[0].kind, ElementKind::Class);
    assert_eq!(els[0].name, "A");
    assert_eq!(els[0].children.len(), 1);
    assert_eq!(els[0].children[0].name, "m");
    assert_eq!(els[0].children[0].def_line, 2);
}

#[test]
fn ignores_non_definition_statements() {
    let src = "import os\nx = 1\ndef f():\n    pass\n";
    let pm = parse_source(src).expect("parse");
    let els = &pm.elements;
    assert_eq!(els.len(), 1);
    assert_eq!(els[0].name, "f");
}

#[test]
fn async_functions_are_functions() {
    let src = "async def a():\n    pass\n";
    let pm = parse_source(src).expect("parse");
    let els = &pm.elements;
    assert_eq!(els.len(), 1);
    assert_eq!(els[0].kind, ElementKind::Function);
    assert_eq!(els[0].name, "a");
}

#[test]
fn captures_function_docstring() {
    let src = "def f():\n    \"\"\"Does a thing.\n\n    @arg x  input.\n    \"\"\"\n    return x\n";
    let pm = parse_source(src).expect("parse");
    let doc = pm.elements[0].docstring.as_deref().expect("docstring");
    assert!(doc.contains("Does a thing."));
    assert!(doc.contains("@arg x"));
}

#[test]
fn captures_module_docstring() {
    let src = "\"\"\"Module docs.\"\"\"\n\ndef f():\n    pass\n";
    let pm = parse_source(src).expect("parse");
    let doc = pm.module_doc.as_deref().expect("module docstring");
    assert_eq!(doc, "Module docs.");
}

#[test]
fn assignment_before_docstring_is_not_module_doc() {
    let src = "x = 1\n\"\"\"Not really a docstring here.\"\"\"\n";
    let pm = parse_source(src).expect("parse");
    assert_eq!(pm.module_doc, None);
}

#[test]
fn empty_docstring_counts_as_none() {
    let src = "def f():\n    \"\"\"\"\"\"\n    pass\n";
    let pm = parse_source(src).expect("parse");
    assert_eq!(pm.elements[0].docstring, None);
}

#[test]
fn syntax_error_is_a_parse_error() {
    let r = parse_source("def (:\n");
    assert!(r.is_err());
}

#[test]
fn definitions_inside_functions_are_not_collected() {
    let src = "\n\ndef outer():\n    def inner():\n        pass\nclass K:\n    class Inner:\n        def m(self):\n            pass\n";
    let pm = parse_source(src).expect("parse");
    let outer = &pm.elements[0];
    assert_eq!(outer.def_line, 3);
    assert!(outer.children.is_empty());
    let k = &pm.elements[1];
    assert_eq!(k.kind, ElementKind::Class);
    assert_eq!(k.def_line, 6);
    assert_eq!(k.children[0].name, "Inner");
    assert_eq!(k.children[0].def_line, 7);
    assert_eq!(k.children[0].children[0].name, "m");
    assert_eq!(k.children[0].children[0].def_line, 8);
}

#[test]
fn parsed_module_collects_definitions_from_statements() {
    let source = b"\"\"\"doc\"\"\"\nclass K:\n    def m(self): pass\n";
    let stmts = vec![
        PyStmt::StrExpr { value: "doc".to_string() },
        PyStmt::ClassDef {
            name: "K".to_string(),
            body: vec![
                PyStmt::StrExpr { value: String::new() },
                PyStmt::FunctionDef { name: "m".to_string(), body: vec![PyStmt::Other], start: 22 },
            ],
            start: 10,
        },
        PyStmt::Other,
    ];
    let pm = parsed_module(&stmts, source);
    assert_eq!(pm.module_doc.as_deref(), Some("doc"));
    assert_eq!(pm.elements.len(), 1);
    let k = &pm.elements[0];
    assert_eq!((k.name.as_str(), k.kind, k.def_line), ("K", ElementKind::Class, 2));
    assert_eq!(k.docstring, None);
    assert_eq!(k.children[0].name, "m");
    assert_eq!(k.children[0].def_line, 3);
    let beyond = vec![PyStmt::AsyncFunctionDef { name: "a".to_string(), body: Vec::new(), start: 999 }];
    assert_eq!(parsed_module(&beyond, source).elements[0].def_line, 1);
}
