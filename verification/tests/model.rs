//! The documented-element model: ordering, sorting and the flat index.

use pydoc_gen::model::{
    string_lt, DocComment, DocumentedElement, DocumentedProject, ElementIndex, ElementKind,
    ImportPath,
};

fn path(text: &str) -> ImportPath {
    ImportPath::new(text.split('.').map(|s| s.to_string()).collect())
}

fn element(text: &str, kind: ElementKind) -> DocumentedElement {
    DocumentedElement::new(path(text), kind)
}

#[test]
fn new_element_has_no_doc_and_no_children() {
    let e = element("pkg.mod", ElementKind::Module);
    assert_eq!(e.doc, DocComment::Absent);
    assert!(e.children.is_empty());
    assert_eq!(e.kind.label(), "Module");
    assert_eq!(ElementKind::Class.label(), "Class");
    assert_eq!(ElementKind::Function.label(), "Function");
}

#[test]
fn paths_order_lexicographically_by_segment() {
    assert!(path("pkg.a").precedes(&path("pkg.b")));
    assert!(path("pkg").precedes(&path("pkg.a")));
    assert!(!path("pkg.b").precedes(&path("pkg.a")));
    assert!(!path("pkg.a").precedes(&path("pkg.a")));
    assert!(path("pkg.Z").precedes(&path("pkg.a")));
    assert!(path("pkg.a").same_as(&path("pkg.a")));
    assert!(!path("pkg.a").same_as(&path("pkg.a.b")));
    assert!(string_lt(&"ab".to_string(), &"b".to_string()));
    assert!(!string_lt(&"b".to_string(), &"ab".to_string()));
    assert_eq!(ImportPath::new(Vec::new()).name(), "");
    assert_eq!(ImportPath::new(Vec::new()).text(), "");
}

#[test]
fn sort_by_path_orders_children_at_every_level() {
    let mut class = element("m.B", ElementKind::Class);
    class.children = vec![element("m.B.z", ElementKind::Function), element("m.B.a", ElementKind::Function)];
    let mut module = element("m", ElementKind::Module);
    module.children = vec![element("m.c", ElementKind::Function), class, element("m.A", ElementKind::Class)];
    module.sort_by_path();
    let names: Vec<String> = module.children.iter().map(|c| c.path.text()).collect();
    assert_eq!(names, vec!["m.A", "m.B", "m.c"]);
    let inner: Vec<String> = module.children[1].children.iter().map(|c| c.path.text()).collect();
    assert_eq!(inner, vec!["m.B.a", "m.B.z"]);
}

#[test]
fn sort_is_independent_of_declaration_order() {
    let mut first = element("m", ElementKind::Module);
    first.children = vec![element("m.zeta", ElementKind::Function), element("m.alpha", ElementKind::Function)];
    let mut second = element("m", ElementKind::Module);
    second.children = vec![element("m.alpha", ElementKind::Function), element("m.zeta", ElementKind::Function)];
    first.sort_by_path();
    second.sort_by_path();
    assert_eq!(first, second);
}

#[test]
fn index_keeps_one_entry_per_path_in_order() {
    let mut index = ElementIndex::new();
    assert!(index.is_empty());
    index.insert(element("pkg.b", ElementKind::Module));
    index.insert(element("pkg.a", ElementKind::Module));
    index.insert(element("pkg.a", ElementKind::Class));
    assert_eq!(index.len(), 2);
    assert_eq!(index.get(&path("pkg.a")).unwrap().kind, ElementKind::Class);
    assert!(index.contains_key(&path("pkg.b")));
    assert!(!index.contains_key(&path("pkg.c")));
    index.clear();
    assert_eq!(index.len(), 0);
}

#[test]
fn rebuild_index_covers_every_nested_element() {
    let mut helper_a = element("pkg.a.Helper", ElementKind::Class);
    helper_a.children = vec![element("pkg.a.Helper.go", ElementKind::Function)];
    let mut a = element("pkg.a", ElementKind::Module);
    a.children = vec![helper_a];
    let mut b = element("pkg.b", ElementKind::Module);
    b.children = vec![element("pkg.b.Helper", ElementKind::Class)];
    let mut project = DocumentedProject {
        root_path: path("pkg"),
        elements: vec![a, b],
        index: ElementIndex::new(),
    };
    project.rebuild_index();
    assert_eq!(project.index.len(), 5);
    for p in ["pkg.a", "pkg.b", "pkg.a.Helper", "pkg.b.Helper", "pkg.a.Helper.go"] {
        assert!(project.index.contains_key(&path(p)), "{p} indexed");
    }
    assert_eq!(project.index.get(&path("pkg.b.Helper")).unwrap().path.text(), "pkg.b.Helper");
}

#[test]
fn duplicate_copies_the_whole_tree() {
    let mut a = element("pkg.a", ElementKind::Module);
    a.children = vec![element("pkg.a.f", ElementKind::Function)];
    a.doc = DocComment::Error("bad".to_string());
    assert_eq!(a.duplicate(), a);
    assert_eq!(a.path.duplicate(), a.path);
}

#[test]
fn sorting_twice_changes_nothing() {
    let mut class = element("m.B", ElementKind::Class);
    class.children = vec![element("m.B.z", ElementKind::Function), element("m.B.a", ElementKind::Function)];
    let mut module = element("m", ElementKind::Module);
    module.children = vec![element("m.c", ElementKind::Function), class];
    module.sort_by_path();
    let once = module.duplicate();
    module.sort_by_path();
    assert_eq!(module, once);
}

#[test]
fn nested_declaration_order_does_not_matter() {
    let mut b1 = element("m.B", ElementKind::Class);
    b1.children = vec![element("m.B.z", ElementKind::Function), element("m.B.a", ElementKind::Function)];
    let mut first = element("m", ElementKind::Module);
    first.children = vec![b1, element("m.A", ElementKind::Class)];
    let mut b2 = element("m.B", ElementKind::Class);
    b2.children = vec![element("m.B.a", ElementKind::Function), element("m.B.z", ElementKind::Function)];
    let mut second = element("m", ElementKind::Module);
    second.children = vec![element("m.A", ElementKind::Class), b2];
    first.sort_by_path();
    second.sort_by_path();
    assert_eq!(first, second);
}
