//! Pipeline decisions: skipped directories, building the project from
//! parsed modules, and stale output pages.

use pydoc_gen::extract::YamlDoc;
use pydoc_gen::index::{index_entries, render_index, TemplateElement};
use pydoc_gen::model::{DocComment, ImportPath};
use pydoc_gen::parser::parse_source;
use pydoc_gen::pipeline::{is_skipped_dir, module_pages, stale_files, ProjectBuilder};

fn description_only(text: &str) -> Result<YamlDoc, String> {
    match text.strip_prefix("description: ") {
        Some(rest) => Ok(YamlDoc { description: Some(rest.to_string()), ..YamlDoc::default() }),
        None => Err("not a mapping".to_string()),
    }
}

fn segments(p: &str) -> Vec<String> {
    p.split('.').map(|s| s.to_string()).collect()
}

#[test]
fn vcs_and_build_directories_are_skipped() {
    for name in [".git", ".hg", ".svn", "target", "node_modules"] {
        assert!(is_skipped_dir(name), "{name}");
    }
    assert!(!is_skipped_dir("src"));
    assert!(!is_skipped_dir(".github"));
}

#[test]
fn stale_files_are_those_not_written() {
    let files = vec!["index.html".to_string(), "old.html".to_string(), "sub/x.html".to_string()];
    let written = vec!["index.html".to_string()];
    assert_eq!(stale_files(&files, &written), vec!["old.html".to_string(), "sub/x.html".to_string()]);
    assert!(stale_files(&written, &written).is_empty());
}

#[test]
fn empty_builder_gives_empty_project() {
    let project = ProjectBuilder::new().finish();
    assert!(project.elements.is_empty());
    assert!(project.index.is_empty());
    assert!(project.root_path.segments.is_empty());
}

#[test]
fn modules_are_path_sorted_regardless_of_order_added() {
    let mut builder = ProjectBuilder::new();
    let util = parse_source("def zeta():\n    pass\ndef alpha():\n    pass\n").unwrap();
    builder.add_module(segments("pkg.util"), util, &description_only);
    let pkg = parse_source("\"\"\"description: The package.\"\"\"\n").unwrap();
    builder.add_module(segments("pkg"), pkg, &description_only);
    let project = builder.finish();
    assert_eq!(project.root_path, ImportPath::new(vec!["pkg".to_string()]));
    let order: Vec<String> = project.elements.iter().map(|e| e.path.text()).collect();
    assert_eq!(order, vec!["pkg", "pkg.util"]);
    let funcs: Vec<String> = project.elements[1].children.iter().map(|e| e.path.text()).collect();
    assert_eq!(funcs, vec!["pkg.util.alpha", "pkg.util.zeta"]);
    match &project.elements[0].doc {
        DocComment::Parsed(c) => assert_eq!(c.description, "The package."),
        other => panic!("expected parsed docs, got {other:?}"),
    }
    let key = ImportPath::new(segments("pkg.util.zeta"));
    assert_eq!(project.index.get(&key).unwrap().path, key);
    assert_eq!(project.index.len(), 4);
}

#[test]
fn same_names_in_different_modules_stay_distinct() {
    let mut builder = ProjectBuilder::new();
    let a = parse_source("class Helper:\n    \"\"\"description: Helper A.\"\"\"\n").unwrap();
    let b = parse_source("class Helper:\n    \"\"\"description: Helper B.\"\"\"\n").unwrap();
    builder.add_module(segments("pkg.b"), b, &description_only);
    builder.add_module(segments("pkg.a"), a, &description_only);
    let project = builder.finish();
    let ha = project.index.get(&ImportPath::new(segments("pkg.a.Helper"))).unwrap();
    let hb = project.index.get(&ImportPath::new(segments("pkg.b.Helper"))).unwrap();
    match (&ha.doc, &hb.doc) {
        (DocComment::Parsed(x), DocComment::Parsed(y)) => {
            assert_eq!(x.description, "Helper A.");
            assert_eq!(y.description, "Helper B.");
        }
        other => panic!("expected both parsed, got {other:?}"),
    }
}

#[test]
fn index_entries_mirror_the_tree() {
    let mut builder = ProjectBuilder::new();
    let m = parse_source("class A:\n    def go(self):\n        pass\n").unwrap();
    builder.add_module(segments("pkg.a"), m, &description_only);
    let project = builder.finish();
    let entries: Vec<TemplateElement> = index_entries(&project);
    assert_eq!(entries.len(), 1);
    assert_eq!(entries[0].path, "pkg.a");
    assert_eq!(entries[0].kind, "Module");
    assert_eq!(entries[0].children[0].path, "pkg.a.A");
    assert_eq!(entries[0].children[0].kind, "Class");
    assert_eq!(entries[0].children[0].children[0].path, "pkg.a.A.go");
    assert_eq!(entries[0].children[0].children[0].kind, "Function");
    assert_eq!(entries[0].href, "pkg/a.html#pkg.a");
    assert_eq!(entries[0].children[0].children[0].href, "pkg/a.html#pkg.a.A.go");
}

#[test]
fn each_module_gets_its_own_page() {
    let mut builder = ProjectBuilder::new();
    let util = parse_source("def f():\n    pass\n").unwrap();
    builder.add_module(segments("sample.utils"), util, &description_only);
    let pkg = parse_source("\"\"\"description: The package.\"\"\"\n").unwrap();
    builder.add_module(segments("sample"), pkg, &description_only);
    let project = builder.finish();
    let pages = module_pages(&project, ".x{}");
    assert_eq!(pages.len(), 2);
    assert_eq!(pages[0].0, "sample.html");
    assert!(pages[0].1.contains("href=\"index.html\""));
    assert!(pages[0].1.contains("The package."));
    assert_eq!(pages[1].0, "sample/utils.html");
    assert!(pages[1].1.contains("href=\"../index.html\""));
    assert!(pages[1].1.contains("sample.utils.f"));
    assert!(pages[1].1.contains("<style>\n.x{}\n</style>"));
}

#[test]
fn index_page_links_every_element() {
    let mut builder = ProjectBuilder::new();
    let a = parse_source("class Helper:\n    def go(self):\n        pass\n").unwrap();
    builder.add_module(segments("pkg.a"), a, &description_only);
    let b = parse_source("class Helper:\n    pass\n").unwrap();
    builder.add_module(segments("pkg.b"), b, &description_only);
    let project = builder.finish();
    let page = render_index(&project, ".x{}").expect("index renders");
    assert!(page.starts_with("<!DOCTYPE html>"));
    assert!(page.contains("<title>Python Docs</title>"));
    assert!(page.contains("<style>\n.x{}\n</style>"));
    // tera escapes `/` in attribute values as `&#x2F;`.
    assert!(page.contains("href=\"pkg&#x2F;a.html#pkg.a.Helper.go\""));
    assert!(page.contains("href=\"pkg&#x2F;b.html#pkg.b.Helper\""));
    assert!(page.contains("<code>pkg.a.Helper</code>"));
    assert!(page.find("pkg.a.Helper").unwrap() < page.find("pkg.b.Helper").unwrap());
    let empty = render_index(&ProjectBuilder::new().finish(), "").expect("empty index renders");
    assert!(empty.contains("<nav class=\"index\">"));
}
