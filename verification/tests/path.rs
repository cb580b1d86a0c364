//! Module import paths from source file paths.

use pydoc_gen::model::ImportPath;
use pydoc_gen::path::{module_path_from_parts, module_path_from_relative};

#[test]
fn converts_nested_module() {
    let segs = module_path_from_relative("pkg/sub/mod.py").expect("module");
    assert_eq!(segs, vec!["pkg", "sub", "mod"]);
}

#[test]
fn converts_init_as_package() {
    let segs = module_path_from_relative("pkg/sub/__init__.py").expect("module");
    assert_eq!(segs, vec!["pkg", "sub"]);
}

#[test]
fn converts_top_level_module() {
    let segs = module_path_from_relative("utils.py").expect("module");
    assert_eq!(segs, vec!["utils"]);
}

#[test]
fn rejects_non_python_file() {
    assert_eq!(module_path_from_relative("readme.md"), None);
}

#[test]
fn path_from_nested_module() {
    let segments = module_path_from_relative("src/pkg/sub/mod.py").expect("module");
    assert_eq!(ImportPath::new(segments).text(), "src.pkg.sub.mod");
}

#[test]
fn path_from_init_is_package() {
    let segments = module_path_from_relative("src/pkg/sub/__init__.py").expect("package");
    assert_eq!(ImportPath::new(segments).text(), "src.pkg.sub");
}

#[test]
fn child_appends_segment() {
    let parent = ImportPath::new(vec!["pkg".into(), "mod".into()]);
    assert_eq!(parent.child("Class").text(), "pkg.mod.Class");
    assert_eq!(parent.child("Class").name(), "Class");
}

#[test]
fn full_path_uniquely_identifies_same_names() {
    let a = ImportPath::new(vec!["pkg".into(), "a".into(), "Helper".into()]);
    let b = ImportPath::new(vec!["pkg".into(), "b".into(), "Helper".into()]);
    assert_ne!(a, b);
    assert_eq!(a.text(), "pkg.a.Helper");
    assert_eq!(b.text(), "pkg.b.Helper");
}

#[test]
fn top_level_init_is_named_init() {
    assert_eq!(module_path_from_relative("__init__.py"), Some(vec!["__init__".to_string()]));
    assert_eq!(module_path_from_relative("pkg/__init__.py"), Some(vec!["pkg".to_string()]));
}

#[test]
fn file_without_extension_is_not_a_module() {
    assert_eq!(module_path_from_relative("pkg/Makefile"), None);
    assert_eq!(module_path_from_relative("pkg/mod.pyc"), None);
}

#[test]
fn parts_skip_unnamed_components() {
    let r = module_path_from_parts(
        &Some("py".to_string()),
        &vec![None, Some("pkg".to_string()), Some(String::new())],
        &Some("mod".to_string()),
    );
    assert_eq!(r, Some(vec!["pkg".to_string(), "mod".to_string()]));
    assert_eq!(
        module_path_from_parts(&Some("txt".to_string()), &Vec::new(), &Some("a".to_string())),
        None
    );
}

#[test]
fn root_component_is_kept_as_a_segment() {
    assert_eq!(
        module_path_from_relative("/abs/mod.py"),
        Some(vec!["/".to_string(), "abs".to_string(), "mod".to_string()])
    );
}
