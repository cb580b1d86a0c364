//! Docstring interpretation: YAML mappings, plain prose, malformed text and
//! legacy `@`-tags, and the module elements built from parsed files.

use pydoc_gen::extract::{
    module_element, parse_yaml_docstring_with, yaml_outcome, YamlArg, YamlDoc, YamlParseResult,
    YamlRaise, YamlReturn,
};
use pydoc_gen::model::{DocComment, DocContent, ImportPath};
use pydoc_gen::parser::parse_source;
use serde_yml::{Mapping, Value};

fn field_text(m: &Mapping, key: &str) -> Result<Option<String>, String> {
    match m.get(key) {
        None | Some(Value::Null) => Ok(None),
        Some(Value::String(s)) => Ok(Some(s.clone())),
        Some(_) => Err(format!("invalid type for `{key}`: expected a string")),
    }
}

fn required_text(m: &Mapping, key: &str) -> Result<String, String> {
    field_text(m, key)?.ok_or_else(|| format!("missing field `{key}`"))
}

fn entries(m: &Mapping, key: &str) -> Result<Option<Vec<Mapping>>, String> {
    match m.get(key) {
        None | Some(Value::Null) => Ok(None),
        Some(Value::Sequence(items)) => items
            .iter()
            .map(|item| {
                item.as_mapping()
                    .cloned()
                    .ok_or_else(|| format!("invalid type in `{key}`: expected a mapping"))
            })
            .collect::<Result<Vec<_>, _>>()
            .map(Some),
        Some(_) => Err(format!("invalid type for `{key}`: expected a sequence")),
    }
}

/// Deserializes docstring text into the mapping schema the way the
/// derived deserializer does: recognized keys are checked for shape, other
/// keys are ignored.
fn yaml_mapping(text: &str) -> Result<YamlDoc, String> {
    let value: Value = serde_yml::from_str(text).map_err(|e| e.to_string())?;
    let m = value
        .as_mapping()
        .ok_or_else(|| "invalid type: expected a mapping".to_string())?;
    let args = match entries(m, "args")? {
        None => None,
        Some(list) => Some(
            list.iter()
                .map(|a| {
                    Ok(YamlArg {
                        name: required_text(a, "name")?,
                        description: required_text(a, "description")?,
                    })
                })
                .collect::<Result<Vec<_>, String>>()?,
        ),
    };
    let returns = match m.get("returns") {
        None | Some(Value::Null) => None,
        Some(Value::Mapping(r)) => Some(YamlReturn { description: required_text(r, "description")? }),
        Some(_) => return Err("invalid type for `returns`: expected a mapping".to_string()),
    };
    let raises = match entries(m, "raises")? {
        None => None,
        Some(list) => Some(
            list.iter()
                .map(|r| {
                    let exception = match field_text(r, "type")? {
                        Some(t) => t,
                        None => required_text(r, "exception")?,
                    };
                    Ok(YamlRaise { exception, description: required_text(r, "description")? })
                })
                .collect::<Result<Vec<_>, String>>()?,
        ),
    };
    Ok(YamlDoc { description: field_text(m, "description")?, args, returns, raises })
}

fn parse_yaml(text: &str) -> YamlParseResult {
    parse_yaml_docstring_with(text, yaml_mapping(text))
}

fn module(name: &str) -> ImportPath {
    ImportPath::new(vec![name.to_string()])
}

fn build(source: &str) -> pydoc_gen::model::DocumentedElement {
    let pm = parse_source(source).unwrap();
    module_element(&module("m"), &pm.elements, pm.module_doc, &yaml_mapping)
}

fn empty_content(description: &str) -> DocContent {
    DocContent { description: description.to_string(), ..DocContent::default() }
}

#[test]
fn undocumented_elements_get_none() {
    let el = build("def f():\n    pass\n");
    assert_eq!(el.doc, DocComment::Absent);
    assert_eq!(el.children[0].doc, DocComment::Absent);
}

#[test]
fn documented_function_gets_yaml_docstring() {
    let el = build("def f():\n    \"\"\"\n    description: Does a thing.\n\n    returns:\n      description: the count\n    \"\"\"\n    return 1\n");
    match &el.children[0].doc {
        DocComment::Parsed(content) => {
            assert!(content.description.contains("Does a thing."));
            assert!(content.returns.is_some());
        }
        other => panic!("expected Ok docstring, got {other:?}"),
    }
}

#[test]
fn malformed_docstring_yields_error() {
    let el = build("def f():\n    \"\"\"args: not a list\n    \"\"\"\n    pass\n");
    match &el.children[0].doc {
        DocComment::Error(msg) => {
            assert!(msg.contains("docstring was not written correctly"));
        }
        other => panic!("expected Error, got {other:?}"),
    }
}

#[test]
fn children_are_nested_under_parent_path() {
    let el = build("class A:\n    def m(self):\n        pass\n");
    assert_eq!(el.children[0].path.text(), "m.A");
    assert_eq!(el.children[0].children[0].path.text(), "m.A.m");
}

#[test]
fn module_gets_docstring() {
    let el = build("\"\"\"description: Module level docs.\"\"\"\n\ndef f():\n    pass\n");
    match &el.doc {
        DocComment::Parsed(content) => assert!(content.description.contains("Module level docs.")),
        other => panic!("expected Ok module docstring, got {other:?}"),
    }
}

#[test]
fn prose_docstring_is_description_only() {
    let el = build("def f():\n    \"\"\"Just some words.\"\"\"\n    pass\n");
    match &el.children[0].doc {
        DocComment::Parsed(content) => {
            assert_eq!(content.description, "Just some words.");
            assert!(content.args.is_empty());
            assert!(content.returns.is_none());
            assert!(content.raises.is_empty());
        }
        other => panic!("expected Ok prose docstring, got {other:?}"),
    }
}

#[test]
fn full_mapping_extracts_all_sections() {
    let text = "description: A real docstring.\n\nargs:\n  - name: with_this_str\n    description: A nice string.\n\nreturns:\n  description: A cooler string.\n\nraises:\n  - type: ValueError\n    description: If the string is too cool.\n  - exception: TypeError\n    description: Wrong kind of cool.";
    match parse_yaml(text) {
        YamlParseResult::Parsed(content) => {
            assert_eq!(content.description, "A real docstring.");
            assert_eq!(content.args.len(), 1);
            assert_eq!(content.args[0].name, "with_this_str");
            assert_eq!(content.args[0].description, "A nice string.");
            assert!(content.returns.is_some());
            assert_eq!(content.returns.as_ref().unwrap().description, "A cooler string.");
            assert_eq!(content.raises.len(), 2);
            assert_eq!(content.raises[0].exception, "ValueError");
            assert_eq!(content.raises[1].exception, "TypeError");
        }
        other => panic!("expected Ok, got {other:?}"),
    }
}

#[test]
fn description_only_mapping_is_ok() {
    match parse_yaml("description: Just a description.") {
        YamlParseResult::Parsed(content) => {
            assert_eq!(content.description, "Just a description.");
            assert!(content.args.is_empty());
            assert!(content.returns.is_none());
            assert!(content.raises.is_empty());
        }
        other => panic!("expected Ok, got {other:?}"),
    }
}

#[test]
fn unknown_keys_are_tolerated() {
    let text = "description: Structured docs.\n\nexample: |\n  fn do_it(s: str) -> str: ...\n\nreturns:\n  type: str\n  description: A string.\n\nargs:\n  - name: s\n    description: input\n    optional: false";
    match parse_yaml(text) {
        YamlParseResult::Parsed(content) => {
            assert_eq!(content.description, "Structured docs.");
            assert_eq!(content.args.len(), 1);
            assert_eq!(content.args[0].name, "s");
            assert_eq!(content.args[0].description, "input");
            assert!(content.returns.is_some());
            assert_eq!(content.returns.as_ref().unwrap().description, "A string.");
        }
        other => panic!("expected Ok, got {other:?}"),
    }
}

#[test]
fn extract_prose_docstring_is_description_only() {
    let text = "A documentation comment without structure.";
    assert_eq!(
        parse_yaml(text),
        YamlParseResult::Parsed(empty_content("A documentation comment without structure."))
    );
}

#[test]
fn multi_line_prose_is_a_description() {
    match parse_yaml("First line.\n\nSecond line.") {
        YamlParseResult::Parsed(content) => {
            assert!(content.description.starts_with("First line."));
            assert!(content.description.contains("Second line."));
            assert!(content.args.is_empty());
        }
        other => panic!("expected Ok, got {other:?}"),
    }
}

#[test]
fn malformed_yaml_is_an_error() {
    match parse_yaml("args: [unclosed") {
        YamlParseResult::Error(msg) => assert!(msg.contains("docstring was not written correctly")),
        other => panic!("expected Error, got {other:?}"),
    }
}

#[test]
fn args_wrong_shape_is_an_error() {
    assert!(matches!(parse_yaml("args: nope"), YamlParseResult::Error(_)));
}

#[test]
fn missing_required_field_is_an_error() {
    assert!(matches!(parse_yaml("args:\n  - name: x\n  - {}\n"), YamlParseResult::Error(_)));
}

#[test]
fn returns_wrong_shape_is_an_error() {
    assert!(matches!(parse_yaml("returns: not a mapping"), YamlParseResult::Error(_)));
}

#[test]
fn raises_without_type_is_an_error() {
    assert!(matches!(
        parse_yaml("raises:\n  - description: no type here"),
        YamlParseResult::Error(_)
    ));
}

#[test]
fn legacy_arg_tag_is_an_error() {
    match parse_yaml("@arg x  the input") {
        YamlParseResult::Error(msg) => assert!(msg.contains("docstring was not written correctly")),
        other => panic!("expected Error, got {other:?}"),
    }
}

#[test]
fn legacy_return_tag_is_an_error() {
    assert!(matches!(parse_yaml("Legacy docs.\n\n@return str  output"), YamlParseResult::Error(_)));
}

#[test]
fn legacy_raises_tag_is_an_error() {
    assert!(matches!(
        parse_yaml("@raises ValueError  when it goes wrong"),
        YamlParseResult::Error(_)
    ));
}

#[test]
fn nested_at_sign_is_not_a_legacy_tag() {
    let text = "description: |\n  @arg inside a block scalar";
    match parse_yaml(text) {
        YamlParseResult::Parsed(content) => assert!(content.description.contains("@arg")),
        other => panic!("expected Ok, got {other:?}"),
    }
}

#[test]
fn outcome_errors_quote_the_mapping_message() {
    let r = yaml_outcome("x", Err("boom".to_string()), None);
    assert_eq!(
        r,
        YamlParseResult::Error(
            "docstring was not written correctly: could not be interpreted as YAML (boom)"
                .to_string()
        )
    );
    let prose = yaml_outcome("x", Err("boom".to_string()), Some("  words  ".to_string()));
    assert_eq!(prose, YamlParseResult::Parsed(empty_content("words")));
    let legacy = yaml_outcome("@see x", Ok(YamlDoc::default()), None);
    assert!(matches!(legacy, YamlParseResult::Error(m) if m.contains("legacy @-tag")));
}

#[test]
fn yaml_result_converts_to_comment() {
    assert_eq!(
        DocComment::from(YamlParseResult::Error("e".to_string())),
        DocComment::Error("e".to_string())
    );
}

#[test]
fn quoted_prose_is_read_as_a_yaml_scalar() {
    match parse_yaml("\"Quoted words.\"") {
        YamlParseResult::Parsed(content) => assert_eq!(content.description, "Quoted words."),
        other => panic!("expected Ok, got {other:?}"),
    }
    match parse_yaml("First line.\n\nSecond line.") {
        YamlParseResult::Parsed(content) => assert_eq!(content.description, "First line.\nSecond line."),
        other => panic!("expected Ok, got {other:?}"),
    }
}

#[test]
fn tab_indentation_is_an_error() {
    let text = "args:\n\t- name: x\n\t  description: y";
    assert!(matches!(parse_yaml(text), YamlParseResult::Error(_)));
}
