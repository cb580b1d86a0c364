//! The JavaDoc-style tag parser.

use pydoc_gen::model::DocComment;
use pydoc_gen::tags::{parse_block, TagParseResult};

#[test]
fn parses_description_and_tags() {
    let lines = vec![
        "Formats the given text.".to_string(),
        "@arg text  The input to format.".to_string(),
        "@return    The formatted string.".to_string(),
        "@raises ValueError  Raised when text is empty.".to_string(),
    ];
    match parse_block(&lines) {
        TagParseResult::Parsed(content) => {
            assert!(content.description.contains("Formats the given text."));
            assert_eq!(content.args.len(), 1);
            assert_eq!(content.args[0].name, "text");
            assert_eq!(content.args[0].description, "The input to format.");
            let ret = content.returns.as_ref().expect("return present");
            assert_eq!(ret.description, "The formatted string.");
            assert_eq!(content.raises.len(), 1);
            assert_eq!(content.raises[0].exception, "ValueError");
            assert_eq!(content.raises[0].description, "Raised when text is empty.");
        }
        other => panic!("expected Ok, got {other:?}"),
    }
}

#[test]
fn malformed_arg_yields_error() {
    let lines = vec!["@arg".to_string()];
    match parse_block(&lines) {
        TagParseResult::Error(msg) => {
            assert!(msg.contains("expected an argument name"));
        }
        other => panic!("expected Error, got {other:?}"),
    }
}

#[test]
fn malformed_raises_yields_error() {
    let lines = vec!["@raises".to_string()];
    match parse_block(&lines) {
        TagParseResult::Error(msg) => {
            assert!(msg.contains("expected an exception name"));
        }
        other => panic!("expected Error, got {other:?}"),
    }
}

#[test]
fn unrecognized_tag_is_ignored() {
    let lines = vec!["@author John".to_string(), "description".to_string()];
    match parse_block(&lines) {
        TagParseResult::Parsed(content) => {
            assert!(!content.description.is_empty());
            assert!(content.args.is_empty());
        }
        other => panic!("expected Ok, got {other:?}"),
    }
}

#[test]
fn blank_comment_lines_are_ignored() {
    let lines = vec!["".to_string(), "just some text".to_string()];
    match parse_block(&lines) {
        TagParseResult::Parsed(content) => {
            assert_eq!(content.description, "just some text");
        }
        other => panic!("expected Ok, got {other:?}"),
    }
}

#[test]
fn parses_all_supported_tags() {
    let lines = vec![
        "Formats a value.".to_string(),
        "@arg value  The value to format.".to_string(),
        "@return     The formatted string.".to_string(),
        "@raises ValueError  Raised when value is empty.".to_string(),
    ];
    match parse_block(&lines) {
        TagParseResult::Parsed(content) => {
            assert!(content.description.contains("Formats a value."));
            assert_eq!(content.args.len(), 1);
            assert_eq!(content.args[0].name, "value");
            assert_eq!(content.args[0].description, "The value to format.");
            let ret = content.returns.as_ref().expect("return present");
            assert_eq!(ret.description, "The formatted string.");
            assert_eq!(content.raises.len(), 1);
            assert_eq!(content.raises[0].exception, "ValueError");
            assert_eq!(content.raises[0].description, "Raised when value is empty.");
        }
        other => panic!("expected ok, got {other:?}"),
    }
}

#[test]
fn missing_arg_name_is_an_error() {
    match parse_block(&["@arg".to_string()]) {
        TagParseResult::Error(msg) => assert!(msg.contains("argument name")),
        other => panic!("expected error, got {other:?}"),
    }
}

#[test]
fn missing_raises_name_is_an_error() {
    match parse_block(&["@raises".to_string()]) {
        TagParseResult::Error(msg) => assert!(msg.contains("exception name")),
        other => panic!("expected error, got {other:?}"),
    }
}

#[test]
fn unrecognized_tags_are_ignored_not_errors() {
    match parse_block(&["@author Jane".to_string(), "text".to_string()]) {
        TagParseResult::Parsed(content) => {
            assert!(content.description.contains("text"));
            assert!(content.args.is_empty());
        }
        other => panic!("expected ok, got {other:?}"),
    }
}

#[test]
fn description_lines_are_joined_with_spaces() {
    let lines = vec!["First part".to_string(), "second part.".to_string()];
    match parse_block(&lines) {
        TagParseResult::Parsed(content) => {
            assert_eq!(content.description, "First part second part.");
        }
        other => panic!("expected ok, got {other:?}"),
    }
}

#[test]
fn later_return_tag_replaces_earlier_and_first_error_wins() {
    let lines = vec!["@return one".to_string(), "@return two".to_string()];
    match parse_block(&lines) {
        TagParseResult::Parsed(content) => {
            assert_eq!(content.returns.unwrap().description, "two");
        }
        other => panic!("expected ok, got {other:?}"),
    }
    let bad = vec!["@raises".to_string(), "@arg".to_string()];
    match parse_block(&bad) {
        TagParseResult::Error(msg) => assert!(msg.contains("exception name")),
        other => panic!("expected error, got {other:?}"),
    }
}

#[test]
fn tag_result_converts_to_comment() {
    let r = parse_block(&["@arg".to_string()]);
    assert!(matches!(DocComment::from(r), DocComment::Error(_)));
    let ok = parse_block(&["text".to_string()]);
    assert!(matches!(DocComment::from(ok), DocComment::Parsed(_)));
}
