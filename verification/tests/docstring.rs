//! Docstring normalization: dedent to text (for YAML) and to trimmed lines.

use pydoc_gen::docstring::{docstring_lines, docstring_text};

#[test]
fn dedent_preserves_yaml_indentation() {
    let raw = "    description: cool\n\n    args:\n      - name: x\n        description: input\n    ";
    assert_eq!(
        docstring_text(raw),
        "description: cool\n\nargs:\n  - name: x\n    description: input"
    );
}

#[test]
fn dedent_keeps_trailing_block_scalar_indent() {
    let raw = "    example: |\n      line1\n      line2\n    ";
    assert_eq!(docstring_text(raw), "example: |\n  line1\n  line2");
}

#[test]
fn blank_only_docstring_yields_empty_text() {
    assert_eq!(docstring_text(""), "");
    assert_eq!(docstring_text("   \n   \n"), "");
}

#[test]
fn dedents_docstring_body() {
    let raw = "    Does a thing.\n\n    @arg x  the input\n    ";
    assert_eq!(
        docstring_lines(raw),
        vec![
            "Does a thing.".to_string(),
            "".to_string(),
            "@arg x  the input".to_string(),
        ]
    );
}

#[test]
fn handles_indented_tags() {
    let raw = "\n        @return str  output\n    ";
    assert_eq!(docstring_lines(raw), vec!["@return str  output".to_string()]);
}

#[test]
fn empty_or_blank_docstring_yields_no_lines() {
    assert_eq!(docstring_lines(""), Vec::<String>::new());
    assert_eq!(docstring_lines("   \n   \n"), Vec::<String>::new());
}

#[test]
fn extracts_description_and_tags_from_docstring() {
    let raw = "Formats a value.\n\n@arg value  The value to format.\n@return str  Output.";
    let lines = docstring_lines(raw);
    assert_eq!(
        lines,
        vec![
            "Formats a value.".to_string(),
            "".to_string(),
            "@arg value  The value to format.".to_string(),
            "@return str  Output.".to_string(),
        ]
    );
}

#[test]
fn dedents_indented_docstring() {
    let raw = "        Does a thing.\n\n        @arg x  the input\n    ";
    let lines = docstring_lines(raw);
    assert_eq!(
        lines,
        vec![
            "Does a thing.".to_string(),
            "".to_string(),
            "@arg x  the input".to_string(),
        ]
    );
}

#[test]
fn absent_docstring_yields_no_content() {
    assert!(docstring_lines("").is_empty());
    assert!(docstring_lines("   \n  \n").is_empty());
}

#[test]
fn dedent_keeps_deeper_lines_relative() {
    let raw = "\n      first\n        deeper\n      last\n";
    assert_eq!(docstring_text(raw), "first\n  deeper\nlast");
    assert_eq!(
        docstring_lines(raw),
        vec!["first".to_string(), "deeper".to_string(), "last".to_string()]
    );
}

#[test]
fn dedent_is_idempotent_on_examples() {
    let raw = "    description: cool\n\n    args:\n      - name: x\n";
    let once = docstring_text(raw);
    assert_eq!(docstring_text(&once), once);
}

#[test]
fn first_content_line_keeps_its_extra_indentation() {
    assert_eq!(docstring_text("\n      - a\n    b\n"), "  - a\nb");
    assert_eq!(docstring_text("    x  \n"), "x");
    assert_eq!(docstring_text("a "), "a");
    assert_eq!(docstring_text("  a\r\n  b \r\n"), "a\r\nb");
}

#[test]
fn cut_inside_wide_space_keeps_the_character() {
    // An ideographic space is three bytes wide; the common indentation is
    // two bytes, so the second line keeps its ideographic space.
    let raw = "  a\n\u{3000}b";
    assert_eq!(docstring_text(raw), "a\n\u{3000}b");
    assert_eq!(docstring_lines(raw), vec!["a".to_string(), "b".to_string()]);
}
