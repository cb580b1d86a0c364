//! HTML rendering: escaping, page wrapping, and module pages.

use pydoc_gen::html::{escape_html, render_module_page, wrap_page};
use pydoc_gen::model::{
    ArgDoc, DocComment, DocContent, DocumentedElement, ElementKind, ImportPath, RaisesDoc,
    ReturnDoc,
};
use pydoc_gen::style::default_theme_css;

#[test]
fn escapes_special_characters() {
    assert_eq!(
        escape_html("<script>alert('&\"x\")</script>"),
        "&lt;script&gt;alert(&#39;&amp;&quot;x&quot;)&lt;/script&gt;"
    );
}

#[test]
fn leaves_plain_text_unchanged() {
    assert_eq!(escape_html("plain text"), "plain text");
}

fn sample_module() -> DocumentedElement {
    let doc = DocContent {
        description: "A sample module.".to_string(),
        args: vec![ArgDoc {
            name: "text".to_string(),
            description: "The input.".to_string(),
        }],
        returns: Some(ReturnDoc {
            description: "The result.".to_string(),
        }),
        raises: Vec::new(),
    };

    let func = DocumentedElement {
        path: ImportPath::new(vec![
            "sample".to_string(),
            "mod".to_string(),
            "format_value".to_string(),
        ]),
        kind: ElementKind::Function,
        doc: DocComment::Parsed(doc),
        children: Vec::new(),
    };

    DocumentedElement {
        path: ImportPath::new(vec!["sample".to_string(), "mod".to_string()]),
        kind: ElementKind::Module,
        doc: DocComment::Absent,
        children: vec![func],
    }
}

#[test]
fn renders_module_page_with_element_content() {
    let styles = default_theme_css();
    let html_text = render_module_page(&sample_module(), "index.html", styles);
    assert!(html_text.contains("sample.mod"));
    assert!(html_text.contains("format_value"));
    assert!(html_text.contains("The input."));
    assert!(html_text.contains("The result."));
    assert!(html_text.contains("href=\"index.html\""));
}

#[test]
fn escapes_markup_injected_via_docstring() {
    let styles = default_theme_css();
    let mut module = sample_module();
    if let DocComment::Parsed(content) = &mut module.children[0].doc {
        content.description = "Unsafe <script>alert('x')</script> and \"quoted\"".to_string();
    }
    let html_text = render_module_page(&module, "index.html", styles);
    assert!(
        !html_text.contains("<script>"),
        "raw markup from a docstring must not appear in HTML"
    );
    assert!(html_text.contains(
        "Unsafe &lt;script&gt;alert(&#39;x&#39;)&lt;/script&gt; and &quot;quoted&quot;"
    ));
}

#[test]
fn escape_output_has_no_markup_characters() {
    let out = escape_html("a<b>c\"d'e&f");
    assert_eq!(out, "a&lt;b&gt;c&quot;d&#39;e&amp;f");
    assert!(!out.contains('<') && !out.contains('>'));
    assert!(!out.contains('"') && !out.contains('\''));
    assert_eq!(escape_html(""), "");
}

#[test]
fn wrap_page_embeds_styles_and_escapes_title() {
    let page = wrap_page("a<b", "<p>body</p>", ".x{}");
    assert!(page.starts_with("<!DOCTYPE html>\n"));
    assert!(page.contains("<title>a&lt;b</title>"));
    assert!(page.contains("<style>\n.x{}\n</style>"));
    assert!(page.contains("<body>\n<p>body</p>\n</body>"));
    assert!(page.ends_with("</html>\n"));
}

#[test]
fn renders_error_and_raises_entries() {
    let bad = DocumentedElement {
        path: ImportPath::new(vec!["m".to_string(), "bad".to_string()]),
        kind: ElementKind::Function,
        doc: DocComment::Error("oops <here>".to_string()),
        children: Vec::new(),
    };
    let raising = DocumentedElement {
        path: ImportPath::new(vec!["m".to_string(), "raising".to_string()]),
        kind: ElementKind::Function,
        doc: DocComment::Parsed(DocContent {
            description: String::new(),
            args: Vec::new(),
            returns: None,
            raises: vec![RaisesDoc {
                exception: "ValueError".to_string(),
                description: "when bad".to_string(),
            }],
        }),
        children: Vec::new(),
    };
    let module = DocumentedElement {
        path: ImportPath::new(vec!["m".to_string()]),
        kind: ElementKind::Module,
        doc: DocComment::Absent,
        children: vec![bad, raising],
    };
    let html_text = render_module_page(&module, "index.html", "");
    assert!(html_text.contains("oops &lt;here&gt;"));
    assert!(html_text.contains("ValueError"));
    assert!(html_text.contains("when bad"));
    let bad_at = html_text.find("m.bad").unwrap();
    let raising_at = html_text.find("m.raising").unwrap();
    assert!(bad_at < raising_at);
}
