//! Convert raw AST elements into documented elements with docstrings.
//!
//! This stage takes each raw element (from `parser.rs`) and interprets its
//! docstring as a YAML document, producing the [`DocumentedElement`] tree
//! consumed by `html.rs`.
//!
//! Deserializing a docstring into the YAML mapping schema ([`YamlDoc`]) is
//! done by the caller with serde (a derive the library cannot carry): the
//! functions here take that outcome, either as a value or as a function that
//! produces it for a docstring text. Everything else — the legacy-tag check,
//! the plain-prose fallback, the error messages, and the mapping onto
//! [`DocContent`] — is decided here.
use vstd::prelude::*;
use crate::docstring::{self, docstring_text};
use crate::model::{
    self, ArgDoc, DocComment, DocContent, DocContentView, DocView, DocumentedElement, ElementKind,
    ElementView, ImportPath, RaisesDoc, ReturnDoc,
};
use crate::parser::{self, RawElement, RawView};
use crate::text::{self, chars_of, is_whitespace, lines_chars, string_from_chars, trim_str};

verus! {

/// Result of interpreting a docstring as YAML.
#[derive(Debug, Clone, PartialEq, Eq)]
pub enum YamlParseResult {
    /// The docstring parsed successfully.
    Parsed(DocContent),
    /// The docstring is malformed; include the error message in the entry.
    Error(String),
}

impl View for YamlParseResult {
    type V = Result<DocContentView, Seq<char>>;

    open spec fn view(&self) -> Result<DocContentView, Seq<char>> {
        match self {
            YamlParseResult::Parsed(c) => Ok(c@),
            YamlParseResult::Error(m) => Err(m@),
        }
    }
}

/// The comment that a YAML-parse result stands for.
pub open spec fn comment_of_yaml(r: YamlParseResult) -> DocComment {
    match r {
        YamlParseResult::Parsed(content) => DocComment::Parsed(content),
        YamlParseResult::Error(msg) => DocComment::Error(msg),
    }
}

impl vstd::std_specs::convert::FromSpecImpl<YamlParseResult> for DocComment {
    open spec fn obeys_from_spec() -> bool {
        true
    }

    open spec fn from_spec(v: YamlParseResult) -> DocComment {
        comment_of_yaml(v)
    }
}

impl From<YamlParseResult> for DocComment {
    fn from(result: YamlParseResult) -> (r: DocComment) {
        match result {
            YamlParseResult::Parsed(content) => DocComment::Parsed(content),
            YamlParseResult::Error(msg) => DocComment::Error(msg),
        }
    }
}

/// The comment view of a result view.
pub open spec fn comment_view(r: Result<DocContentView, Seq<char>>) -> DocView {
    match r {
        Ok(c) => DocView::Parsed(c),
        Err(m) => DocView::Error(m),
    }
}

/// The YAML schema of a structured docstring: only the keys `description`,
/// `args`, `returns`, and `raises` are recognized; other keys are ignored.
#[derive(Debug, Default)]
pub struct YamlDoc {
    pub description: Option<String>,
    pub args: Option<Vec<YamlArg>>,
    pub returns: Option<YamlReturn>,
    pub raises: Option<Vec<YamlRaise>>,
}

/// An `args` entry.
#[derive(Debug)]
pub struct YamlArg {
    pub name: String,
    pub description: String,
}

/// The `returns` entry.
#[derive(Debug)]
pub struct YamlReturn {
    pub description: String,
}

/// A `raises` entry (key `type`, or its alias `exception`).
#[derive(Debug)]
pub struct YamlRaise {
    pub exception: String,
    pub description: String,
}

/// The view of a [`YamlDoc`].
pub struct YamlDocView {
    pub description: Option<Seq<char>>,
    pub args: Option<Seq<(Seq<char>, Seq<char>)>>,
    pub returns: Option<Seq<char>>,
    pub raises: Option<Seq<(Seq<char>, Seq<char>)>>,
}

/// The view of the args list.
pub open spec fn yaml_args_view(v: Vec<YamlArg>) -> Seq<(Seq<char>, Seq<char>)> {
    v@.map_values(|a: YamlArg| (a.name@, a.description@))
}

/// The view of the raises list.
pub open spec fn yaml_raises_view(v: Vec<YamlRaise>) -> Seq<(Seq<char>, Seq<char>)> {
    v@.map_values(|r: YamlRaise| (r.exception@, r.description@))
}

impl View for YamlDoc {
    type V = YamlDocView;

    open spec fn view(&self) -> YamlDocView {
        YamlDocView {
            description: parser::opt_view(self.description),
            args: match self.args {
                Some(v) => Some(yaml_args_view(v)),
                None => None,
            },
            returns: match self.returns {
                Some(r) => Some(r.description@),
                None => None,
            },
            raises: match self.raises {
                Some(v) => Some(yaml_raises_view(v)),
                None => None,
            },
        }
    }
}

/// The content a YAML mapping describes: absent keys give empty fields.
pub open spec fn yaml_content(d: YamlDocView) -> DocContentView {
    DocContentView {
        description: match d.description {
            Some(s) => s,
            None => seq![],
        },
        args: match d.args {
            Some(a) => a,
            None => seq![],
        },
        returns: d.returns,
        raises: match d.raises {
            Some(r) => r,
            None => seq![],
        },
    }
}

/// The content built from a YAML mapping keeps everything it recognizes:
/// the description (empty when absent), every `args` entry and every
/// `raises` entry as its `(name, description)` pair, in list order, and the
/// `returns` description. A docstring without legacy tags that deserializes
/// to the mapping is read as exactly that content.
pub proof fn law_yaml_content_keeps_every_entry(doc: YamlDoc, t: Seq<char>, scalar: Option<
    Seq<char>,
>)
    ensures
        yaml_content(doc@).description == (match doc.description {
            Some(s) => s@,
            None => Seq::<char>::empty(),
        }),
        yaml_content(doc@).returns == (match doc.returns {
            Some(r) => Some(r.description@),
            None => None::<Seq<char>>,
        }),
        match doc.args {
            Some(v) => yaml_content(doc@).args.len() == v.len() && forall|i: int|
                0 <= i < v.len() ==> #[trigger] yaml_content(doc@).args[i] == (
                    v[i].name@,
                    v[i].description@,
                ),
            None => yaml_content(doc@).args.len() == 0,
        },
        match doc.raises {
            Some(v) => yaml_content(doc@).raises.len() == v.len() && forall|i: int|
                0 <= i < v.len() ==> #[trigger] yaml_content(doc@).raises[i] == (
                    v[i].exception@,
                    v[i].description@,
                ),
            None => yaml_content(doc@).raises.len() == 0,
        },
        !has_legacy_tag(t) ==> yaml_outcome_spec(t, Ok(doc@), scalar) == Ok::<
            DocContentView,
            Seq<char>,
        >(yaml_content(doc@)),
{
}

/// Map a deserialized [`YamlDoc`] mapping onto the intermediary
/// [`DocContent`].
pub fn content_from_yaml(doc: YamlDoc) -> (r: DocContent)
    ensures
        r@ == yaml_content(doc@),
{
    let ghost d = doc@;
    let mut args: Vec<ArgDoc> = Vec::new();
    match doc.args {
        Some(list) => {
            let mut i: usize = 0;
            let ghost src = yaml_args_view(list);
            while i < list.len()
                invariant
                    i <= list.len(),
                    src == yaml_args_view(list),
                    args@.map_values(|a: ArgDoc| a@) == src.take(i as int),
                decreases list.len() - i,
            {
                let a = ArgDoc {
                    name: list[i].name.clone(),
                    description: list[i].description.clone(),
                };
                let ghost prev = args@;
                args.push(a);
                assert(args@.map_values(|a: ArgDoc| a@) =~= prev.map_values(|a: ArgDoc| a@).push(a@));
                assert(src.take(i + 1) =~= src.take(i as int).push(src[i as int]));
                i += 1;
            }
            assert(src.take(list.len() as int) =~= src);
        },
        None => {},
    }
    let mut raises: Vec<RaisesDoc> = Vec::new();
    match doc.raises {
        Some(list) => {
            let mut i: usize = 0;
            let ghost src = yaml_raises_view(list);
            while i < list.len()
                invariant
                    i <= list.len(),
                    src == yaml_raises_view(list),
                    raises@.map_values(|r: RaisesDoc| r@) == src.take(i as int),
                decreases list.len() - i,
            {
                let r = RaisesDoc {
                    exception: list[i].exception.clone(),
                    description: list[i].description.clone(),
                };
                let ghost prev = raises@;
                raises.push(r);
                assert(raises@.map_values(|r: RaisesDoc| r@) =~= prev.map_values(|r: RaisesDoc| r@).push(r@));
                assert(src.take(i + 1) =~= src.take(i as int).push(src[i as int]));
                i += 1;
            }
            assert(src.take(list.len() as int) =~= src);
        },
        None => {},
    }
    let ret = match doc.returns {
        Some(r) => Some(ReturnDoc { description: r.description }),
        None => None,
    };
    let description = match doc.description {
        Some(s) => s,
        None => String::new(),
    };
    let r = DocContent { description, args, returns: ret, raises };
    assert(r@.args =~= yaml_content(d).args);
    assert(r@.raises =~= yaml_content(d).raises);
    assert(r@ =~= yaml_content(d));
    r
}

/// Stable prefix of every malformed-docstring error message.
pub open spec fn malformed_prefix() -> Seq<char> {
    "docstring was not written correctly"@
}

/// The error for a docstring that uses the legacy `@`-tag syntax.
pub open spec fn legacy_tag_error() -> Seq<char> {
    "docstring was not written correctly: found a legacy @-tag; rewrite as YAML (description/args/returns/raises)"@
}

/// `char::is_ascii_alphabetic`.
pub open spec fn is_ascii_alpha(c: char) -> bool {
    ('a' <= c && c <= 'z') || ('A' <= c && c <= 'Z')
}

/// Line `l` starts, at indentation `indent` (in bytes), with `@` followed by
/// an ASCII letter.
pub open spec fn legacy_tag_line(l: Seq<char>, indent: nat) -> bool {
    let rest = text::trim_start(l);
    &&& text::lead_bytes(l) == indent
    &&& rest.len() > 1
    &&& rest[0] == '@'
    &&& is_ascii_alpha(rest[1])
}

/// Some line of `text` at the document's top-level indentation begins with
/// `@word` — the legacy JavaDoc-style syntax. Deeper-indented content (under
/// block scalars) is not flagged.
pub open spec fn has_legacy_tag(t: Seq<char>) -> bool {
    let ls = text::lines(t);
    let indent = docstring::indent_of(ls);
    exists|i: int| 0 <= i < ls.len() && legacy_tag_line(#[trigger] ls[i], indent)
}

/// Detect a line beginning with `@word` at the document's top-level
/// indentation — the legacy JavaDoc-style syntax. Such docstrings are treated
/// as malformed rather than prose, since `@` is a legal YAML plain-scalar
/// character and would otherwise parse as a description.
///
/// Content nested under block scalars (deeper indentation) is not flagged.
fn contains_legacy_tag(t: &str) -> (b: bool)
    ensures
        b == has_legacy_tag(t@),
{
    let chars = chars_of(t);
    let ls = lines_chars(&chars);
    let ghost views = text::char_views(ls@);
    let indent = docstring::indent_wide(&ls);
    let mut i: usize = 0;
    while i < ls.len()
        invariant
            i <= ls.len(),
            views == text::char_views(ls@),
            views == text::lines(t@),
            indent == docstring::indent_of(views),
            forall|k: int| 0 <= k < i ==> !legacy_tag_line(#[trigger] views[k], indent as nat),
        decreases ls.len() - i,
    {
        let line = &ls[i];
        assert(line@ == views[i as int]);
        if text::lead_bytes_wide(line) == indent {
            let k = text::skip_ws(line, 0);
            assert(line@.skip(0) =~= line@);
            assert(line@.skip(k as int) == text::trim_start(line@));
            if k < line.len() && line[k] == '@' && k + 1 < line.len() {
                let c = line[k + 1];
                assert(text::trim_start(line@)[1] == c);
                if ('a' <= c && c <= 'z') || ('A' <= c && c <= 'Z') {
                    assert(legacy_tag_line(views[i as int], indent as nat));
                    return true;
                }
            }
        }
        i += 1;
    }
    false
}

/// The text of a plain YAML scalar document, as `serde_yml` deserializes it
/// into a `String` (`None` when it cannot).
pub uninterp spec fn yaml_scalar(t: Seq<char>) -> Option<Seq<char>>;

/// `serde_yml::from_str::<String>`.
///
/// Trusted: deserializing a `String` from YAML text is a function of the
/// text; its success value is what `yaml_scalar` names, and its error is
/// dropped.
#[verifier::external_body]
fn yaml_scalar_of(t: &str) -> (r: Option<String>)
    ensures
        parser::opt_view(r) == yaml_scalar(t@),
{
    serde_yml::from_str::<String>(t).ok()
}

/// The view of the mapping-parse outcome.
pub open spec fn mapping_view(m: Result<YamlDoc, String>) -> Result<YamlDocView, Seq<char>> {
    match m {
        Ok(d) => Ok(d@),
        Err(e) => Err(e@),
    }
}

/// The interpretation of docstring text `t`, given the outcome of
/// deserializing it as a [`YamlDoc`] mapping and as a plain scalar:
/// 1. a legacy `@`-tag docstring is an error;
/// 2. a mapping gives its recognized keys;
/// 3. otherwise a plain scalar (prose) gives a description-only entry;
/// 4. otherwise it is an error carrying the mapping parser's message.
pub open spec fn yaml_outcome_spec(
    t: Seq<char>,
    mapping: Result<YamlDocView, Seq<char>>,
    scalar: Option<Seq<char>>,
) -> Result<DocContentView, Seq<char>> {
    if has_legacy_tag(t) {
        Err(legacy_tag_error())
    } else {
        match mapping {
            Ok(d) => Ok(yaml_content(d)),
            Err(e) => match scalar {
                Some(prose) => Ok(
                    DocContentView { description: text::trim(prose), ..yaml_content(
                        YamlDocView { description: None, args: None, returns: None, raises: None },
                    ) },
                ),
                None => Err(
                    malformed_prefix() + ": could not be interpreted as YAML ("@ + e + ")"@,
                ),
            },
        }
    }
}

/// Interprets docstring text given the outcomes of deserializing it as a
/// mapping and as a plain scalar (see [`yaml_outcome_spec`]).
pub fn yaml_outcome(t: &str, mapping: Result<YamlDoc, String>, scalar: Option<String>) -> (r:
    YamlParseResult)
    ensures
        r@ == yaml_outcome_spec(t@, mapping_view(mapping), parser::opt_view(scalar)),
{
    if contains_legacy_tag(t) {
        return YamlParseResult::Error(
            "docstring was not written correctly: found a legacy @-tag; rewrite as YAML (description/args/returns/raises)".to_string(),
        );
    }
    match mapping {
        Ok(doc) => YamlParseResult::Parsed(content_from_yaml(doc)),
        Err(yaml_err) => match scalar {
            Some(prose) => {
                let c = DocContent {
                    description: trim_str(prose.as_str()),
                    args: Vec::new(),
                    returns: None,
                    raises: Vec::new(),
                };
                assert(c@ =~= DocContentView { description: text::trim(prose@), ..yaml_content(
                    YamlDocView { description: None, args: None, returns: None, raises: None },
                ) });
                YamlParseResult::Parsed(c)
            },
            None => {
                let mut out: Vec<char> = Vec::new();
                crate::html::push_str(&mut out, "docstring was not written correctly");
                crate::html::push_str(&mut out, ": could not be interpreted as YAML (");
                crate::html::push_str(&mut out, yaml_err.as_str());
                crate::html::push_str(&mut out, ")");
                YamlParseResult::Error(string_from_chars(&out))
            },
        },
    }
}

/// Interpret a dedented docstring as a YAML document, given the outcome of
/// deserializing it into the [`YamlDoc`] mapping schema (`Err` holds the
/// deserializer's message). Plain prose is recognized by deserializing the
/// text as a `String` with `serde_yml`.
pub fn parse_yaml_docstring_with(t: &str, mapping: Result<YamlDoc, String>) -> (r:
    YamlParseResult)
    ensures
        r@ == yaml_outcome_spec(t@, mapping_view(mapping), yaml_scalar(t@)),
{
    let scalar = match &mapping {
        Ok(_) => None,
        Err(_) => yaml_scalar_of(t),
    };
    yaml_outcome(t, mapping, scalar)
}


/// `parse` deserializes docstring text into the mapping schema; it may be
/// called on any text.
pub open spec fn mapping_parser<F: Fn(&str) -> Result<YamlDoc, String>>(parse: F) -> bool {
    forall|s: &str| call_requires(parse, (s,))
}

/// `d` is the documentation that `docstring` yields: none without a
/// docstring or when it dedents to nothing; otherwise the interpretation of
/// the dedented text, for an outcome that `parse` gave on that text.
pub open spec fn doc_matches<F: Fn(&str) -> Result<YamlDoc, String>>(
    docstring: Option<Seq<char>>,
    d: DocView,
    parse: F,
) -> bool {
    match docstring {
        None => d == DocView::Absent,
        Some(x) => {
            let t = docstring::dedent_text(x);
            if t.len() == 0 {
                d == DocView::Absent
            } else {
                exists|s: &str, m: Result<YamlDoc, String>|
                    #![trigger call_ensures(parse, (s,), m)]
                    s@ == t && call_ensures(parse, (s,), m) && d == comment_view(
                        yaml_outcome_spec(t, mapping_view(m), yaml_scalar(t)),
                    )
            }
        },
    }
}

/// `e` is the element built for `raw` under the parent path: the path
/// extended by the raw name, the raw kind, the documentation of its
/// docstring, and, in order, the elements built for its children.
pub open spec fn element_built<F: Fn(&str) -> Result<YamlDoc, String>>(
    parent: Seq<Seq<char>>,
    raw: RawView,
    e: ElementView,
    parse: F,
) -> bool
    decreases raw,
{
    &&& e.path == parent.push(raw.name)
    &&& e.kind == raw.kind
    &&& doc_matches(raw.docstring, e.doc, parse)
    &&& e.children.len() == raw.children.len()
    &&& forall|i: int|
        0 <= i < raw.children.len() ==> element_built(
            e.path,
            #[trigger] raw.children[i],
            e.children[i],
            parse,
        )
}

/// `e` is the module element built for a file: the module path, the module
/// kind, the documentation of the module docstring, and the elements built
/// for its top-level definitions.
pub open spec fn module_built<F: Fn(&str) -> Result<YamlDoc, String>>(
    mod_path: Seq<Seq<char>>,
    raws: Seq<RawView>,
    module_doc: Option<Seq<char>>,
    e: ElementView,
    parse: F,
) -> bool {
    &&& e.path == mod_path
    &&& e.kind == ElementKind::Module
    &&& doc_matches(module_doc, e.doc, parse)
    &&& e.children.len() == raws.len()
    &&& forall|i: int|
        0 <= i < raws.len() ==> element_built(mod_path, #[trigger] raws[i], e.children[i], parse)
}

/// Interpret a raw docstring as a `DocComment`: malformed YAML produces
/// `DocComment::Error`; a missing or blank docstring produces
/// `DocComment::Absent`; otherwise `DocComment::Parsed`.
fn docstring_comment<F: Fn(&str) -> Result<YamlDoc, String>>(raw: Option<&str>, parse: &F) -> (r:
    DocComment)
    requires
        mapping_parser(*parse),
    ensures
        doc_matches(
            match raw {
                Some(x) => Some(x@),
                None => None,
            },
            r@,
            *parse,
        ),
{
    match raw {
        None => DocComment::Absent,
        Some(raw_text) => {
            let t = docstring_text(raw_text);
            if t.as_str().is_empty() {
                DocComment::Absent
            } else {
                let ts: &str = t.as_str();
                let m = parse(ts);
                assert(call_ensures(*parse, (ts,), m));
                let ghost mv = mapping_view(m);
                let res = parse_yaml_docstring_with(ts, m);
                let r = DocComment::from(res);
                assert(r@ == comment_view(res@));
                r
            }
        },
    }
}

/// Build a `DocumentedElement` for a single raw definition and its children,
/// referencing the full import path of the parent scope.
fn build_element<F: Fn(&str) -> Result<YamlDoc, String>>(
    parent: &ImportPath,
    raw: &RawElement,
    parse: &F,
) -> (r: DocumentedElement)
    requires
        mapping_parser(*parse),
    ensures
        element_built(parent@, raw@, r@, *parse),
    decreases raw,
{
    proof {
        parser::lemma_raw_children_view(*raw);
        assert(seq![raw@][0] == raw@);
    }
    let path = parent.child(raw.name.as_str());
    let doc = match &raw.docstring {
        Some(d) => docstring_comment(Some(d.as_str()), parse),
        None => docstring_comment(None, parse),
    };
    let mut children: Vec<DocumentedElement> = Vec::new();
    let mut i: usize = 0;
    while i < raw.children.len()
        invariant
            i <= raw.children.len(),
            mapping_parser(*parse),
            path@ == parent@.push(raw@.name),
            raw@.children == parser::raw_views(raw.children@),
            children@.len() == i,
            forall|k: int|
                0 <= k < i ==> element_built(path@, raw@.children[k], #[trigger] children@[k]@, *parse),
        decreases raw.children.len() - i,
    {
        assert(decreases_to!(raw => raw.children@[i as int]));
        let ghost rc = raw@.children[i as int];
        assert(rc == raw.children@[i as int]@);
        let c = build_element(&path, &raw.children[i], parse);
        children.push(c);
        i += 1;
    }
    let r = DocumentedElement { path, kind: raw.kind, doc, children };
    proof {
        model::lemma_children_view(r);
    }
    r
}

/// Build the module `DocumentedElement` for a single parsed file.
///
/// `module_doc` is the module docstring extracted by the parser (the first
/// statement of the file when it is a string literal). `parse` deserializes
/// a dedented docstring into the YAML mapping schema.
pub fn module_element<F: Fn(&str) -> Result<YamlDoc, String>>(
    mod_path: &ImportPath,
    raws: &[RawElement],
    module_doc: Option<String>,
    parse: &F,
) -> (r: DocumentedElement)
    requires
        mapping_parser(*parse),
    ensures
        module_built(
            mod_path@,
            raws@.map_values(|x: RawElement| x@),
            parser::opt_view(module_doc),
            r@,
            *parse,
        ),
{
    let ghost views = raws@.map_values(|x: RawElement| x@);
    let doc = match &module_doc {
        Some(d) => docstring_comment(Some(d.as_str()), parse),
        None => docstring_comment(None, parse),
    };
    let mut children: Vec<DocumentedElement> = Vec::new();
    let mut i: usize = 0;
    while i < raws.len()
        invariant
            i <= raws.len(),
            mapping_parser(*parse),
            views == raws@.map_values(|x: RawElement| x@),
            children@.len() == i,
            forall|k: int|
                0 <= k < i ==> element_built(mod_path@, views[k], #[trigger] children@[k]@, *parse),
        decreases raws.len() - i,
    {
        let ghost rc = views[i as int];
        assert(rc == raws@[i as int]@);
        let c = build_element(mod_path, &raws[i], parse);
        children.push(c);
        i += 1;
    }
    let r = DocumentedElement {
        path: mod_path.duplicate(),
        kind: ElementKind::Module,
        doc,
        children,
    };
    proof {
        model::lemma_children_view(r);
    }
    r
}


} // verus!
