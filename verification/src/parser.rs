//! Parse Python source into the AST and collect modules, classes, and
//! functions together with their docstrings.
//!
//! Parsing is delegated to `rustpython_parser`; the syntax tree is handed to
//! the library as [`PyStmt`] values (the part of the tree that the library
//! reads), and the collection of definitions is verified over those.
use vstd::prelude::*;
use rustpython_parser::ast;
use rustpython_parser::Parse;
use crate::error::Error;
use crate::model::ElementKind;
use crate::text;

verus! {

/// `rustpython_parser::ast::Stmt`, the statements of the parsed tree.
#[verifier::external_type_specification]
#[verifier::external_body]
#[verifier::reject_recursive_types(R)]
pub struct ExStmt<R>(ast::Stmt<R>);

/// `rustpython_parser::ast::Expr`, the expressions of the parsed tree.
#[verifier::external_type_specification]
#[verifier::external_body]
#[verifier::reject_recursive_types(R)]
pub struct ExExpr<R>(ast::Expr<R>);

/// `rustpython_parser::text_size::TextRange`, the source range of a node.
#[verifier::external_type_specification]
#[verifier::external_body]
pub struct ExTextRange(rustpython_parser::text_size::TextRange);

/// A statement of a parsed Python file, as far as documentation needs it.
#[derive(Debug)]
pub enum PyStmt {
    /// `def name(...)`, with its body; `start` is the byte offset of `def`.
    FunctionDef { name: String, body: Vec<PyStmt>, start: usize },
    /// `async def name(...)`, with its body.
    AsyncFunctionDef { name: String, body: Vec<PyStmt>, start: usize },
    /// `class name(...)`, with its body.
    ClassDef { name: String, body: Vec<PyStmt>, start: usize },
    /// An expression statement that is a plain string literal.
    StrExpr { value: String },
    /// Any other statement.
    Other,
}

/// The view of a [`PyStmt`].
pub enum PyStmtView {
    FunctionDef { name: Seq<char>, body: Seq<PyStmtView>, start: nat },
    AsyncFunctionDef { name: Seq<char>, body: Seq<PyStmtView>, start: nat },
    ClassDef { name: Seq<char>, body: Seq<PyStmtView>, start: nat },
    StrExpr { value: Seq<char> },
    Other,
}

/// The view of a statement and, recursively, of its body.
pub open spec fn stmt_view(s: PyStmt) -> PyStmtView
    decreases s,
{
    match s {
        PyStmt::FunctionDef { name, body, start } => PyStmtView::FunctionDef {
            name: name@,
            body: Seq::new(
                body.len() as nat,
                |i: int|
                    if 0 <= i < body.len() {
                        stmt_view(body@[i])
                    } else {
                        arbitrary()
                    },
            ),
            start: start as nat,
        },
        PyStmt::AsyncFunctionDef { name, body, start } => PyStmtView::AsyncFunctionDef {
            name: name@,
            body: Seq::new(
                body.len() as nat,
                |i: int|
                    if 0 <= i < body.len() {
                        stmt_view(body@[i])
                    } else {
                        arbitrary()
                    },
            ),
            start: start as nat,
        },
        PyStmt::ClassDef { name, body, start } => PyStmtView::ClassDef {
            name: name@,
            body: Seq::new(
                body.len() as nat,
                |i: int|
                    if 0 <= i < body.len() {
                        stmt_view(body@[i])
                    } else {
                        arbitrary()
                    },
            ),
            start: start as nat,
        },
        PyStmt::StrExpr { value } => PyStmtView::StrExpr { value: value@ },
        PyStmt::Other => PyStmtView::Other,
    }
}

impl View for PyStmt {
    type V = PyStmtView;

    open spec fn view(&self) -> PyStmtView {
        stmt_view(*self)
    }
}

/// The views of a list of statements.
pub open spec fn stmt_views(v: Seq<PyStmt>) -> Seq<PyStmtView> {
    v.map_values(|s: PyStmt| s@)
}

/// The view of the parser's outcome.
pub open spec fn parse_outcome_view(r: Result<Vec<PyStmt>, String>) -> Result<
    Seq<PyStmtView>,
    Seq<char>,
> {
    match r {
        Ok(v) => Ok(stmt_views(v@)),
        Err(m) => Err(m@),
    }
}

/// The statements `rustpython_parser` parses `source` into, or the text of
/// its parse error.
pub uninterp spec fn python_parse(source: Seq<char>) -> Result<Seq<PyStmtView>, Seq<char>>;

/// Converts parsed statements into the library's statement model: each
/// statement variant to its counterpart, moving names, bodies, and the
/// start offsets of definitions.
#[verifier::external_body]
fn convert_stmts(stmts: &[ast::Stmt]) -> Vec<PyStmt> {
    stmts.iter().map(|s| match s {
        ast::Stmt::FunctionDef(f) => PyStmt::FunctionDef { name: f.name.to_string(), body: convert_stmts(&f.body), start: f.range.start().to_usize() },
        ast::Stmt::AsyncFunctionDef(f) => PyStmt::AsyncFunctionDef { name: f.name.to_string(), body: convert_stmts(&f.body), start: f.range.start().to_usize() },
        ast::Stmt::ClassDef(c) => PyStmt::ClassDef { name: c.name.to_string(), body: convert_stmts(&c.body), start: c.range.start().to_usize() },
        ast::Stmt::Expr(e) => convert_literal(&e.value),
        _ => PyStmt::Other,
    }).collect()
}

/// Converts the expression of an expression statement: a string constant
/// becomes [`PyStmt::StrExpr`] with its text; any other expression is
/// [`PyStmt::Other`].
#[verifier::external_body]
fn convert_literal(e: &ast::Expr) -> PyStmt {
    match e {
        ast::Expr::Constant(ast::ExprConstant { value: ast::Constant::Str(v), .. }) => PyStmt::StrExpr { value: v.clone() },
        _ => PyStmt::Other,
    }
}

/// Parses a Python file.
///
/// Trusted: `rustpython_parser`'s `Suite::parse` is a function of the
/// source text; its statements (converted by `convert_stmts`) or the
/// `Display` text of its error are what `python_parse` names.
#[verifier::external_body]
fn parse_python(source: &str) -> (r: Result<Vec<PyStmt>, String>)
    ensures
        parse_outcome_view(r) == python_parse(source@),
{
    ast::Suite::parse(source, "<source>").map(|suite| convert_stmts(&suite)).map_err(|e| e.to_string())
}

/// A raw element extracted from the AST, before docstring extraction.
///
/// The docstring-extraction stage (`extract.rs`) converts these into
/// [`crate::model::DocumentedElement`] values.
#[derive(Debug)]
pub struct RawElement {
    pub name: String,
    pub kind: ElementKind,
    /// Docstring literal that opens the body, if any (never empty).
    pub docstring: Option<String>,
    /// 1-based source line where the `def`/`class` keyword begins.
    pub def_line: usize,
    pub children: Vec<RawElement>,
}

/// The view of a [`RawElement`].
pub struct RawView {
    pub name: Seq<char>,
    pub kind: ElementKind,
    pub docstring: Option<Seq<char>>,
    pub def_line: nat,
    pub children: Seq<RawView>,
}

/// The view of an optional string.
pub open spec fn opt_view(o: Option<String>) -> Option<Seq<char>> {
    match o {
        Some(s) => Some(s@),
        None => None,
    }
}

/// The view of a raw element and, recursively, of its children.
pub open spec fn raw_view(r: RawElement) -> RawView
    decreases r,
{
    RawView {
        name: r.name@,
        kind: r.kind,
        docstring: opt_view(r.docstring),
        def_line: r.def_line as nat,
        children: Seq::new(
            r.children.len() as nat,
            |i: int|
                if 0 <= i < r.children.len() {
                    raw_view(r.children@[i])
                } else {
                    arbitrary()
                },
        ),
    }
}

impl View for RawElement {
    type V = RawView;

    open spec fn view(&self) -> RawView {
        raw_view(*self)
    }
}

/// The views of a list of raw elements.
pub open spec fn raw_views(v: Seq<RawElement>) -> Seq<RawView> {
    v.map_values(|r: RawElement| r@)
}

/// The children of a raw element's view are the views of its children.
pub proof fn lemma_raw_children_view(r: RawElement)
    ensures
        r@.children == raw_views(r.children@),
        r@.name == r.name@,
        r@.kind == r.kind,
        r@.docstring == opt_view(r.docstring),
        r@.def_line == r.def_line,
{
    assert(r@.children =~= raw_views(r.children@));
}

/// Result of parsing a source file.
#[derive(Debug)]
pub struct ParsedModule {
    /// Top-level documented elements (classes and functions). The module
    /// element itself is constructed by the extraction stage.
    pub elements: Vec<RawElement>,
    /// The module docstring (first statement of the file), if any.
    pub module_doc: Option<String>,
}

/// The docstring of a suite: the first statement, if it is a plain string
/// literal. Empty strings count as "no docstring".
pub open spec fn docstring_spec(stmts: Seq<PyStmtView>) -> Option<Seq<char>> {
    if stmts.len() > 0 {
        match stmts[0] {
            PyStmtView::StrExpr { value } => if value.len() > 0 {
                Some(value)
            } else {
                None
            },
            _ => None,
        }
    } else {
        None
    }
}

/// The number of newline bytes in `bytes`.
pub open spec fn count_newlines(bytes: Seq<u8>) -> nat
    decreases bytes.len(),
{
    if bytes.len() == 0 {
        0
    } else {
        count_newlines(bytes.drop_last()) + if bytes.last() == 10u8 {
            1nat
        } else {
            0nat
        }
    }
}

/// The 1-based line number of byte `offset` of `bytes` (line 1 when the
/// offset lies beyond the end).
pub open spec fn line_at_spec(offset: nat, bytes: Seq<u8>) -> nat {
    if offset <= bytes.len() {
        count_newlines(bytes.take(offset as int)) + 1
    } else {
        1
    }
}

/// The definitions among `stmts`, in order: functions (sync or async) with
/// their docstrings, classes with their docstrings and their own
/// definitions.
pub open spec fn collect_spec(stmts: Seq<PyStmtView>, bytes: Seq<u8>) -> Seq<RawView>
    decreases stmts,
{
    if stmts.len() == 0 {
        seq![]
    } else {
        let rest = collect_spec(stmts.drop_last(), bytes);
        match stmts.last() {
            PyStmtView::FunctionDef { name, body, start } => rest.push(
                RawView {
                    name,
                    kind: ElementKind::Function,
                    docstring: docstring_spec(body),
                    def_line: line_at_spec(start, bytes),
                    children: seq![],
                },
            ),
            PyStmtView::AsyncFunctionDef { name, body, start } => rest.push(
                RawView {
                    name,
                    kind: ElementKind::Function,
                    docstring: docstring_spec(body),
                    def_line: line_at_spec(start, bytes),
                    children: seq![],
                },
            ),
            PyStmtView::ClassDef { name, body, start } => rest.push(
                RawView {
                    name,
                    kind: ElementKind::Class,
                    docstring: docstring_spec(body),
                    def_line: line_at_spec(start, bytes),
                    children: collect_spec(body, bytes),
                },
            ),
            _ => rest,
        }
    }
}

/// The docstring of a body, stated directly: its first statement, when that
/// is a plain string literal that is not empty.
pub open spec fn leading_string(body: Seq<PyStmtView>) -> Option<Seq<char>> {
    if body.len() > 0 && body[0] is StrExpr && body[0]->StrExpr_value.len() > 0 {
        Some(body[0]->StrExpr_value)
    } else {
        None
    }
}

/// Definitions are collected statement by statement, in order. A `def` adds
/// a function named as it is, whose docstring is the leading string of its
/// body, on the line where it starts, without children; an `async def` is
/// collected exactly like a `def` with the same name, body and position; a
/// `class` adds a class with the leading string of its body as docstring and
/// the definitions of its body as children; any other statement adds
/// nothing.
pub proof fn law_statements_collected_in_order(
    stmts: Seq<PyStmtView>,
    name: Seq<char>,
    body: Seq<PyStmtView>,
    start: nat,
    other: Seq<char>,
    bytes: Seq<u8>,
)
    ensures
        collect_spec(stmts.push(PyStmtView::FunctionDef { name, body, start }), bytes)
            == collect_spec(stmts, bytes).push(
            RawView {
                name,
                kind: ElementKind::Function,
                docstring: leading_string(body),
                def_line: line_at_spec(start, bytes),
                children: seq![],
            },
        ),
        collect_spec(stmts.push(PyStmtView::AsyncFunctionDef { name, body, start }), bytes)
            == collect_spec(stmts.push(PyStmtView::FunctionDef { name, body, start }), bytes),
        collect_spec(stmts.push(PyStmtView::ClassDef { name, body, start }), bytes) == collect_spec(
            stmts,
            bytes,
        ).push(
            RawView {
                name,
                kind: ElementKind::Class,
                docstring: leading_string(body),
                def_line: line_at_spec(start, bytes),
                children: collect_spec(body, bytes),
            },
        ),
        collect_spec(stmts.push(PyStmtView::StrExpr { value: other }), bytes) == collect_spec(
            stmts,
            bytes,
        ),
        collect_spec(stmts.push(PyStmtView::Other), bytes) == collect_spec(stmts, bytes),
{
    let f = PyStmtView::FunctionDef { name, body, start };
    let a = PyStmtView::AsyncFunctionDef { name, body, start };
    let c = PyStmtView::ClassDef { name, body, start };
    let x = PyStmtView::StrExpr { value: other };
    let o = PyStmtView::Other;
    assert(stmts.push(f).drop_last() =~= stmts);
    assert(stmts.push(a).drop_last() =~= stmts);
    assert(stmts.push(c).drop_last() =~= stmts);
    assert(stmts.push(x).drop_last() =~= stmts);
    assert(stmts.push(o).drop_last() =~= stmts);
    assert(docstring_spec(body) == leading_string(body));
}

/// The view of a statement's body.
pub proof fn lemma_stmt_view(s: PyStmt)
    ensures
        match s {
            PyStmt::FunctionDef { name, body, start } => s@ == (PyStmtView::FunctionDef {
                name: name@,
                body: stmt_views(body@),
                start: start as nat,
            }),
            PyStmt::AsyncFunctionDef { name, body, start } => s@ == (PyStmtView::AsyncFunctionDef {
                name: name@,
                body: stmt_views(body@),
                start: start as nat,
            }),
            PyStmt::ClassDef { name, body, start } => s@ == (PyStmtView::ClassDef {
                name: name@,
                body: stmt_views(body@),
                start: start as nat,
            }),
            PyStmt::StrExpr { value } => s@ == (PyStmtView::StrExpr { value: value@ }),
            PyStmt::Other => s@ == PyStmtView::Other,
        },
{
    match s {
        PyStmt::FunctionDef { name, body, start } => {
            let v = s@;
            assert(v->FunctionDef_body =~= stmt_views(body@));
        },
        PyStmt::AsyncFunctionDef { name, body, start } => {
            let v = s@;
            assert(v->AsyncFunctionDef_body =~= stmt_views(body@));
        },
        PyStmt::ClassDef { name, body, start } => {
            let v = s@;
            assert(v->ClassDef_body =~= stmt_views(body@));
        },
        _ => {},
    }
}

/// Return the docstring of a suite: the first statement, if it is a plain
/// string literal. Empty strings count as "no docstring".
fn docstring_of(stmts: &Vec<PyStmt>) -> (r: Option<String>)
    ensures
        opt_view(r) == docstring_spec(stmt_views(stmts@)),
{
    if stmts.len() == 0 {
        return None;
    }
    proof {
        lemma_stmt_view(stmts@[0]);
    }
    match &stmts[0] {
        PyStmt::StrExpr { value } => {
            if !value.as_str().is_empty() {
                Some(value.clone())
            } else {
                None
            }
        },
        _ => None,
    }
}

/// The 1-based line number for a byte offset into `source`.
fn line_at(offset: usize, source: &[u8]) -> (n: usize)
    requires
        source@.len() < usize::MAX,
    ensures
        n == line_at_spec(offset as nat, source@),
{
    if offset > source.len() {
        return 1;
    }
    let mut count: usize = 0;
    let mut i: usize = 0;
    assert(source@.take(0) =~= Seq::<u8>::empty());
    while i < offset
        invariant
            i <= offset <= source@.len(),
            count == count_newlines(source@.take(i as int)),
            count <= i,
        decreases offset - i,
    {
        assert(source@.take(i + 1).drop_last() =~= source@.take(i as int));
        if source[i] == 10u8 {
            count += 1;
        }
        i += 1;
    }
    count + 1
}

/// Walk a suite of statements, collecting the definitions that appear
/// directly within the given scope.
fn collect_statements(stmts: &Vec<PyStmt>, source: &[u8]) -> (r: Vec<RawElement>)
    requires
        source@.len() < usize::MAX,
    ensures
        raw_views(r@) == collect_spec(stmt_views(stmts@), source@),
    decreases stmts,
{
    let ghost views = stmt_views(stmts@);
    let mut out: Vec<RawElement> = Vec::new();
    let mut i: usize = 0;
    assert(views.take(0) =~= Seq::<PyStmtView>::empty());
    assert(raw_views(out@) =~= Seq::<RawView>::empty());
    while i < stmts.len()
        invariant
            i <= stmts.len(),
            views == stmt_views(stmts@),
            source@.len() < usize::MAX,
            raw_views(out@) == collect_spec(views.take(i as int), source@),
        decreases stmts.len() - i,
    {
        assert(views.take(i + 1).drop_last() =~= views.take(i as int));
        assert(views.take(i + 1).last() == stmts@[i as int]@);
        proof {
            lemma_stmt_view(stmts@[i as int]);
        }
        let ghost prev = out@;
        match &stmts[i] {
            PyStmt::FunctionDef { name, body, start } | PyStmt::AsyncFunctionDef {
                name,
                body,
                start,
            } => {
                let el = RawElement {
                    name: name.clone(),
                    kind: ElementKind::Function,
                    docstring: docstring_of(body),
                    def_line: line_at(*start, source),
                    children: Vec::new(),
                };
                out.push(el);
                proof {
                    lemma_raw_children_view(el);
                    assert(raw_views(el.children@) =~= Seq::<RawView>::empty());
                }
                assert(raw_views(out@) =~= raw_views(prev).push(el@));
            },
            PyStmt::ClassDef { name, body, start } => {
                assert(decreases_to!(stmts => *body));
                let children = collect_statements(body, source);
                let el = RawElement {
                    name: name.clone(),
                    kind: ElementKind::Class,
                    docstring: docstring_of(body),
                    def_line: line_at(*start, source),
                    children,
                };
                out.push(el);
                proof {
                    lemma_raw_children_view(el);
                }
                assert(raw_views(out@) =~= raw_views(prev).push(el@));
            },
            _ => {},
        }
        i += 1;
    }
    assert(views.take(stmts.len() as int) =~= views);
    out
}

/// What [`parse_source`] gives for the parser's outcome on `source`.
pub open spec fn parse_source_spec(source: Seq<char>, bytes: Seq<u8>) -> Result<
    (Seq<RawView>, Option<Seq<char>>),
    Seq<char>,
> {
    match python_parse(source) {
        Ok(stmts) => Ok((collect_spec(stmts, bytes), docstring_spec(stmts))),
        Err(m) => Err(m),
    }
}

/// The elements and module docstring of a file whose text is `source` (as
/// bytes) and whose parsed statements are `stmts`.
pub fn parsed_module(stmts: &Vec<PyStmt>, source: &[u8]) -> (r: ParsedModule)
    requires
        source@.len() < usize::MAX,
    ensures
        raw_views(r.elements@) == collect_spec(stmt_views(stmts@), source@),
        opt_view(r.module_doc) == docstring_spec(stmt_views(stmts@)),
{
    ParsedModule { elements: collect_statements(stmts, source), module_doc: docstring_of(stmts) }
}

/// Parse a single Python source file and return its elements plus the module
/// docstring.
pub fn parse_source(source: &str) -> (r: Result<ParsedModule, Error>)
    requires
        vstd::utf8::encode_utf8(source@).len() < usize::MAX,
    ensures
        match parse_source_spec(source@, vstd::utf8::encode_utf8(source@)) {
            Ok((elements, doc)) => r matches Ok(m) && raw_views(m.elements@) == elements
                && opt_view(m.module_doc) == doc,
            Err(msg) => r matches Err(Error::ParseSource(path, m)) && path@ == "<source>"@ && m@
                == msg,
        },
{
    match parse_python(source) {
        Ok(stmts) => {
            Ok(parsed_module(&stmts, source.as_bytes()))
        },
        Err(msg) => Err(Error::ParseSource("<source>".to_string(), msg)),
    }
}

} // verus!
