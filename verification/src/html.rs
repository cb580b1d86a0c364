//! HTML generation from the intermediary representation.
//!
//! This module renders each documented module as a self-contained HTML page.
//! Element content is HTML-escaped to prevent injection via docstring
//! content. The navigation index is rendered from the index model in
//! `index.rs`.
use vstd::prelude::*;
use crate::model::{
    self, ArgDoc, DocComment, DocContentView, DocView, DocumentedElement, ElementView, RaisesDoc,
};
use crate::text::{self, chars_of, push_all, string_from_chars};

verus! {

/// The escape of one character.
pub open spec fn escape_char(c: char) -> Seq<char> {
    if c == '&' {
        "&amp;"@
    } else if c == '<' {
        "&lt;"@
    } else if c == '>' {
        "&gt;"@
    } else if c == '"' {
        "&quot;"@
    } else if c == '\'' {
        "&#39;"@
    } else {
        seq![c]
    }
}

/// `s` with `&`, `<`, `>`, `"` and `'` replaced by their entities.
pub open spec fn escape(s: Seq<char>) -> Seq<char>
    decreases s.len(),
{
    if s.len() == 0 {
        seq![]
    } else {
        escape(s.drop_last()) + escape_char(s.last())
    }
}

/// A character that HTML escaping replaces.
pub open spec fn is_markup_char(c: char) -> bool {
    c == '&' || c == '<' || c == '>' || c == '"' || c == '\''
}

/// No character of `t` is `<`, `>`, `"` or `'`.
pub open spec fn free_of_markup(t: Seq<char>) -> bool {
    forall|i: int| 0 <= i < t.len() ==> {
        let c = #[trigger] t[i];
        c != '<' && c != '>' && c != '"' && c != '\''
    }
}

/// Escaping leaves no character that could open a tag or close an
/// attribute: the result holds no `<`, `>`, `"` or `'`. Text without any of
/// `&`, `<`, `>`, `"`, `'` is left as it is.
pub proof fn law_escape_removes_markup(s: Seq<char>)
    ensures
        free_of_markup(escape(s)),
        (forall|i: int| 0 <= i < s.len() ==> !is_markup_char(#[trigger] s[i])) ==> escape(s) == s,
    decreases s.len(),
{
    if s.len() > 0 {
        law_escape_removes_markup(s.drop_last());
        let c = s.last();
        reveal_strlit("&amp;");
        reveal_strlit("&lt;");
        reveal_strlit("&gt;");
        reveal_strlit("&quot;");
        reveal_strlit("&#39;");
        let a = escape(s.drop_last());
        let b = escape_char(c);
        assert(free_of_markup(b));
        assert forall|i: int| 0 <= i < (a + b).len() implies {
            let d = #[trigger] (a + b)[i];
            d != '<' && d != '>' && d != '"' && d != '\''
        } by {
            if i < a.len() {
                assert((a + b)[i] == a[i]);
            } else {
                assert((a + b)[i] == b[i - a.len()]);
            }
        }
        if forall|i: int| 0 <= i < s.len() ==> !is_markup_char(#[trigger] s[i]) {
            assert(!is_markup_char(s[s.len() - 1]));
            assert forall|i: int| 0 <= i < s.drop_last().len() implies !is_markup_char(
                #[trigger] s.drop_last()[i],
            ) by {
                assert(s.drop_last()[i] == s[i]);
            }
            assert(s =~= s.drop_last() + seq![c]);
        }
    }
}

/// Appends the characters of `s` to `buf`.
pub fn push_str(buf: &mut Vec<char>, s: &str)
    ensures
        final(buf)@ == old(buf)@ + s@,
{
    let v = chars_of(s);
    push_all(buf, &v);
}

/// Appends the escape of `s` to `buf`.
pub fn push_escaped(buf: &mut Vec<char>, s: &str)
    ensures
        final(buf)@ == old(buf)@ + escape(s@),
{
    let v = chars_of(s);
    let mut i: usize = 0;
    assert(v@.take(0) =~= Seq::<char>::empty());
    assert(escape(v@.take(0)) =~= Seq::<char>::empty());
    assert(buf@ =~= old(buf)@ + escape(v@.take(0)));
    while i < v.len()
        invariant
            i <= v.len(),
            v@ == s@,
            buf@ == old(buf)@ + escape(v@.take(i as int)),
        decreases v.len() - i,
    {
        let c = v[i];
        assert(v@.take(i + 1).drop_last() =~= v@.take(i as int));
        assert(v@.take(i + 1).last() == c);
        if c == '&' {
            push_str(buf, "&amp;");
        } else if c == '<' {
            push_str(buf, "&lt;");
        } else if c == '>' {
            push_str(buf, "&gt;");
        } else if c == '"' {
            push_str(buf, "&quot;");
        } else if c == '\'' {
            push_str(buf, "&#39;");
        } else {
            buf.push(c);
        }
        i += 1;
    }
    assert(v@.take(v.len() as int) =~= v@);
}

/// HTML-escape a string so that raw docstring text cannot inject markup.
pub fn escape_html(input: &str) -> (r: String)
    ensures
        r@ == escape(input@),
{
    let mut out: Vec<char> = Vec::new();
    push_escaped(&mut out, input);
    assert(out@ =~= escape(input@));
    string_from_chars(&out)
}

/// The page around `body`: a minimal HTML document embedding `styles`, so
/// that every page is self-contained and works offline.
pub open spec fn page(title: Seq<char>, body: Seq<char>, styles: Seq<char>) -> Seq<char> {
    "<!DOCTYPE html>\n<html lang=\"en\">\n<head>\n<meta charset=\"utf-8\">\n<meta name=\"color-scheme\" content=\"light dark\">\n<title>"@
        + escape(title) + "</title>\n<style>\n"@ + styles + "\n</style>\n</head>\n<body>\n"@ + body
        + "\n</body>\n</html>\n"@
}

/// Wrap body content in a minimal HTML document, embedding `styles` so every
/// page is self-contained and offline-capable.
pub fn wrap_page(title: &str, body: &str, styles: &str) -> (r: String)
    ensures
        r@ == page(title@, body@, styles@),
{
    let mut out: Vec<char> = Vec::new();
    push_str(
        &mut out,
        "<!DOCTYPE html>\n<html lang=\"en\">\n<head>\n<meta charset=\"utf-8\">\n<meta name=\"color-scheme\" content=\"light dark\">\n<title>",
    );
    push_escaped(&mut out, title);
    push_str(&mut out, "</title>\n<style>\n");
    push_str(&mut out, styles);
    push_str(&mut out, "\n</style>\n</head>\n<body>\n");
    push_str(&mut out, body);
    push_str(&mut out, "\n</body>\n</html>\n");
    assert(out@ =~= page(title@, body@, styles@));
    string_from_chars(&out)
}

/// The heading tag of a nesting level (`h2` … `h6`).
pub open spec fn heading(level: nat) -> Seq<char> {
    seq![
        'h',
        if level <= 2 {
            '2'
        } else if level == 3 {
            '3'
        } else if level == 4 {
            '4'
        } else if level == 5 {
            '5'
        } else {
            '6'
        },
    ]
}

/// The heading level of the children of an element at `level`.
pub open spec fn child_level(level: nat) -> nat {
    if level < 6 {
        level + 1
    } else {
        6
    }
}

/// The table row of one documented argument.
pub open spec fn arg_row(a: (Seq<char>, Seq<char>)) -> Seq<char> {
    "<tr><td><code>"@ + escape(a.0) + "</code></td><td>"@ + escape(a.1) + "</td></tr>\n"@
}

/// The list item of one documented exception.
pub open spec fn raise_item(r: (Seq<char>, Seq<char>)) -> Seq<char> {
    "<li><code>"@ + escape(r.0) + "</code> — "@ + escape(r.1) + "</li>\n"@
}

/// The table rows of the documented arguments.
pub open spec fn arg_rows(args: Seq<(Seq<char>, Seq<char>)>) -> Seq<char>
    decreases args.len(),
{
    if args.len() == 0 {
        seq![]
    } else {
        arg_rows(args.drop_last()) + arg_row(args.last())
    }
}

/// The list items of the documented exceptions.
pub open spec fn raise_items(raises: Seq<(Seq<char>, Seq<char>)>) -> Seq<char>
    decreases raises.len(),
{
    if raises.len() == 0 {
        seq![]
    } else {
        raise_items(raises.drop_last()) + raise_item(raises.last())
    }
}

/// The HTML of parsed documentation: each non-empty section in turn.
pub open spec fn content_html(c: DocContentView) -> Seq<char> {
    description_html(c) + args_html(c) + returns_html(c) + raises_html(c)
}

/// The HTML of an element's documentation.
pub open spec fn doc_html(d: DocView) -> Seq<char> {
    match d {
        DocView::Absent => "<p class=\"undocumented\">No documentation provided.</p>\n"@,
        DocView::Error(m) => "<p class=\"error\">Error: the docstring was not written correctly ("@
            + escape(m) + ")</p>\n"@,
        DocView::Parsed(c) => content_html(c),
    }
}

/// The HTML section of an element at heading `level`, with its children
/// nested one level deeper.
pub open spec fn element_html(e: ElementView, level: nat) -> Seq<char>
    decreases e,
{
    let h = heading(level);
    let path = text::join(e.path, seq!['.']);
    "<section>\n<"@ + h + " class=\"element\" id=\""@ + escape(path)
        + "\"><span class=\"kind\">"@ + escape(model::kind_label(e.kind)) + "</span> "@ + escape(
        path,
    ) + "</"@ + h + ">\n"@ + "<p class=\"path\"><code>"@ + escape(path) + "</code></p>\n"@
        + doc_html(e.doc) + children_html(e.children, child_level(level)) + "</section>\n"@
}

/// The sections of `cs`, one after the other.
pub open spec fn children_html(cs: Seq<ElementView>, level: nat) -> Seq<char>
    decreases cs,
{
    if cs.len() == 0 {
        seq![]
    } else {
        children_html(cs.drop_last(), level) + element_html(cs.last(), level)
    }
}

/// Appends the heading tag of `level`.
fn push_heading(out: &mut Vec<char>, level: usize)
    ensures
        final(out)@ == old(out)@ + heading(level as nat),
{
    out.push('h');
    let d = if level <= 2 {
        '2'
    } else if level == 3 {
        '3'
    } else if level == 4 {
        '4'
    } else if level == 5 {
        '5'
    } else {
        '6'
    };
    out.push(d);
    assert(out@ =~= old(out)@ + heading(level as nat));
}

/// The description section of parsed documentation.
pub open spec fn description_html(c: DocContentView) -> Seq<char> {
    if c.description.len() > 0 {
        "<p class=\"description\">"@ + escape(c.description) + "</p>\n"@
    } else {
        seq![]
    }
}

/// The arguments section of parsed documentation.
pub open spec fn args_html(c: DocContentView) -> Seq<char> {
    if c.args.len() > 0 {
        "<h4>Arguments</h4>\n<table>\n"@ + arg_rows(c.args) + "</table>\n"@
    } else {
        seq![]
    }
}

/// The returns section of parsed documentation.
pub open spec fn returns_html(c: DocContentView) -> Seq<char> {
    match c.returns {
        Some(d) => "<h4>Returns</h4>\n<p>"@ + escape(d) + "</p>\n"@,
        None => seq![],
    }
}

/// The raises section of parsed documentation.
pub open spec fn raises_html(c: DocContentView) -> Seq<char> {
    if c.raises.len() > 0 {
        "<h4>Raises</h4>\n<ul>\n"@ + raise_items(c.raises) + "</ul>\n"@
    } else {
        seq![]
    }
}

/// Appends `<s1>escape(a)<s2>escape(b)<s3>`.
fn push_row(out: &mut Vec<char>, s1: &str, a: &str, s2: &str, b: &str, s3: &str)
    ensures
        final(out)@ == old(out)@ + s1@ + escape(a@) + s2@ + escape(b@) + s3@,
{
    push_str(out, s1);
    push_escaped(out, a);
    push_str(out, s2);
    push_escaped(out, b);
    push_str(out, s3);
}

/// Appends `<s1>escape(a)<s2>`.
fn push_wrapped(out: &mut Vec<char>, s1: &str, a: &str, s2: &str)
    ensures
        final(out)@ == old(out)@ + s1@ + escape(a@) + s2@,
{
    push_str(out, s1);
    push_escaped(out, a);
    push_str(out, s2);
}

/// Appends the arguments section.
fn push_args(out: &mut Vec<char>, args: &Vec<ArgDoc>)
    ensures
        final(out)@ == old(out)@ + (if args@.len() > 0 {
            "<h4>Arguments</h4>\n<table>\n"@ + arg_rows(args@.map_values(|a: ArgDoc| a@))
                + "</table>\n"@
        } else {
            seq![]
        }),
{
    if args.len() == 0 {
        assert(out@ =~= old(out)@ + Seq::<char>::empty());
        return ;
    }
    let ghost c = args@.map_values(|a: ArgDoc| a@);
    push_str(out, "<h4>Arguments</h4>\n<table>\n");
    let mut i: usize = 0;
    let ghost rows_start = out@;
    assert(c.take(0) =~= Seq::<(Seq<char>, Seq<char>)>::empty());
    assert(out@ =~= rows_start + arg_rows(c.take(0)));
    while i < args.len()
        invariant
            i <= args.len(),
            c == args@.map_values(|a: ArgDoc| a@),
            out@ == rows_start + arg_rows(c.take(i as int)),
        decreases args.len() - i,
    {
        let arg: &ArgDoc = &args[i];
        assert(c.take(i + 1).drop_last() =~= c.take(i as int));
        assert(c.take(i + 1).last() == arg@);
        push_row(
            out,
            "<tr><td><code>",
            arg.name.as_str(),
            "</code></td><td>",
            arg.description.as_str(),
            "</td></tr>\n",
        );
        i += 1;
        assert(out@ =~= rows_start + arg_rows(c.take(i as int)));
    }
    assert(c.take(args.len() as int) =~= c);
    push_str(out, "</table>\n");
    assert(out@ =~= old(out)@ + ("<h4>Arguments</h4>\n<table>\n"@ + arg_rows(c) + "</table>\n"@));
}

/// Appends the raises section.
fn push_raises(out: &mut Vec<char>, raises: &Vec<RaisesDoc>)
    ensures
        final(out)@ == old(out)@ + (if raises@.len() > 0 {
            "<h4>Raises</h4>\n<ul>\n"@ + raise_items(raises@.map_values(|r: RaisesDoc| r@))
                + "</ul>\n"@
        } else {
            seq![]
        }),
{
    if raises.len() == 0 {
        assert(out@ =~= old(out)@ + Seq::<char>::empty());
        return ;
    }
    let ghost c = raises@.map_values(|r: RaisesDoc| r@);
    push_str(out, "<h4>Raises</h4>\n<ul>\n");
    let mut i: usize = 0;
    let ghost items_start = out@;
    assert(c.take(0) =~= Seq::<(Seq<char>, Seq<char>)>::empty());
    assert(out@ =~= items_start + raise_items(c.take(0)));
    while i < raises.len()
        invariant
            i <= raises.len(),
            c == raises@.map_values(|r: RaisesDoc| r@),
            out@ == items_start + raise_items(c.take(i as int)),
        decreases raises.len() - i,
    {
        let r: &RaisesDoc = &raises[i];
        assert(c.take(i + 1).drop_last() =~= c.take(i as int));
        assert(c.take(i + 1).last() == r@);
        push_row(
            out,
            "<li><code>",
            r.exception.as_str(),
            "</code> — ",
            r.description.as_str(),
            "</li>\n",
        );
        i += 1;
        assert(out@ =~= items_start + raise_items(c.take(i as int)));
    }
    assert(c.take(raises.len() as int) =~= c);
    push_str(out, "</ul>\n");
    assert(out@ =~= old(out)@ + ("<h4>Raises</h4>\n<ul>\n"@ + raise_items(c) + "</ul>\n"@));
}

/// Appends the documentation part of an element.
fn push_doc(out: &mut Vec<char>, doc: &DocComment)
    ensures
        final(out)@ == old(out)@ + doc_html(doc@),
{
    match doc {
        DocComment::Absent => {
            push_str(out, "<p class=\"undocumented\">No documentation provided.</p>\n");
        },
        DocComment::Error(msg) => {
            push_wrapped(
                out,
                "<p class=\"error\">Error: the docstring was not written correctly (",
                msg.as_str(),
                ")</p>\n",
            );
        },
        DocComment::Parsed(content) => {
            let ghost c = content@;
            let ghost start = out@;
            if !content.description.as_str().is_empty() {
                push_wrapped(out, "<p class=\"description\">", content.description.as_str(), "</p>\n");
            }
            let ghost a1 = out@;
            assert(a1 =~= start + description_html(c));
            push_args(out, &content.args);
            let ghost a2 = out@;
            assert(a2 == a1 + args_html(c));
            match &content.returns {
                Option::Some(ret) => {
                    push_wrapped(out, "<h4>Returns</h4>\n<p>", ret.description.as_str(), "</p>\n");
                },
                Option::None => {},
            }
            let ghost a3 = out@;
            assert(a3 =~= a2 + returns_html(c));
            push_raises(out, &content.raises);
            assert(out@ == a3 + raises_html(c));
            assert(content_html(c) =~= description_html(c) + args_html(c) + returns_html(c)
                + raises_html(c));
            assert(out@ =~= start + content_html(c));
        },
    }
}

/// Appends the heading line and path line of an element.
fn push_header(out: &mut Vec<char>, path: &str, kind: &str, level: usize)
    ensures
        final(out)@ == old(out)@ + ("<section>\n<"@ + heading(level as nat)
            + " class=\"element\" id=\""@ + escape(path@) + "\"><span class=\"kind\">"@ + escape(
            kind@,
        ) + "</span> "@ + escape(path@) + "</"@ + heading(level as nat) + ">\n"@
            + "<p class=\"path\"><code>"@ + escape(path@) + "</code></p>\n"@),
{
    let ghost start = out@;
    push_str(out, "<section>\n<");
    push_heading(out, level);
    push_wrapped(out, " class=\"element\" id=\"", path, "\"><span class=\"kind\">");
    push_wrapped(out, "", kind, "</span> ");
    push_escaped(out, path);
    push_str(out, "</");
    push_heading(out, level);
    push_str(out, ">\n");
    push_wrapped(out, "<p class=\"path\"><code>", path, "</code></p>\n");
    proof {
        reveal_strlit("");
    }
    assert(out@ =~= start + ("<section>\n<"@ + heading(level as nat) + " class=\"element\" id=\""@
        + escape(path@) + "\"><span class=\"kind\">"@ + escape(kind@) + "</span> "@ + escape(
        path@,
    ) + "</"@ + heading(level as nat) + ">\n"@ + "<p class=\"path\"><code>"@ + escape(path@)
        + "</code></p>\n"@));
}

/// Appends the section of `el` at heading `level`.
fn render_element(out: &mut Vec<char>, el: &DocumentedElement, level: usize)
    requires
        2 <= level <= 6,
    ensures
        final(out)@ == old(out)@ + element_html(el@, level as nat),
    decreases el,
{
    proof {
        model::lemma_children_view(*el);
    }
    let path = el.path.text();
    let ghost start = out@;
    push_header(out, path.as_str(), el.kind.label(), level);
    let ghost after_header = out@;
    push_doc(out, &el.doc);
    let ghost before_children = out@;
    let next = if level < 6 {
        level + 1
    } else {
        6
    };
    let ghost cs = el@.children;
    let mut i: usize = 0;
    assert(cs.take(0) =~= Seq::<ElementView>::empty());
    assert(out@ =~= before_children + children_html(cs.take(0), next as nat));
    while i < el.children.len()
        invariant
            i <= el.children.len(),
            2 <= next <= 6,
            cs == el@.children,
            cs == model::element_views(el.children@),
            out@ == before_children + children_html(cs.take(i as int), next as nat),
        decreases el.children.len() - i,
    {
        assert(cs.take(i + 1).drop_last() =~= cs.take(i as int));
        assert(cs.take(i + 1).last() == el.children@[i as int]@);
        assert(decreases_to!(el => el.children@[i as int]));
        render_element(out, &el.children[i], next);
        i += 1;
    }
    assert(cs.take(el.children.len() as int) =~= cs);
    let ghost after_children = out@;
    push_str(out, "</section>\n");
    assert(element_html(el@, level as nat) == (after_header.subrange(start.len() as int, after_header.len() as int)
        + doc_html(el@.doc) + children_html(cs, next as nat) + "</section>\n"@));
    assert(out@ =~= start + element_html(el@, level as nat));
}

/// The page of a module: a link back to the index, a rule, and the module's
/// section with its classes and functions.
pub open spec fn module_page(module: ElementView, back_to: Seq<char>, styles: Seq<char>) -> Seq<
    char,
> {
    let body = "<p class=\"nav\"><a href=\""@ + escape(back_to) + "\">&larr; Index</a></p>\n"@
        + "<hr>\n"@ + element_html(module, 2);
    page(text::join(module.path, seq!['.']) + " — pydoc-gen"@, body, styles)
}

/// Render a single module page: the module entry with its classes and
/// functions, plus a link back to the index.
pub fn render_module_page(module: &DocumentedElement, back_to: &str, styles: &str) -> (r: String)
    ensures
        r@ == module_page(module@, back_to@, styles@),
{
    proof {
        model::lemma_children_view(*module);
    }
    let mut body: Vec<char> = Vec::new();
    push_str(&mut body, "<p class=\"nav\"><a href=\"");
    push_escaped(&mut body, back_to);
    push_str(&mut body, "\">&larr; Index</a></p>\n");
    push_str(&mut body, "<hr>\n");
    render_element(&mut body, module, 2);
    let mut title = chars_of(module.path.text().as_str());
    push_str(&mut title, " — pydoc-gen");
    let title_s = string_from_chars(&title);
    let body_s = string_from_chars(&body);
    let r = wrap_page(title_s.as_str(), body_s.as_str(), styles);
    assert(body@ =~= "<p class=\"nav\"><a href=\""@ + escape(back_to@)
        + "\">&larr; Index</a></p>\n"@ + "<hr>\n"@ + element_html(module@, 2));
    r
}


/// `t` occurs in `s` starting at position `i`.
pub open spec fn occurs_at(s: Seq<char>, t: Seq<char>, i: int) -> bool {
    0 <= i && i + t.len() <= s.len() && s.subrange(i, i + t.len()) == t
}

/// `t` occurs in `s` as a contiguous run of characters.
pub open spec fn contains_text(s: Seq<char>, t: Seq<char>) -> bool {
    exists|i: int| #[trigger] occurs_at(s, t, i)
}

/// A text contains itself.
proof fn lemma_contains_self(t: Seq<char>)
    ensures
        contains_text(t, t),
{
    assert(t.subrange(0, t.len() as int) =~= t);
    assert(occurs_at(t, t, 0));
}

/// Text around a piece keeps whatever the piece contains.
proof fn lemma_contains_within(a: Seq<char>, x: Seq<char>, b: Seq<char>, t: Seq<char>)
    requires
        contains_text(x, t),
    ensures
        contains_text(a + x + b, t),
{
    let i = choose|i: int| #[trigger] occurs_at(x, t, i);
    let j = a.len() + i;
    assert((a + x + b).subrange(j, j + t.len()) =~= x.subrange(i, i + t.len()));
    assert(occurs_at(a + x + b, t, j));
}

/// `contains_text` is transitive.
proof fn lemma_contains_trans(s: Seq<char>, u: Seq<char>, t: Seq<char>)
    requires
        contains_text(s, u),
        contains_text(u, t),
    ensures
        contains_text(s, t),
{
    let i = choose|i: int| #[trigger] occurs_at(s, u, i);
    let j = choose|j: int| #[trigger] occurs_at(u, t, j);
    assert(s.subrange(i + j, i + j + t.len()) =~= u.subrange(j, j + t.len()));
    assert(occurs_at(s, t, i + j));
}

/// The row of the `k`-th argument is among the argument rows.
proof fn lemma_arg_rows_contain(args: Seq<(Seq<char>, Seq<char>)>, k: int)
    requires
        0 <= k < args.len(),
    ensures
        contains_text(arg_rows(args), arg_row(args[k])),
    decreases args.len(),
{
    let row = arg_row(args[k]);
    let init = args.drop_last();
    assert(arg_rows(args) == arg_rows(init) + arg_row(args.last()));
    if k == args.len() - 1 {
        lemma_contains_self(row);
        lemma_contains_within(arg_rows(init), row, seq![], row);
        assert(arg_rows(init) + row + seq![] =~= arg_rows(args));
    } else {
        assert(init[k] == args[k]);
        lemma_arg_rows_contain(init, k);
        lemma_contains_within(seq![], arg_rows(init), arg_row(args.last()), row);
        assert(seq![] + arg_rows(init) + arg_row(args.last()) =~= arg_rows(args));
    }
}

/// The item of the `k`-th exception is among the exception items.
proof fn lemma_raise_items_contain(raises: Seq<(Seq<char>, Seq<char>)>, k: int)
    requires
        0 <= k < raises.len(),
    ensures
        contains_text(raise_items(raises), raise_item(raises[k])),
    decreases raises.len(),
{
    let item = raise_item(raises[k]);
    let init = raises.drop_last();
    assert(raise_items(raises) == raise_items(init) + raise_item(raises.last()));
    if k == raises.len() - 1 {
        lemma_contains_self(item);
        lemma_contains_within(raise_items(init), item, seq![], item);
        assert(raise_items(init) + item + seq![] =~= raise_items(raises));
    } else {
        assert(init[k] == raises[k]);
        lemma_raise_items_contain(init, k);
        lemma_contains_within(seq![], raise_items(init), raise_item(raises.last()), item);
        assert(seq![] + raise_items(init) + raise_item(raises.last()) =~= raise_items(raises));
    }
}

/// The section of the `k`-th child is among the children's sections.
proof fn lemma_children_html_contain(cs: Seq<ElementView>, level: nat, k: int)
    requires
        0 <= k < cs.len(),
    ensures
        contains_text(children_html(cs, level), element_html(cs[k], level)),
    decreases cs.len(),
{
    let init = cs.drop_last();
    let sec = element_html(cs[k], level);
    if k == cs.len() - 1 {
        lemma_contains_self(sec);
        lemma_contains_within(children_html(init, level), sec, seq![], sec);
        assert(children_html(init, level) + sec + seq![] =~= children_html(cs, level));
    } else {
        assert(init[k] == cs[k]);
        lemma_children_html_contain(init, level, k);
        lemma_contains_within(seq![], children_html(init, level), element_html(cs.last(), level), sec);
        assert(seq![] + children_html(init, level) + element_html(cs.last(), level) =~= children_html(
            cs,
            level,
        ));
    }
}

/// An element's section shows all of its parsed documentation, whatever the
/// other parts hold: the description (when not empty), a row for every
/// argument, the returns entry under its heading, and an item for every
/// exception, each escaped.
pub proof fn law_section_shows_documentation(e: ElementView, level: nat, c: DocContentView)
    requires
        e.doc == DocView::Parsed(c),
    ensures
        c.description.len() > 0 ==> contains_text(
            element_html(e, level),
            "<p class=\"description\">"@ + escape(c.description) + "</p>\n"@,
        ),
        forall|k: int|
            0 <= k < c.args.len() ==> contains_text(
                element_html(e, level),
                "<tr><td><code>"@ + escape(#[trigger] c.args[k].0) + "</code></td><td>"@ + escape(
                    c.args[k].1,
                ) + "</td></tr>\n"@,
            ),
        c.returns matches Some(d) ==> contains_text(
            element_html(e, level),
            "<h4>Returns</h4>\n<p>"@ + escape(d) + "</p>\n"@,
        ),
        forall|k: int|
            0 <= k < c.raises.len() ==> contains_text(
                element_html(e, level),
                "<li><code>"@ + escape(#[trigger] c.raises[k].0) + "</code> — "@ + escape(
                    c.raises[k].1,
                ) + "</li>\n"@,
            ),
{
    let h = heading(level);
    let path = text::join(e.path, seq!['.']);
    let head = "<section>\n<"@ + h + " class=\"element\" id=\""@ + escape(path)
        + "\"><span class=\"kind\">"@ + escape(model::kind_label(e.kind)) + "</span> "@ + escape(path)
        + "</"@ + h + ">\n"@ + "<p class=\"path\"><code>"@ + escape(path) + "</code></p>\n"@;
    let tail = children_html(e.children, child_level(level)) + "</section>\n"@;
    let d = doc_html(e.doc);
    assert(element_html(e, level) =~= head + d + tail);
    assert(d == description_html(c) + args_html(c) + returns_html(c) + raises_html(c));
    // The description.
    if c.description.len() > 0 {
        let t = "<p class=\"description\">"@ + escape(c.description) + "</p>\n"@;
        lemma_contains_self(t);
        lemma_contains_within(seq![], t, args_html(c) + returns_html(c) + raises_html(c), t);
        assert(seq![] + t + (args_html(c) + returns_html(c) + raises_html(c)) =~= d);
        lemma_contains_within(head, d, tail, t);
    }
    // The arguments.
    assert forall|k: int| 0 <= k < c.args.len() implies contains_text(
        element_html(e, level),
        "<tr><td><code>"@ + escape(#[trigger] c.args[k].0) + "</code></td><td>"@ + escape(
            c.args[k].1,
        ) + "</td></tr>\n"@,
    ) by {
        let row = "<tr><td><code>"@ + escape(c.args[k].0) + "</code></td><td>"@ + escape(c.args[k].1)
            + "</td></tr>\n"@;
        lemma_arg_rows_contain(c.args, k);
        let pre = "<h4>Arguments</h4>\n<table>\n"@;
        lemma_contains_within(pre, arg_rows(c.args), "</table>\n"@, row);
        assert(args_html(c) == pre + arg_rows(c.args) + "</table>\n"@);
        lemma_contains_within(
            description_html(c),
            args_html(c),
            returns_html(c) + raises_html(c),
            row,
        );
        assert(description_html(c) + args_html(c) + (returns_html(c) + raises_html(c)) =~= d);
        lemma_contains_within(head, d, tail, row);
    }
    // The returns entry.
    if c.returns is Some {
        let r = c.returns->0;
        let t = "<h4>Returns</h4>\n<p>"@ + escape(r) + "</p>\n"@;
        assert(returns_html(c) == t);
        lemma_contains_self(t);
        lemma_contains_within(description_html(c) + args_html(c), t, raises_html(c), t);
        assert(description_html(c) + args_html(c) + t + raises_html(c) =~= d);
        lemma_contains_within(head, d, tail, t);
    }
    // The exceptions.
    assert forall|k: int| 0 <= k < c.raises.len() implies contains_text(
        element_html(e, level),
        "<li><code>"@ + escape(#[trigger] c.raises[k].0) + "</code> — "@ + escape(c.raises[k].1)
            + "</li>\n"@,
    ) by {
        let item = "<li><code>"@ + escape(c.raises[k].0) + "</code> — "@ + escape(c.raises[k].1)
            + "</li>\n"@;
        lemma_raise_items_contain(c.raises, k);
        let pre = "<h4>Raises</h4>\n<ul>\n"@;
        lemma_contains_within(pre, raise_items(c.raises), "</ul>\n"@, item);
        assert(raises_html(c) == pre + raise_items(c.raises) + "</ul>\n"@);
        lemma_contains_within(
            description_html(c) + args_html(c) + returns_html(c),
            raises_html(c),
            seq![],
            item,
        );
        assert(description_html(c) + args_html(c) + returns_html(c) + raises_html(c) + seq![] =~= d);
        lemma_contains_within(head, d, tail, item);
    }
}

/// An element's section holds the section of each of its children, and a
/// module's page holds the module's section; so everything a class,
/// function or method documents appears on its module's page.
pub proof fn law_page_holds_every_section(
    m: ElementView,
    back_to: Seq<char>,
    styles: Seq<char>,
    e: ElementView,
    level: nat,
)
    ensures
        contains_text(module_page(m, back_to, styles), element_html(m, 2)),
        forall|k: int|
            0 <= k < e.children.len() ==> contains_text(
                element_html(e, level),
                element_html(#[trigger] e.children[k], child_level(level)),
            ),
        forall|k: int|
            0 <= k < m.children.len() ==> contains_text(
                module_page(m, back_to, styles),
                element_html(#[trigger] m.children[k], 3),
            ),
{
    let sec = element_html(m, 2);
    let body_pre = "<p class=\"nav\"><a href=\""@ + escape(back_to) + "\">&larr; Index</a></p>\n"@
        + "<hr>\n"@;
    let title = text::join(m.path, seq!['.']) + " — pydoc-gen"@;
    let page_pre = "<!DOCTYPE html>\n<html lang=\"en\">\n<head>\n<meta charset=\"utf-8\">\n<meta name=\"color-scheme\" content=\"light dark\">\n<title>"@
        + escape(title) + "</title>\n<style>\n"@ + styles + "\n</style>\n</head>\n<body>\n"@
        + body_pre;
    let page_post = "\n</body>\n</html>\n"@;
    assert(module_page(m, back_to, styles) =~= page_pre + sec + page_post);
    lemma_contains_self(sec);
    lemma_contains_within(page_pre, sec, page_post, sec);
    assert forall|k: int| 0 <= k < e.children.len() implies contains_text(
        element_html(e, level),
        element_html(#[trigger] e.children[k], child_level(level)),
    ) by {
        lemma_section_holds_child(e, level, k);
    }
    assert forall|k: int| 0 <= k < m.children.len() implies contains_text(
        module_page(m, back_to, styles),
        element_html(#[trigger] m.children[k], 3),
    ) by {
        lemma_section_holds_child(m, 2, k);
        assert(child_level(2) == 3);
        lemma_contains_trans(module_page(m, back_to, styles), sec, element_html(m.children[k], 3));
    }
}

/// See [`law_page_holds_every_section`].
proof fn lemma_section_holds_child(e: ElementView, level: nat, k: int)
    requires
        0 <= k < e.children.len(),
    ensures
        contains_text(element_html(e, level), element_html(e.children[k], child_level(level))),
{
    let h = heading(level);
    let path = text::join(e.path, seq!['.']);
    let head = "<section>\n<"@ + h + " class=\"element\" id=\""@ + escape(path)
        + "\"><span class=\"kind\">"@ + escape(model::kind_label(e.kind)) + "</span> "@ + escape(path)
        + "</"@ + h + ">\n"@ + "<p class=\"path\"><code>"@ + escape(path) + "</code></p>\n"@
        + doc_html(e.doc);
    let kids = children_html(e.children, child_level(level));
    assert(element_html(e, level) =~= head + kids + "</section>\n"@);
    lemma_children_html_contain(e.children, child_level(level), k);
    lemma_contains_within(head, kids, "</section>\n"@, element_html(e.children[k], child_level(level)));
}

} // verus!
