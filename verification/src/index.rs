//! The data of the navigation index.
//!
//! The index page lists every module, and within it every class and
//! function, by full import path, each as a link to its section on its
//! module's page. This module builds that tree of `(path, kind, href,
//! children)` entries and renders it through the page template with tera.
use vstd::prelude::*;
use crate::html;
use crate::model::{self, DocumentedElement, DocumentedProject, ElementView, ImportPath};
use crate::parser::opt_view;
use crate::text::{self, chars_of, join_chars, string_from_chars};

verus! {

/// An entry of the navigation index.
#[derive(Debug)]
pub struct TemplateElement {
    /// The element's full dotted import path.
    pub path: String,
    /// The element's kind label.
    pub kind: String,
    /// The link to the element's section on its module's page.
    pub href: String,
    /// The entries of the nested elements.
    pub children: Vec<TemplateElement>,
}

/// The view of a [`TemplateElement`].
pub struct TemplateView {
    pub path: Seq<char>,
    pub kind: Seq<char>,
    pub href: Seq<char>,
    pub children: Seq<TemplateView>,
}

/// The view of an entry and, recursively, of its children.
pub open spec fn template_view(t: TemplateElement) -> TemplateView
    decreases t,
{
    TemplateView {
        path: t.path@,
        kind: t.kind@,
        href: t.href@,
        children: Seq::new(
            t.children.len() as nat,
            |i: int|
                if 0 <= i < t.children.len() {
                    template_view(t.children@[i])
                } else {
                    arbitrary()
                },
        ),
    }
}

impl View for TemplateElement {
    type V = TemplateView;

    open spec fn view(&self) -> TemplateView {
        template_view(*self)
    }
}

/// The file of a module's page, relative to the output directory: the
/// segments of its path joined by `/`, with `.html` (`sample.utils` →
/// `sample/utils.html`).
pub open spec fn page_file(path: Seq<Seq<char>>) -> Seq<char> {
    text::join(path, seq!['/']) + ".html"@
}

/// The index entry of an element on the module page `page`: its dotted
/// path, its kind label, the link to its section (`page#path`), and the
/// entries of its children in order.
pub open spec fn template_of(e: ElementView, page: Seq<char>) -> TemplateView
    decreases e,
{
    TemplateView {
        path: text::join(e.path, seq!['.']),
        kind: model::kind_label(e.kind),
        href: page + seq!['#'] + text::join(e.path, seq!['.']),
        children: Seq::new(
            e.children.len(),
            |i: int|
                if 0 <= i < e.children.len() {
                    template_of(e.children[i], page)
                } else {
                    arbitrary()
                },
        ),
    }
}

/// The paths of index entries and of all their descendants, depth first.
pub open spec fn entry_paths(ts: Seq<TemplateView>) -> Seq<Seq<char>>
    decreases ts,
{
    if ts.len() == 0 {
        seq![]
    } else {
        seq![ts[0].path] + entry_paths(ts[0].children) + entry_paths(ts.drop_first())
    }
}

/// The dotted path of an element.
pub open spec fn dotted(e: ElementView) -> Seq<char> {
    text::join(e.path, seq!['.'])
}

/// An index entry mirrors its element: it shows the element's dotted path
/// and kind label, links to the element's section on the page, and has
/// exactly as many children as the element, its `i`-th child being the
/// entry of the element's `i`-th child.
pub proof fn law_index_entry_mirrors_element(e: ElementView, page: Seq<char>)
    ensures
        template_of(e, page).path == dotted(e),
        template_of(e, page).kind == model::kind_label(e.kind),
        template_of(e, page).href == page + seq!['#'] + dotted(e),
        template_of(e, page).children.len() == e.children.len(),
        forall|i: int|
            0 <= i < e.children.len() ==> #[trigger] template_of(e, page).children[i] == template_of(
                e.children[i],
                page,
            ),
{
}

/// The entries of a list of elements on one page list, depth first, the
/// dotted path of every element of the list and of all its descendants.
proof fn lemma_entry_paths(es: Seq<ElementView>, page: Seq<char>)
    ensures
        entry_paths(es.map_values(|e: ElementView| template_of(e, page))) == model::preorder(
            es,
        ).map_values(|e: ElementView| dotted(e)),
    decreases es,
{
    let ts = es.map_values(|e: ElementView| template_of(e, page));
    if es.len() == 0 {
        assert(ts =~= Seq::<TemplateView>::empty());
        assert(model::preorder(es).map_values(|e: ElementView| dotted(e)) =~= Seq::<Seq<char>>::empty());
    } else {
        let e0 = es[0];
        let rest = es.drop_first();
        assert(decreases_to!(es => es[0]));
        assert(decreases_to!(e0 => e0.children));
        lemma_entry_paths(e0.children, page);
        lemma_entry_paths(rest, page);
        law_index_entry_mirrors_element(e0, page);
        assert(ts[0] == template_of(e0, page));
        assert(ts[0].children =~= e0.children.map_values(|e: ElementView| template_of(e, page)));
        assert(ts.drop_first() =~= rest.map_values(|e: ElementView| template_of(e, page)));
        let pre = model::preorder(es);
        assert(pre == seq![e0] + model::preorder(e0.children) + model::preorder(rest));
        assert(pre.map_values(|e: ElementView| dotted(e)) =~= seq![dotted(e0)]
            + model::preorder(e0.children).map_values(|e: ElementView| dotted(e))
            + model::preorder(rest).map_values(|e: ElementView| dotted(e)));
    }
}

/// The navigation index covers the whole tree: the entries of a project's
/// modules list, depth first, the dotted path of every module, class and
/// function, each once and in order.
pub proof fn law_index_lists_every_element(es: Seq<ElementView>)
    ensures
        entry_paths(es.map_values(|e: ElementView| template_of(e, page_file(e.path))))
            == model::preorder(es).map_values(|e: ElementView| dotted(e)),
    decreases es.len(),
{
    let ts = es.map_values(|e: ElementView| template_of(e, page_file(e.path)));
    if es.len() == 0 {
        assert(ts =~= Seq::<TemplateView>::empty());
        assert(model::preorder(es).map_values(|e: ElementView| dotted(e)) =~= Seq::<Seq<char>>::empty());
    } else {
        let e0 = es[0];
        let rest = es.drop_first();
        let p0 = page_file(e0.path);
        lemma_entry_paths(e0.children, p0);
        law_index_lists_every_element(rest);
        law_index_entry_mirrors_element(e0, p0);
        assert(ts[0] == template_of(e0, p0));
        assert(ts[0].children =~= e0.children.map_values(|e: ElementView| template_of(e, p0)));
        assert(ts.drop_first() =~= rest.map_values(|e: ElementView| template_of(e, page_file(e.path))));
        let pre = model::preorder(es);
        assert(pre == seq![e0] + model::preorder(e0.children) + model::preorder(rest));
        assert(pre.map_values(|e: ElementView| dotted(e)) =~= seq![dotted(e0)]
            + model::preorder(e0.children).map_values(|e: ElementView| dotted(e))
            + model::preorder(rest).map_values(|e: ElementView| dotted(e)));
    }
}

impl TemplateElement {
    /// The index entry of `element` and its descendants, on the module
    /// page `page`.
    pub fn from_element(element: &DocumentedElement, page: &str) -> (r: Self)
        ensures
            r@ == template_of(element@, page@),
        decreases element,
    {
        proof {
            model::lemma_children_view(*element);
        }
        let mut children: Vec<TemplateElement> = Vec::new();
        let mut i: usize = 0;
        while i < element.children.len()
            invariant
                i <= element.children.len(),
                element@.children == model::element_views(element.children@),
                children@.len() == i,
                forall|k: int|
                    0 <= k < i ==> #[trigger] children@[k]@ == template_of(element@.children[k], page@),
            decreases element.children.len() - i,
        {
            assert(decreases_to!(element => element.children@[i as int]));
            let c = TemplateElement::from_element(&element.children[i], page);
            children.push(c);
            i += 1;
        }
        let path = element.path.text();
        let mut href = chars_of(page);
        href.push('#');
        html::push_str(&mut href, path.as_str());
        let r = TemplateElement {
            path,
            kind: element.kind.label().to_string(),
            href: string_from_chars(&href),
            children,
        };
        let ghost rv = template_view(r);
        assert forall|k: int| 0 <= k < r.children.len() implies rv.children[k] == template_of(
            element@,
            page@,
        ).children[k] by {
            assert(rv.children[k] == template_view(r.children@[k]));
            assert(r.children@[k]@ == template_view(r.children@[k]));
        }
        assert(rv.children =~= template_of(element@, page@).children);
        assert(rv.href =~= template_of(element@, page@).href);
        r
    }
}

/// The file of the page of a module with path `path`.
pub fn page_file_of(path: &ImportPath) -> (r: String)
    ensures
        r@ == page_file(path@),
{
    let mut pieces: Vec<Vec<char>> = Vec::new();
    let mut i: usize = 0;
    while i < path.segments.len()
        invariant
            i <= path.segments.len(),
            text::char_views(pieces@) == path@.take(i as int),
        decreases path.segments.len() - i,
    {
        let piece = chars_of(path.segments[i].as_str());
        let ghost prev = pieces@;
        pieces.push(piece);
        assert(text::char_views(pieces@) =~= text::char_views(prev).push(piece@));
        assert(path@.take(i + 1) =~= path@.take(i as int).push(path@[i as int]));
        i += 1;
    }
    assert(path@.take(path.segments.len() as int) =~= path@);
    let slash = vec!['/'];
    assert(slash@ =~= seq!['/']);
    let mut name = join_chars(&pieces, &slash);
    html::push_str(&mut name, ".html");
    string_from_chars(&name)
}

/// The index entries of the project's top-level modules, in order, each
/// linking into the module's own page.
pub fn index_entries(project: &DocumentedProject) -> (r: Vec<TemplateElement>)
    ensures
        r@.map_values(|t: TemplateElement| t@) == model::element_views(project.elements@).map_values(
            |e: ElementView| template_of(e, page_file(e.path)),
        ),
{
    let ghost es = model::element_views(project.elements@);
    let mut r: Vec<TemplateElement> = Vec::new();
    let mut i: usize = 0;
    while i < project.elements.len()
        invariant
            i <= project.elements.len(),
            es == model::element_views(project.elements@),
            r@.len() == i,
            forall|k: int| 0 <= k < i ==> #[trigger] r@[k]@ == template_of(es[k], page_file(es[k].path)),
        decreases project.elements.len() - i,
    {
        let e = &project.elements[i];
        proof {
            model::lemma_children_view(*e);
        }
        let page = page_file_of(&e.path);
        let t = TemplateElement::from_element(e, page.as_str());
        r.push(t);
        i += 1;
    }
    assert(r@.map_values(|t: TemplateElement| t@) =~= es.map_values(
        |e: ElementView| template_of(e, page_file(e.path)),
    ));
    r
}


/// The navigation index page (a tera template): every module, class and
/// function by full path, each linking to its section, under `title`, with
/// `styles` embedded.
pub const INDEX_TEMPLATE: &'static str = "{% macro tree(items) %}<ul>\n{% for item in items %}<li><span class=\"kind\">{{ item.kind }}</span> <a href=\"{{ item.href }}\"><code>{{ item.path }}</code></a>{% if item.children %}\n{{ self::tree(items=item.children) }}{% endif %}</li>\n{% endfor %}</ul>{% endmacro tree %}<!DOCTYPE html>\n<html lang=\"en\">\n<head>\n<meta charset=\"utf-8\">\n<meta name=\"color-scheme\" content=\"light dark\">\n<title>{{ title }}</title>\n<style>\n{{ styles | safe }}\n</style>\n</head>\n<body>\n<h1>{{ title }}</h1>\n<nav class=\"index\">\n{{ self::tree(items=modules) }}\n</nav>\n</body>\n</html>\n";

/// `serde_json::Value` (re-exported by tera as `tera::Value`), the data of a
/// template context.
#[verifier::external_type_specification]
#[verifier::external_body]
pub struct ExTeraValue(tera::Value);

/// The page that tera renders from `template` with `title`, `styles` and the
/// index entries `modules` in its context, or `None` where tera fails.
pub uninterp spec fn tera_index(
    template: Seq<char>,
    title: Seq<char>,
    styles: Seq<char>,
    modules: Seq<TemplateView>,
) -> Option<Seq<char>>;

/// Converts an index entry to a tera value: an object with the fields
/// `path`, `kind`, `href` and `children`, the children converted in order.
#[verifier::external_body]
fn template_value(t: &TemplateElement) -> tera::Value {
    let mut m = tera::Map::new();
    m.insert("path".to_string(), tera::Value::String(t.path.clone()));
    m.insert("kind".to_string(), tera::Value::String(t.kind.clone()));
    m.insert("href".to_string(), tera::Value::String(t.href.clone()));
    m.insert("children".to_string(), tera::Value::Array(t.children.iter().map(template_value).collect()));
    tera::Value::Object(m)
}

/// Renders `template` with tera (`Tera::add_raw_template`, then
/// `Tera::render`), with `title`, `styles` and `modules` (converted by
/// `template_value`) in the context.
///
/// Trusted: rendering is a function of the template and the context, and its
/// result (or `None` where tera reports an error) is what `tera_index` names.
#[verifier::external_body]
fn render_index_template(template: &str, title: &str, styles: &str, modules: &Vec<TemplateElement>) -> (r: Option<String>)
    ensures
        opt_view(r) == tera_index(template@, title@, styles@, modules@.map_values(|t: TemplateElement| t@)),
{
    let mut tera = tera::Tera::default();
    tera.add_raw_template("index.html", template).ok()?;
    let mut context = tera::Context::new();
    context.insert("title", title);
    context.insert("styles", styles);
    context.insert("modules", &modules.iter().map(template_value).collect::<Vec<tera::Value>>());
    tera.render("index.html", &context).ok()
}

/// Render the navigation index page of `project`, embedding `styles` (`None`
/// where tera fails to render the template).
pub fn render_index(project: &DocumentedProject, styles: &str) -> (r: Option<String>)
    ensures
        opt_view(r) == tera_index(
            INDEX_TEMPLATE@,
            "Python Docs"@,
            styles@,
            model::element_views(project.elements@).map_values(
                |e: ElementView| template_of(e, page_file(e.path)),
            ),
        ),
{
    let modules = index_entries(project);
    render_index_template(INDEX_TEMPLATE, "Python Docs", styles, &modules)
}

} // verus!
