//! The decisions of the end-to-end pipeline.
//!
//! Scanning the source directory, reading files, and writing the site are
//! done by the caller; this module decides which directories are skipped,
//! builds the project from the parsed modules (in the order the files are
//! visited), plans the page of each module, and determines which
//! previously generated pages are stale.
use vstd::prelude::*;
use crate::extract::{self, module_element, YamlDoc};
use crate::model::{
    self, DocumentedElement, DocumentedProject, ElementIndex, ElementView, ImportPath,
};
use crate::html;
use crate::index;
use crate::parser::{self, ParsedModule, RawElement};
use crate::text::{self, string_from_chars};

verus! {

/// Version-control and build directories that the scan skips.
pub open spec fn skipped_dir(name: Seq<char>) -> bool {
    ||| name == ".git"@
    ||| name == ".hg"@
    ||| name == ".svn"@
    ||| name == "target"@
    ||| name == "node_modules"@
}

/// Whether the directory `name` is skipped when scanning for sources.
pub fn is_skipped_dir(name: &str) -> (b: bool)
    ensures
        b == skipped_dir(name@),
{
    let n = name.to_string();
    n == ".git".to_string() || n == ".hg".to_string() || n == ".svn".to_string() || n
        == "target".to_string() || n == "node_modules".to_string()
}

/// The files of `files` that are not in `written`, in order.
pub open spec fn stale(files: Seq<Seq<char>>, written: Seq<Seq<char>>) -> Seq<Seq<char>>
    decreases files.len(),
{
    if files.len() == 0 {
        seq![]
    } else {
        let rest = stale(files.drop_last(), written);
        if written.contains(files.last()) {
            rest
        } else {
            rest.push(files.last())
        }
    }
}

/// A file is stale exactly when it was found in the output directory and
/// was not written by this run: every page of this run is kept, and every
/// other generated page is deleted.
pub proof fn law_stale_files(files: Seq<Seq<char>>, written: Seq<Seq<char>>, f: Seq<char>)
    ensures
        stale(files, written).contains(f) <==> (files.contains(f) && !written.contains(f)),
    decreases files.len(),
{
    if files.len() > 0 {
        let init = files.drop_last();
        law_stale_files(init, written, f);
        let rest = stale(init, written);
        assert(files =~= init.push(files.last()));
        if files.contains(f) && !written.contains(f) {
            let i = choose|i: int| 0 <= i < files.len() && files[i] == f;
            if i < init.len() {
                assert(init[i] == f);
            }
        }
        if init.contains(f) {
            let i = choose|i: int| 0 <= i < init.len() && init[i] == f;
            assert(files[i] == f);
        }
        if !written.contains(files.last()) {
            if rest.push(files.last()).contains(f) {
                let i = choose|i: int| 0 <= i < rest.push(files.last()).len() && rest.push(files.last())[i] == f;
                if i < rest.len() {
                    assert(rest[i] == f);
                }
            }
            if rest.contains(f) {
                let i = choose|i: int| 0 <= i < rest.len() && rest[i] == f;
                assert(rest.push(files.last())[i] == f);
            }
            assert(rest.push(files.last())[rest.len() as int] == files.last());
        }
    }
}

/// The generated files found in the output directory that this run did not
/// write (pages of modules removed from the source), to be deleted.
pub fn stale_files(files: &Vec<String>, written: &Vec<String>) -> (r: Vec<String>)
    ensures
        text::string_views(r@) == stale(text::string_views(files@), text::string_views(written@)),
{
    let ghost fs = text::string_views(files@);
    let ghost ws = text::string_views(written@);
    let mut r: Vec<String> = Vec::new();
    let mut i: usize = 0;
    assert(fs.take(0) =~= Seq::<Seq<char>>::empty());
    assert(text::string_views(r@) =~= Seq::<Seq<char>>::empty());
    while i < files.len()
        invariant
            i <= files.len(),
            fs == text::string_views(files@),
            ws == text::string_views(written@),
            text::string_views(r@) == stale(fs.take(i as int), ws),
        decreases files.len() - i,
    {
        assert(fs.take(i + 1).drop_last() =~= fs.take(i as int));
        assert(fs.take(i + 1).last() == files@[i as int]@);
        let mut found = false;
        let mut j: usize = 0;
        while j < written.len()
            invariant
                j <= written.len(),
                i < files.len(),
                ws == text::string_views(written@),
                found == (exists|k: int| 0 <= k < j && ws[k] == files@[i as int]@),
            decreases written.len() - j,
        {
            if written[j] == files[i] {
                found = true;
            }
            assert(ws[j as int] == written@[j as int]@);
            j += 1;
        }
        proof {
            if found {
                let k = choose|k: int| 0 <= k < written.len() && ws[k] == files@[i as int]@;
                assert(ws.contains(files@[i as int]@));
            } else {
                assert(!ws.contains(files@[i as int]@));
            }
        }
        if !found {
            let f = files[i].clone();
            let ghost prev = r@;
            r.push(f);
            assert(text::string_views(r@) =~= text::string_views(prev).push(f@));
        }
        i += 1;
    }
    assert(fs.take(files.len() as int) =~= fs);
    r
}

/// The project's elements once each is sorted at every level and the list
/// itself is stably sorted by path.
pub open spec fn sorted_elements(es: Seq<ElementView>) -> Seq<ElementView> {
    model::sort_by_path_seq(es.map_values(|e: ElementView| model::sorted_tree(e)))
}

/// Mapping a function over two arrangements of the same values gives two
/// arrangements of the same values.
proof fn lemma_map_multiset<A, B>(a: Seq<A>, b: Seq<A>, f: spec_fn(A) -> B)
    requires
        a.to_multiset() == b.to_multiset(),
    ensures
        a.map_values(f).to_multiset() == b.map_values(f).to_multiset(),
    decreases a.len(),
{
    broadcast use vstd::seq_lib::group_to_multiset_ensures;
    broadcast use vstd::multiset::group_multiset_axioms;

    let fa = a.map_values(f);
    let fb = b.map_values(f);
    vstd::seq_lib::to_multiset_len(a);
    vstd::seq_lib::to_multiset_len(b);
    if a.len() == 0 {
        assert(b.len() == 0);
        assert(fa.len() == 0 && fb.len() == 0);
        assert(fa =~= fb);
    } else {
        assert(a.contains(a[0]));
        assert(a.to_multiset().count(a[0]) > 0);
        assert(b.to_multiset().count(a[0]) > 0);
        assert(b.contains(a[0]));
        let j = choose|j: int| 0 <= j < b.len() && b[j] == a[0];
        assert(a.remove(0).to_multiset() == a.to_multiset().remove(a[0]));
        assert(b.remove(j).to_multiset() == b.to_multiset().remove(b[j]));
        lemma_map_multiset(a.remove(0), b.remove(j), f);
        let x = f(a[0]);
        assert(fa.remove(0) =~= a.remove(0).map_values(f));
        assert(fb.remove(j) =~= b.remove(j).map_values(f));
        assert(fa[0] == x);
        assert(fb[j] == x);
        assert(fa.remove(0).to_multiset() == fa.to_multiset().remove(x));
        assert(fb.remove(j).to_multiset() == fb.to_multiset().remove(x));
        assert(fa.contains(x));
        assert(fb.contains(x));
        assert(fa.to_multiset().count(x) > 0);
        assert(fb.to_multiset().count(x) > 0);
        assert(fa.to_multiset() =~= fa.to_multiset().remove(x).insert(x));
        assert(fb.to_multiset() =~= fb.to_multiset().remove(x).insert(x));
    }
}

/// The paths of a list of elements, in order.
pub open spec fn paths_of(s: Seq<ElementView>) -> Seq<Seq<Seq<char>>> {
    s.map_values(|e: ElementView| e.path)
}

/// Rearranging a list of elements rearranges the elements of its depth-first
/// listing.
proof fn lemma_preorder_multiset(a: Seq<ElementView>, b: Seq<ElementView>)
    requires
        a.to_multiset() == b.to_multiset(),
    ensures
        model::preorder(a).to_multiset() == model::preorder(b).to_multiset(),
    decreases a.len(),
{
    broadcast use vstd::seq_lib::group_to_multiset_ensures;
    broadcast use vstd::multiset::group_multiset_axioms;
    broadcast use vstd::seq_lib::lemma_multiset_commutative;

    vstd::seq_lib::to_multiset_len(a);
    vstd::seq_lib::to_multiset_len(b);
    if a.len() == 0 {
        assert(b.len() == 0);
        assert(a =~= b);
    } else {
        assert(a.contains(a[0]));
        assert(a.to_multiset().count(a[0]) > 0);
        assert(b.to_multiset().count(a[0]) > 0);
        assert(b.contains(a[0]));
        let j = choose|j: int| 0 <= j < b.len() && b[j] == a[0];
        let a1 = a.drop_first();
        let b1 = b.remove(j);
        assert(a1 =~= a.remove(0));
        assert(a1.to_multiset() == a.to_multiset().remove(a[0]));
        assert(b1.to_multiset() == b.to_multiset().remove(b[j]));
        lemma_preorder_multiset(a1, b1);
        let x = a[0];
        let head = seq![x] + model::preorder(x.children);
        // The listing of `b` around position `j`.
        let before = b.take(j);
        let after = b.skip(j + 1);
        assert(b =~= before + (seq![x] + after));
        assert(b1 =~= before + after);
        model::lemma_preorder_concat(before, seq![x] + after);
        model::lemma_preorder_concat(seq![x], after);
        model::lemma_preorder_concat(before, after);
        let one = seq![x];
        let none = Seq::<ElementView>::empty();
        assert(one.drop_first() =~= none);
        assert(model::preorder(none) == none);
        assert(one[0] == x);
        assert(model::preorder(one) =~= head);
        assert(model::preorder(a) =~= head + model::preorder(a1));
        let pb = model::preorder(before);
        let pa = model::preorder(after);
        assert(model::preorder(b) == pb + (head + pa));
        assert(model::preorder(b1) == pb + pa);
        assert(model::preorder(a).to_multiset() =~= head.to_multiset().add(
            model::preorder(a1).to_multiset(),
        ));
        assert(model::preorder(b).to_multiset() =~= pb.to_multiset().add(
            head.to_multiset().add(pa.to_multiset()),
        ));
        assert(model::preorder(b1).to_multiset() =~= pb.to_multiset().add(pa.to_multiset()));
        assert(model::preorder(a).to_multiset() =~= model::preorder(b).to_multiset());
    }
}

/// Sorting every element at every level keeps the paths of the depth-first
/// listing, rearranged.
proof fn lemma_sorted_preorder_paths(es: Seq<ElementView>)
    ensures
        paths_of(model::preorder(es.map_values(|e: ElementView| model::sorted_tree(e)))).to_multiset()
            == paths_of(model::preorder(es)).to_multiset(),
    decreases es,
{
    broadcast use vstd::seq_lib::group_to_multiset_ensures;
    broadcast use vstd::multiset::group_multiset_axioms;
    broadcast use vstd::seq_lib::lemma_multiset_commutative;

    let st = |e: ElementView| model::sorted_tree(e);
    let ms = es.map_values(st);
    if es.len() == 0 {
        assert(ms.len() == 0);
        assert(model::preorder(ms) =~= model::preorder(es));
    } else {
        let e0 = es[0];
        let rest = es.drop_first();
        assert(decreases_to!(es => es[0]));
        assert(decreases_to!(e0 => e0.children));
        assert(decreases_to!(es => rest));
        lemma_sorted_preorder_paths(e0.children);
        lemma_sorted_preorder_paths(rest);
        let sc = model::sorted_children(e0);
        assert(sc =~= e0.children.map_values(st));
        let sorted = model::sort_by_path_seq(sc);
        model::lemma_sort_by_path(sc);
        lemma_preorder_multiset(sorted, sc);
        lemma_map_multiset(model::preorder(sorted), model::preorder(sc), |e: ElementView| e.path);
        assert(ms[0] == model::sorted_tree(e0));
        assert(ms.drop_first() =~= rest.map_values(st));
        assert(model::sorted_tree(e0).children == sorted);
        let x = model::preorder(ms);
        let y = model::preorder(es);
        assert(x == seq![ms[0]] + model::preorder(sorted) + model::preorder(rest.map_values(st)));
        assert(y == seq![e0] + model::preorder(e0.children) + model::preorder(rest));
        assert(paths_of(x) =~= seq![e0.path] + paths_of(model::preorder(sorted)) + paths_of(
            model::preorder(rest.map_values(st)),
        ));
        assert(paths_of(y) =~= seq![e0.path] + paths_of(model::preorder(e0.children)) + paths_of(
            model::preorder(rest),
        ));
        assert(paths_of(x).to_multiset() =~= paths_of(y).to_multiset());
    }
}

/// Every element of the modules added to a project, at any depth, is found
/// in the project's index under its full path, and the index holds no
/// other path: a lookup of a path succeeds exactly when some element of the
/// modules has that path.
pub proof fn law_index_covers_every_element(modules: Seq<ElementView>, key: Seq<Seq<char>>)
    ensures
        model::index_get(model::build_index(sorted_elements(modules)), key).is_some() <==> exists|
            i: int,
        |
            0 <= i < model::preorder(modules).len() && #[trigger] model::preorder(modules)[i].path
                == key,
{
    broadcast use vstd::seq_lib::group_to_multiset_ensures;

    let st = |e: ElementView| model::sorted_tree(e);
    let ms = modules.map_values(st);
    let sorted = sorted_elements(modules);
    model::law_index_finds_every_element(sorted, key);
    model::lemma_sort_by_path(ms);
    lemma_preorder_multiset(sorted, ms);
    lemma_map_multiset(model::preorder(sorted), model::preorder(ms), |e: ElementView| e.path);
    lemma_sorted_preorder_paths(modules);
    let p1 = paths_of(model::preorder(sorted));
    let p2 = paths_of(model::preorder(modules));
    assert(p1.to_multiset() == p2.to_multiset());
    assert((exists|i: int| 0 <= i < model::preorder(sorted).len() && #[trigger] model::preorder(
        sorted,
    )[i].path == key) <==> p1.contains(key)) by {
        if p1.contains(key) {
            let i = choose|i: int| 0 <= i < p1.len() && p1[i] == key;
            assert(model::preorder(sorted)[i].path == key);
        }
        if exists|i: int| 0 <= i < model::preorder(sorted).len() && #[trigger] model::preorder(
            sorted,
        )[i].path == key {
            let i = choose|i: int| 0 <= i < model::preorder(sorted).len() && #[trigger] model::preorder(
                sorted,
            )[i].path == key;
            assert(p1[i] == key);
        }
    }
    assert((exists|i: int| 0 <= i < model::preorder(modules).len() && #[trigger] model::preorder(
        modules,
    )[i].path == key) <==> p2.contains(key)) by {
        if p2.contains(key) {
            let i = choose|i: int| 0 <= i < p2.len() && p2[i] == key;
            assert(model::preorder(modules)[i].path == key);
        }
        if exists|i: int| 0 <= i < model::preorder(modules).len() && #[trigger] model::preorder(
            modules,
        )[i].path == key {
            let i = choose|i: int| 0 <= i < model::preorder(modules).len() && #[trigger] model::preorder(
                modules,
            )[i].path == key;
            assert(p2[i] == key);
        }
    }
    assert(p1.contains(key) <==> p1.to_multiset().count(key) > 0);
    assert(p2.contains(key) <==> p2.to_multiset().count(key) > 0);
}

/// The project does not depend on the order in which the source files are
/// visited: the same modules, with distinct paths, added in any order give
/// the same elements, in path order, and the same index.
pub proof fn law_project_ignores_visit_order(a: Seq<ElementView>, b: Seq<ElementView>)
    requires
        a.to_multiset() == b.to_multiset(),
        model::distinct_paths(a),
    ensures
        sorted_elements(a) == sorted_elements(b),
        model::sorted_by_path(sorted_elements(a)),
        model::build_index(sorted_elements(a)) == model::build_index(sorted_elements(b)),
{
    let fa = a.map_values(|e: ElementView| model::sorted_tree(e));
    let fb = b.map_values(|e: ElementView| model::sorted_tree(e));
    lemma_map_multiset(a, b, |e: ElementView| model::sorted_tree(e));
    assert forall|i: int, j: int|
        0 <= i < fa.len() && 0 <= j < fa.len() && i != j implies #[trigger] fa[i].path
        != #[trigger] fa[j].path by {
        assert(fa[i].path == a[i].path);
        assert(fa[j].path == a[j].path);
    }
    model::law_sort_ignores_input_order(fa, fb);
}

/// The root path after a module with path `segments` is added: the first
/// segment of the first module with a non-empty path.
pub open spec fn next_root(root: Seq<Seq<char>>, segments: Seq<Seq<char>>) -> Seq<Seq<char>> {
    if root.len() == 0 && segments.len() > 0 {
        seq![segments[0]]
    } else {
        root
    }
}

/// The project being built from the parsed modules of a source tree.
pub struct ProjectBuilder {
    root_path: ImportPath,
    elements: Vec<DocumentedElement>,
}

impl ProjectBuilder {
    /// The root path so far.
    pub closed spec fn root(&self) -> Seq<Seq<char>> {
        self.root_path@
    }

    /// The module elements so far, in the order they were added.
    pub closed spec fn modules(&self) -> Seq<ElementView> {
        model::element_views(self.elements@)
    }

    /// A builder with no module.
    pub fn new() -> (r: Self)
        ensures
            r.root().len() == 0,
            r.modules().len() == 0,
    {
        let r = ProjectBuilder { root_path: ImportPath::new(Vec::new()), elements: Vec::new() };
        assert(r.root() =~= Seq::<Seq<char>>::empty());
        r
    }

    /// Adds the module at path `segments` built from its parsed file
    /// (`parse` deserializes docstrings into the YAML mapping schema).
    pub fn add_module<F: Fn(&str) -> Result<YamlDoc, String>>(
        &mut self,
        segments: Vec<String>,
        parsed: ParsedModule,
        parse: &F,
    )
        requires
            extract::mapping_parser(*parse),
        ensures
            final(self).root() == next_root(old(self).root(), text::string_views(segments@)),
            final(self).modules().len() == old(self).modules().len() + 1,
            final(self).modules().drop_last() == old(self).modules(),
            extract::module_built(
                text::string_views(segments@),
                parsed.elements@.map_values(|x: RawElement| x@),
                parser::opt_view(parsed.module_doc),
                final(self).modules().last(),
                *parse,
            ),
    {
        let mod_path = ImportPath::new(segments);
        if self.root_path.segments.len() == 0 && mod_path.segments.len() > 0 {
            let first = mod_path.segments[0].clone();
            let ghost fv = first@;
            self.root_path = ImportPath::new(vec![first]);
            assert(self.root() =~= seq![fv]);
        }
        let module = module_element(
            &mod_path,
            parsed.elements.as_slice(),
            parsed.module_doc,
            parse,
        );
        let ghost prev = self.elements@;
        self.elements.push(module);
        assert(model::element_views(self.elements@) =~= model::element_views(prev).push(module@));
    }

    /// The project: the modules, each sorted at every level and stably
    /// sorted by path, with the flat index of every element.
    pub fn finish(self) -> (r: DocumentedProject)
        ensures
            r.root_path@ == self.root(),
            model::element_views(r.elements@) == sorted_elements(self.modules()),
            r.index@ == model::build_index(sorted_elements(self.modules())),
    {
        let ghost orig = self.modules();
        let ghost target = orig.map_values(|e: ElementView| model::sorted_tree(e));
        let mut kids = self.elements;
        let ghost all = kids@;
        let mut sorted: Vec<DocumentedElement> = Vec::new();
        let mut i: usize = 0;
        let n = kids.len();
        assert(kids@ =~= all.skip(0));
        while i < n
            invariant
                i <= n,
                n == all.len(),
                kids@ == all.skip(i as int),
                model::element_views(all) == orig,
                target == orig.map_values(|e: ElementView| model::sorted_tree(e)),
                model::element_views(sorted@) == model::sort_by_path_seq(target.take(i as int)),
            decreases n - i,
        {
            let mut child = kids.remove(0);
            assert(child == all[i as int]);
            assert(kids@ =~= all.skip(i + 1));
            child.sort_by_path();
            assert(child@ == target[i as int]);
            let mut j: usize = 0;
            while j < sorted.len() && !child.path.precedes(&sorted[j].path)
                invariant
                    j <= sorted.len(),
                    forall|k: int|
                        0 <= k < j ==> !model::path_lt(
                            child@.path,
                            #[trigger] model::element_views(sorted@)[k].path,
                        ),
                decreases sorted.len() - j,
            {
                proof {
                    model::lemma_children_view(child);
                    model::lemma_children_view(sorted@[j as int]);
                }
                j += 1;
            }
            proof {
                model::lemma_children_view(child);
                if j < sorted.len() {
                    model::lemma_children_view(sorted@[j as int]);
                }
                model::lemma_insert_at(child@, model::element_views(sorted@), j as int);
                assert(target.take(i + 1).drop_last() =~= target.take(i as int));
            }
            let ghost prev = sorted@;
            sorted.insert(j, child);
            assert(model::element_views(sorted@) =~= model::element_views(prev).take(j as int)
                + seq![child@] + model::element_views(prev).skip(j as int));
            i += 1;
        }
        assert(target.take(n as int) =~= target);
        let mut project = DocumentedProject {
            root_path: self.root_path,
            elements: sorted,
            index: ElementIndex::new(),
        };
        project.rebuild_index();
        project
    }
}


/// The link from a page `depth` directories deep back to the index.
pub open spec fn index_link(depth: nat) -> Seq<char>
    decreases depth,
{
    if depth == 0 {
        "index.html"@
    } else {
        "../"@ + index_link((depth - 1) as nat)
    }
}

/// How deep the page of a module with `path` lies below the output
/// directory.
pub open spec fn page_depth(path: Seq<Seq<char>>) -> nat {
    if path.len() == 0 {
        0
    } else {
        (path.len() - 1) as nat
    }
}

/// The page of each top-level module, in order: its file and its HTML,
/// linking back to the index and embedding `styles`.
pub open spec fn module_pages_spec(es: Seq<ElementView>, styles: Seq<char>) -> Seq<
    (Seq<char>, Seq<char>),
> {
    es.map_values(
        |e: ElementView|
            (index::page_file(e.path), html::module_page(e, index_link(page_depth(e.path)), styles)),
    )
}

/// The link back to the index from the page of a module with `path`.
fn index_link_of(path: &ImportPath) -> (r: String)
    ensures
        r@ == index_link(page_depth(path@)),
{
    let depth = if path.segments.len() == 0 {
        0
    } else {
        path.segments.len() - 1
    };
    let mut link: Vec<char> = Vec::new();
    let mut k: usize = 0;
    while k < depth
        invariant
            k <= depth,
            depth == page_depth(path@),
            link@ + index_link((depth - k) as nat) == index_link(depth as nat),
        decreases depth - k,
    {
        html::push_str(&mut link, "../");
        assert(index_link((depth - k) as nat) == "../"@ + index_link((depth - k - 1) as nat));
        k += 1;
    }
    html::push_str(&mut link, "index.html");
    string_from_chars(&link)
}

/// The pages of the project's top-level modules, one per module: where to
/// write each, and its HTML.
pub fn module_pages(project: &DocumentedProject, styles: &str) -> (r: Vec<(String, String)>)
    ensures
        r@.map_values(|p: (String, String)| (p.0@, p.1@)) == module_pages_spec(
            model::element_views(project.elements@),
            styles@,
        ),
{
    let ghost es = model::element_views(project.elements@);
    let mut r: Vec<(String, String)> = Vec::new();
    let mut i: usize = 0;
    while i < project.elements.len()
        invariant
            i <= project.elements.len(),
            es == model::element_views(project.elements@),
            r@.map_values(|p: (String, String)| (p.0@, p.1@)) == module_pages_spec(es, styles@).take(
                i as int,
            ),
        decreases project.elements.len() - i,
    {
        let e = &project.elements[i];
        proof {
            model::lemma_children_view(*e);
        }
        let file = index::page_file_of(&e.path);
        let back = index_link_of(&e.path);
        let page = html::render_module_page(e, back.as_str(), styles);
        let ghost prev = r@;
        r.push((file, page));
        assert(r@.map_values(|p: (String, String)| (p.0@, p.1@)) =~= prev.map_values(
            |p: (String, String)| (p.0@, p.1@),
        ).push((file@, page@)));
        assert(module_pages_spec(es, styles@).take(i + 1) =~= module_pages_spec(es, styles@).take(
            i as int,
        ).push(module_pages_spec(es, styles@)[i as int]));
        i += 1;
    }
    assert(module_pages_spec(es, styles@).take(project.elements.len() as int) =~= module_pages_spec(
        es,
        styles@,
    ));
    r
}

} // verus!
