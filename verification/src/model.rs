//! Intermediary object representation of documented elements.
//!
//! This is the contract between the docstring-extraction stage and the
//! HTML-generation stage. Every type has a view in plain values
//! (`Seq<char>` for strings) over which the contracts of the library speak.
use vstd::prelude::*;
use crate::order::{
    lemma_path_lt_asymmetric, lemma_path_lt_irreflexive, lemma_path_lt_total,
    lemma_path_lt_transitive,
};
use crate::text::{self, chars_of, join_chars, string_from_chars};

verus! {

/// The full dotted Python import path of an element, e.g. `pkg.mod.Class`.
#[derive(Debug, Clone, PartialEq, Eq, Hash, PartialOrd, Ord, Default)]
pub struct ImportPath {
    /// Ordered segments from the package root to the element.
    pub segments: Vec<String>,
}

impl View for ImportPath {
    type V = Seq<Seq<char>>;

    open spec fn view(&self) -> Seq<Seq<char>> {
        text::string_views(self.segments@)
    }
}

/// `a < b` for strings, ordered by code point as `String`'s `Ord` orders
/// them (UTF-8 byte order and code point order agree).
pub open spec fn chars_lt(a: Seq<char>, b: Seq<char>) -> bool
    decreases a.len(),
{
    if a.len() == 0 {
        b.len() > 0
    } else if b.len() == 0 {
        false
    } else if a[0] != b[0] {
        (a[0] as u32) < (b[0] as u32)
    } else {
        chars_lt(a.drop_first(), b.drop_first())
    }
}

/// `a < b` for import paths: the lexicographic order of `Vec<String>`.
pub open spec fn path_lt(a: Seq<Seq<char>>, b: Seq<Seq<char>>) -> bool
    decreases a.len(),
{
    if a.len() == 0 {
        b.len() > 0
    } else if b.len() == 0 {
        false
    } else if a[0] != b[0] {
        chars_lt(a[0], b[0])
    } else {
        path_lt(a.drop_first(), b.drop_first())
    }
}

/// Whether the string `a` orders before the string `b`.
pub fn string_lt(a: &String, b: &String) -> (r: bool)
    ensures
        r == chars_lt(a@, b@),
{
    let x = chars_of(a.as_str());
    let y = chars_of(b.as_str());
    let mut i: usize = 0;
    assert(x@.skip(0) =~= x@);
    assert(y@.skip(0) =~= y@);
    while i < x.len() && i < y.len() && x[i] == y[i]
        invariant
            i <= x.len(),
            i <= y.len(),
            chars_lt(x@.skip(i as int), y@.skip(i as int)) == chars_lt(a@, b@),
        decreases x.len() - i,
    {
        assert(x@.skip(i as int).drop_first() =~= x@.skip(i + 1));
        assert(y@.skip(i as int).drop_first() =~= y@.skip(i + 1));
        i += 1;
    }
    if i == x.len() {
        i < y.len()
    } else if i == y.len() {
        false
    } else {
        (x[i] as u32) < (y[i] as u32)
    }
}

impl ImportPath {
    /// Build a path from an ordered list of segments.
    pub fn new(segments: Vec<String>) -> (r: Self)
        ensures
            r.segments == segments,
    {
        Self { segments }
    }

    /// Dot-joined rendering, used for display and index keys.
    pub fn text(&self) -> (r: String)
        ensures
            r@ == text::join(self@, seq!['.']),
    {
        let mut pieces: Vec<Vec<char>> = Vec::new();
        let mut i: usize = 0;
        while i < self.segments.len()
            invariant
                i <= self.segments.len(),
                text::char_views(pieces@) == self@.take(i as int),
            decreases self.segments.len() - i,
        {
            let piece = chars_of(self.segments[i].as_str());
            let ghost prev = pieces@;
            pieces.push(piece);
            assert(text::char_views(pieces@) =~= text::char_views(prev).push(piece@));
            assert(self@.take(i + 1) =~= self@.take(i as int).push(self@[i as int]));
            i += 1;
        }
        assert(self@.take(self.segments.len() as int) =~= self@);
        let dot = vec!['.'];
        assert(dot@ =~= seq!['.']);
        let joined = join_chars(&pieces, &dot);
        string_from_chars(&joined)
    }

    /// The final segment (simple name) of the path.
    pub fn name(&self) -> (r: &str)
        ensures
            r@ == (if self@.len() == 0 {
                Seq::<char>::empty()
            } else {
                self@.last()
            }),
    {
        if self.segments.len() == 0 {
            proof {
                reveal_strlit("");
            }
            ""
        } else {
            self.segments[self.segments.len() - 1].as_str()
        }
    }

    /// Append a child segment, producing a nested path.
    pub fn child(&self, segment: &str) -> (r: Self)
        ensures
            r@ == self@.push(segment@),
    {
        let mut segments: Vec<String> = Vec::new();
        let mut i: usize = 0;
        while i < self.segments.len()
            invariant
                i <= self.segments.len(),
                text::string_views(segments@) == self@.take(i as int),
            decreases self.segments.len() - i,
        {
            let s = self.segments[i].clone();
            let ghost prev = segments@;
            segments.push(s);
            assert(text::string_views(segments@) =~= text::string_views(prev).push(s@));
            assert(self@.take(i + 1) =~= self@.take(i as int).push(self@[i as int]));
            i += 1;
        }
        let last = segment.to_string();
        let ghost prev = segments@;
        segments.push(last);
        assert(text::string_views(segments@) =~= text::string_views(prev).push(last@));
        assert(self@.take(self.segments.len() as int) =~= self@);
        Self { segments }
    }

    /// An independent copy of this path.
    pub fn duplicate(&self) -> (r: Self)
        ensures
            r@ == self@,
    {
        let mut segments: Vec<String> = Vec::new();
        let mut i: usize = 0;
        while i < self.segments.len()
            invariant
                i <= self.segments.len(),
                text::string_views(segments@) == self@.take(i as int),
            decreases self.segments.len() - i,
        {
            let s = self.segments[i].clone();
            let ghost prev = segments@;
            segments.push(s);
            assert(text::string_views(segments@) =~= text::string_views(prev).push(s@));
            assert(self@.take(i + 1) =~= self@.take(i as int).push(self@[i as int]));
            i += 1;
        }
        assert(self@.take(self.segments.len() as int) =~= self@);
        Self { segments }
    }

    /// Whether the two paths hold the same segments.
    pub fn same_as(&self, other: &ImportPath) -> (r: bool)
        ensures
            r == (self@ == other@),
    {
        if self.segments.len() != other.segments.len() {
            assert(self@.len() != other@.len());
            return false;
        }
        let mut i: usize = 0;
        while i < self.segments.len()
            invariant
                i <= self.segments.len(),
                self.segments.len() == other.segments.len(),
                forall|k: int| 0 <= k < i ==> self@[k] == other@[k],
            decreases self.segments.len() - i,
        {
            if self.segments[i] != other.segments[i] {
                assert(self@[i as int] != other@[i as int]);
                return false;
            }
            i += 1;
        }
        assert(self@ =~= other@);
        true
    }

    /// Whether this path orders strictly before `other`.
    pub fn precedes(&self, other: &ImportPath) -> (r: bool)
        ensures
            r == path_lt(self@, other@),
    {
        let mut i: usize = 0;
        let ghost a = self@;
        let ghost b = other@;
        assert(a.skip(0) =~= a);
        assert(b.skip(0) =~= b);
        while i < self.segments.len() && i < other.segments.len() && self.segments[i]
            == other.segments[i]
            invariant
                i <= self.segments.len(),
                i <= other.segments.len(),
                a == self@,
                b == other@,
                path_lt(a.skip(i as int), b.skip(i as int)) == path_lt(a, b),
            decreases self.segments.len() - i,
        {
            assert(a.skip(i as int).drop_first() =~= a.skip(i + 1));
            assert(b.skip(i as int).drop_first() =~= b.skip(i + 1));
            i += 1;
        }
        if i == self.segments.len() {
            i < other.segments.len()
        } else if i == other.segments.len() {
            false
        } else {
            assert(a.skip(i as int)[0] == a[i as int]);
            assert(b.skip(i as int)[0] == b[i as int]);
            string_lt(&self.segments[i], &other.segments[i])
        }
    }
}

/// The kind of a documented element.
#[derive(Debug, Clone, Copy, PartialEq, Eq)]
pub enum ElementKind {
    Module,
    Class,
    Function,
}

/// The label of each kind.
pub open spec fn kind_label(kind: ElementKind) -> Seq<char> {
    match kind {
        ElementKind::Module => "Module"@,
        ElementKind::Class => "Class"@,
        ElementKind::Function => "Function"@,
    }
}

impl ElementKind {
    /// Human-readable label used in the generated HTML.
    pub fn label(&self) -> (r: &'static str)
        ensures
            r@ == kind_label(*self),
    {
        match self {
            ElementKind::Module => "Module",
            ElementKind::Class => "Class",
            ElementKind::Function => "Function",
        }
    }
}


/// A single documented argument (the `args` YAML key).
#[derive(Debug, Clone, PartialEq, Eq)]
pub struct ArgDoc {
    pub name: String,
    pub description: String,
}

impl View for ArgDoc {
    /// `(name, description)`.
    type V = (Seq<char>, Seq<char>);

    open spec fn view(&self) -> (Seq<char>, Seq<char>) {
        (self.name@, self.description@)
    }
}

/// A documented return value (the `returns` YAML key).
#[derive(Debug, Clone, PartialEq, Eq)]
pub struct ReturnDoc {
    pub description: String,
}

impl View for ReturnDoc {
    type V = Seq<char>;

    open spec fn view(&self) -> Seq<char> {
        self.description@
    }
}

/// A documented exception (the `raises` YAML key).
#[derive(Debug, Clone, PartialEq, Eq)]
pub struct RaisesDoc {
    pub exception: String,
    pub description: String,
}

impl View for RaisesDoc {
    /// `(exception, description)`.
    type V = (Seq<char>, Seq<char>);

    open spec fn view(&self) -> (Seq<char>, Seq<char>) {
        (self.exception@, self.description@)
    }
}

/// The outcome of parsing the docstring of an element.
#[derive(Debug, Clone, PartialEq, Eq, Default)]
pub enum DocComment {
    /// No docstring present; the element exists without detail.
    #[default]
    Absent,
    /// Docstring present but malformed; the entry shows an error.
    Error(String),
    /// Docstring parsed successfully.
    Parsed(DocContent),
}

/// Parsed content of a well-formed docstring.
#[derive(Debug, Clone, PartialEq, Eq, Default)]
pub struct DocContent {
    pub description: String,
    pub args: Vec<ArgDoc>,
    pub returns: Option<ReturnDoc>,
    pub raises: Vec<RaisesDoc>,
}

/// The view of a [`DocContent`].
#[verifier::ext_equal]
pub struct DocContentView {
    pub description: Seq<char>,
    pub args: Seq<(Seq<char>, Seq<char>)>,
    pub returns: Option<Seq<char>>,
    pub raises: Seq<(Seq<char>, Seq<char>)>,
}

/// The view of an optional return entry.
pub open spec fn returns_view(r: Option<ReturnDoc>) -> Option<Seq<char>> {
    match r {
        Option::Some(x) => Option::Some(x@),
        Option::None => Option::None,
    }
}

impl View for DocContent {
    type V = DocContentView;

    open spec fn view(&self) -> DocContentView {
        DocContentView {
            description: self.description@,
            args: self.args@.map_values(|a: ArgDoc| a@),
            returns: returns_view(self.returns),
            raises: self.raises@.map_values(|r: RaisesDoc| r@),
        }
    }
}

/// The view of a [`DocComment`].
#[verifier::ext_equal]
pub enum DocView {
    Absent,
    Error(Seq<char>),
    Parsed(DocContentView),
}

impl View for DocComment {
    type V = DocView;

    open spec fn view(&self) -> DocView {
        match self {
            DocComment::Absent => DocView::Absent,
            DocComment::Error(m) => DocView::Error(m@),
            DocComment::Parsed(c) => DocView::Parsed(c@),
        }
    }
}

/// A documented module, class, or function.
#[derive(Debug, PartialEq, Eq)]
pub struct DocumentedElement {
    /// Full Python package import path; the unique identifier.
    pub path: ImportPath,
    pub kind: ElementKind,
    pub doc: DocComment,
    /// Nested elements (classes/functions inside modules/classes).
    pub children: Vec<DocumentedElement>,
}

/// The view of a [`DocumentedElement`].
#[verifier::ext_equal]
pub struct ElementView {
    pub path: Seq<Seq<char>>,
    pub kind: ElementKind,
    pub doc: DocView,
    pub children: Seq<ElementView>,
}

/// The view of an element and, recursively, of its children.
pub open spec fn element_view(e: DocumentedElement) -> ElementView
    decreases e,
{
    ElementView {
        path: e.path@,
        kind: e.kind,
        doc: e.doc@,
        children: Seq::new(
            e.children.len() as nat,
            |i: int|
                if 0 <= i < e.children.len() {
                    element_view(e.children@[i])
                } else {
                    arbitrary()
                },
        ),
    }
}

impl View for DocumentedElement {
    type V = ElementView;

    open spec fn view(&self) -> ElementView {
        element_view(*self)
    }
}

/// The views of a list of elements.
pub open spec fn element_views(v: Seq<DocumentedElement>) -> Seq<ElementView> {
    v.map_values(|e: DocumentedElement| e@)
}

/// The children of an element's view are the views of its children.
pub proof fn lemma_children_view(e: DocumentedElement)
    ensures
        e@.children == element_views(e.children@),
        e@.path == e.path@,
        e@.kind == e.kind,
        e@.doc == e.doc@,
{
    assert(e@.children =~= element_views(e.children@));
}

impl ArgDoc {
    /// An independent copy.
    pub fn duplicate(&self) -> (r: Self)
        ensures
            r@ == self@,
    {
        ArgDoc { name: self.name.clone(), description: self.description.clone() }
    }
}

impl RaisesDoc {
    /// An independent copy.
    pub fn duplicate(&self) -> (r: Self)
        ensures
            r@ == self@,
    {
        RaisesDoc { exception: self.exception.clone(), description: self.description.clone() }
    }
}

impl DocContent {
    /// An independent copy.
    pub fn duplicate(&self) -> (r: Self)
        ensures
            r@ == self@,
    {
        let mut args: Vec<ArgDoc> = Vec::new();
        let mut i: usize = 0;
        while i < self.args.len()
            invariant
                i <= self.args.len(),
                args@.map_values(|a: ArgDoc| a@) == self.args@.map_values(|a: ArgDoc| a@).take(
                    i as int,
                ),
            decreases self.args.len() - i,
        {
            let a = self.args[i].duplicate();
            let ghost prev = args@;
            args.push(a);
            assert(args@.map_values(|a: ArgDoc| a@) =~= prev.map_values(|a: ArgDoc| a@).push(a@));
            assert(self.args@.map_values(|a: ArgDoc| a@).take(i + 1) =~= self.args@.map_values(
                |a: ArgDoc| a@,
            ).take(i as int).push(self.args@[i as int]@));
            i += 1;
        }
        assert(self.args@.map_values(|a: ArgDoc| a@).take(self.args.len() as int)
            =~= self.args@.map_values(|a: ArgDoc| a@));
        let mut raises: Vec<RaisesDoc> = Vec::new();
        let mut j: usize = 0;
        while j < self.raises.len()
            invariant
                j <= self.raises.len(),
                raises@.map_values(|r: RaisesDoc| r@) == self.raises@.map_values(
                    |r: RaisesDoc| r@,
                ).take(j as int),
            decreases self.raises.len() - j,
        {
            let r = self.raises[j].duplicate();
            let ghost prev = raises@;
            raises.push(r);
            assert(raises@.map_values(|r: RaisesDoc| r@) =~= prev.map_values(|r: RaisesDoc| r@).push(
                r@,
            ));
            assert(self.raises@.map_values(|r: RaisesDoc| r@).take(j + 1) =~= self.raises@.map_values(
                |r: RaisesDoc| r@,
            ).take(j as int).push(self.raises@[j as int]@));
            j += 1;
        }
        assert(self.raises@.map_values(|r: RaisesDoc| r@).take(self.raises.len() as int)
            =~= self.raises@.map_values(|r: RaisesDoc| r@));
        let ret = match &self.returns {
            Option::Some(r) => Option::Some(ReturnDoc { description: r.description.clone() }),
            Option::None => Option::None,
        };
        let r = DocContent { description: self.description.clone(), args, returns: ret, raises };
        assert(r@ =~= self@);
        r
    }
}

impl DocComment {
    /// An independent copy.
    pub fn duplicate(&self) -> (r: Self)
        ensures
            r@ == self@,
    {
        match self {
            DocComment::Absent => DocComment::Absent,
            DocComment::Error(m) => DocComment::Error(m.clone()),
            DocComment::Parsed(c) => DocComment::Parsed(c.duplicate()),
        }
    }
}

impl DocumentedElement {
    /// An independent deep copy of the element and its children.
    pub fn duplicate(&self) -> (r: Self)
        ensures
            r@ == self@,
        decreases self,
    {
        let mut children: Vec<DocumentedElement> = Vec::new();
        let mut i: usize = 0;
        while i < self.children.len()
            invariant
                i <= self.children.len(),
                element_views(children@) == element_views(self.children@).take(i as int),
            decreases self.children.len() - i,
        {
            assert(decreases_to!(self => self.children@[i as int]));
            let c = self.children[i].duplicate();
            let ghost prev = children@;
            children.push(c);
            assert(element_views(children@) =~= element_views(prev).push(c@));
            assert(element_views(self.children@).take(i + 1) =~= element_views(
                self.children@,
            ).take(i as int).push(self.children@[i as int]@));
            i += 1;
        }
        assert(element_views(self.children@).take(self.children.len() as int) =~= element_views(
            self.children@,
        ));
        let r = DocumentedElement {
            path: self.path.duplicate(),
            kind: self.kind,
            doc: self.doc.duplicate(),
            children,
        };
        proof {
            lemma_children_view(r);
            lemma_children_view(*self);
        }
        assert(r@ =~= self@);
        r
    }

    /// An element with no docstring and no children.
    pub fn new(path: ImportPath, kind: ElementKind) -> (r: Self)
        ensures
            r.path == path,
            r.kind == kind,
            r.doc == DocComment::Absent,
            r.children@.len() == 0,
    {
        Self { path, kind, doc: DocComment::Absent, children: Vec::new() }
    }
}


/// Inserts `x` into `s` after every element whose path does not order after
/// `x`'s (one step of a stable insertion sort).
pub open spec fn insert_by_path(x: ElementView, s: Seq<ElementView>) -> Seq<ElementView>
    decreases s.len(),
{
    if s.len() == 0 {
        seq![x]
    } else if path_lt(x.path, s[0].path) {
        seq![x] + s
    } else {
        seq![s[0]] + insert_by_path(x, s.drop_first())
    }
}

/// The stable sort of `s` by path (what `sort_by` with `path.cmp` gives).
pub open spec fn sort_by_path_seq(s: Seq<ElementView>) -> Seq<ElementView>
    decreases s.len(),
{
    if s.len() == 0 {
        s
    } else {
        insert_by_path(s.last(), sort_by_path_seq(s.drop_last()))
    }
}

/// `e` with the children at every level stably sorted by path.
pub open spec fn sorted_tree(e: ElementView) -> ElementView
    decreases e, 1int,
{
    ElementView { children: sort_by_path_seq(sorted_children(e)), ..e }
}

/// The children of `e`, each sorted at every level.
pub open spec fn sorted_children(e: ElementView) -> Seq<ElementView>
    decreases e, 0int,
{
    Seq::new(
        e.children.len(),
        |i: int|
            if 0 <= i < e.children.len() {
                sorted_tree(e.children[i])
            } else {
                arbitrary()
            },
    )
}

/// Inserting before the first element that orders after `x`.
pub proof fn lemma_insert_at(x: ElementView, s: Seq<ElementView>, j: int)
    requires
        0 <= j <= s.len(),
        j < s.len() ==> path_lt(x.path, s[j].path),
        forall|k: int| 0 <= k < j ==> !path_lt(x.path, #[trigger] s[k].path),
    ensures
        insert_by_path(x, s) == s.take(j) + seq![x] + s.skip(j),
    decreases s.len(),
{
    if s.len() == 0 {
        assert(s.take(j) + seq![x] + s.skip(j) =~= seq![x]);
    } else if j == 0 {
        assert(s.take(j) + seq![x] + s.skip(j) =~= seq![x] + s);
    } else {
        assert forall|k: int| 0 <= k < j - 1 implies !path_lt(x.path, #[trigger] s.drop_first()[k].path) by {
            assert(s.drop_first()[k] == s[k + 1]);
        }
        lemma_insert_at(x, s.drop_first(), j - 1);
        assert(s.take(j) + seq![x] + s.skip(j) =~= seq![s[0]] + (s.drop_first().take(j - 1)
            + seq![x] + s.drop_first().skip(j - 1)));
    }
}

impl DocumentedElement {
    /// Recursively order this element's children by full import path so
    /// output is stable regardless of declaration order.
    pub fn sort_by_path(&mut self)
        ensures
            final(self)@ == sorted_tree(old(self)@),
        decreases *old(self),
    {
        proof {
            lemma_children_view(*self);
        }
        let ghost orig = self@;
        let ghost orig_val = *self;
        let ghost target = sorted_children(orig);
        let mut kids: Vec<DocumentedElement> = Vec::new();
        std::mem::swap(&mut kids, &mut self.children);
        let ghost all = kids@;
        assert(element_views(all) == orig.children);
        let mut sorted: Vec<DocumentedElement> = Vec::new();
        let mut i: usize = 0;
        let n = kids.len();
        assert(kids@ =~= all.skip(0));
        assert forall|k: int| 0 <= k < n implies decreases_to!(orig_val => #[trigger] all[k]) by {
            assert(all[k] == orig_val.children@[k]);
            assert(decreases_to!(orig_val => orig_val.children@[k]));
        }
        while i < n
            invariant
                i <= n,
                n == all.len(),
                kids@ == all.skip(i as int),
                element_views(all) == orig.children,
                target == sorted_children(orig),
                element_views(sorted@) == sort_by_path_seq(target.take(i as int)),
                forall|k: int| 0 <= k < n ==> decreases_to!(orig_val => #[trigger] all[k]),
                orig_val == *old(self),
            decreases n - i,
        {
            let mut child = kids.remove(0);
            assert(child == all[i as int]);
            assert(kids@ =~= all.skip(i + 1));
            assert(decreases_to!(orig_val => child));
            child.sort_by_path();
            assert(child@ == target[i as int]);
            let mut j: usize = 0;
            while j < sorted.len() && !child.path.precedes(&sorted[j].path)
                invariant
                    j <= sorted.len(),
                    forall|k: int| 0 <= k < j ==> !path_lt(child@.path, #[trigger] element_views(sorted@)[k].path),
                decreases sorted.len() - j,
            {
                proof {
                    lemma_children_view(child);
                    lemma_children_view(sorted@[j as int]);
                }
                j += 1;
            }
            proof {
                lemma_children_view(child);
                if j < sorted.len() {
                    lemma_children_view(sorted@[j as int]);
                }
                lemma_insert_at(child@, element_views(sorted@), j as int);
                assert(target.take(i + 1).drop_last() =~= target.take(i as int));
            }
            let ghost prev = sorted@;
            sorted.insert(j, child);
            assert(element_views(sorted@) =~= element_views(prev).take(j as int) + seq![child@]
                + element_views(prev).skip(j as int));
            i += 1;
        }
        assert(target.take(n as int) =~= target);
        self.children = sorted;
        proof {
            lemma_children_view(*self);
        }
        assert(sorted_tree(orig).children == sort_by_path_seq(target));
        assert(self@ =~= sorted_tree(orig));
    }
}


/// The index after `e` is put in it, keyed by path: an entry with the same
/// path is replaced; otherwise `e` goes before the first entry whose path
/// orders after it (`BTreeMap::insert`).
pub open spec fn index_insert(s: Seq<ElementView>, e: ElementView) -> Seq<ElementView>
    decreases s.len(),
{
    if s.len() == 0 {
        seq![e]
    } else if s[0].path == e.path {
        seq![e] + s.drop_first()
    } else if path_lt(e.path, s[0].path) {
        seq![e] + s
    } else {
        seq![s[0]] + index_insert(s.drop_first(), e)
    }
}

/// The index after each element of `list` is put in it, in order.
pub open spec fn insert_all(s: Seq<ElementView>, list: Seq<ElementView>) -> Seq<ElementView>
    decreases list.len(),
{
    if list.len() == 0 {
        s
    } else {
        insert_all(index_insert(s, list[0]), list.drop_first())
    }
}

/// Every element of `es` followed by its descendants, depth first.
pub open spec fn preorder(es: Seq<ElementView>) -> Seq<ElementView>
    decreases es,
{
    if es.len() == 0 {
        seq![]
    } else {
        seq![es[0]] + preorder(es[0].children) + preorder(es.drop_first())
    }
}

/// The flat index of `es` and all their descendants.
pub open spec fn build_index(es: Seq<ElementView>) -> Seq<ElementView> {
    insert_all(seq![], preorder(es))
}

/// The first entry of `s` with path `key`.
pub open spec fn index_get(s: Seq<ElementView>, key: Seq<Seq<char>>) -> Option<ElementView>
    decreases s.len(),
{
    if s.len() == 0 {
        None
    } else if s[0].path == key {
        Some(s[0])
    } else {
        index_get(s.drop_first(), key)
    }
}

/// `preorder` distributes over concatenation.
pub proof fn lemma_preorder_concat(a: Seq<ElementView>, b: Seq<ElementView>)
    ensures
        preorder(a + b) == preorder(a) + preorder(b),
    decreases a.len(),
{
    if a.len() == 0 {
        assert(a + b =~= b);
        assert(preorder(a) + preorder(b) =~= preorder(b));
    } else {
        assert((a + b)[0] == a[0]);
        assert((a + b).drop_first() =~= a.drop_first() + b);
        lemma_preorder_concat(a.drop_first(), b);
        assert(preorder(a + b) =~= preorder(a) + preorder(b));
    }
}

/// Inserting a concatenation is inserting one part after the other.
pub proof fn lemma_insert_all_concat(s: Seq<ElementView>, a: Seq<ElementView>, b: Seq<ElementView>)
    ensures
        insert_all(s, a + b) == insert_all(insert_all(s, a), b),
    decreases a.len(),
{
    if a.len() == 0 {
        assert(a + b =~= b);
    } else {
        assert((a + b)[0] == a[0]);
        assert((a + b).drop_first() =~= a.drop_first() + b);
        lemma_insert_all_concat(index_insert(s, a[0]), a.drop_first(), b);
    }
}

/// One more element in the list to index.
proof fn lemma_preorder_step(es: Seq<ElementView>, i: int)
    requires
        0 <= i < es.len(),
    ensures
        preorder(es.take(i + 1)) == preorder(es.take(i)) + seq![es[i]] + preorder(es[i].children),
{
    assert(es.take(i + 1) =~= es.take(i) + seq![es[i]]);
    lemma_preorder_concat(es.take(i), seq![es[i]]);
    let one = seq![es[i]];
    let none = Seq::<ElementView>::empty();
    assert(one.drop_first() =~= none);
    assert(preorder(none) == none);
    assert(one[0] == es[i]);
    assert(preorder(one) =~= seq![es[i]] + preorder(es[i].children));
    assert(preorder(es.take(i)) + preorder(one) =~= preorder(es.take(i)) + seq![es[i]]
        + preorder(es[i].children));
}

/// Inserting a one-element list.
proof fn lemma_insert_all_one(s: Seq<ElementView>, x: ElementView)
    ensures
        insert_all(s, seq![x]) == index_insert(s, x),
{
    let none = Seq::<ElementView>::empty();
    assert(seq![x].drop_first() =~= none);
    assert(seq![x][0] == x);
    assert(insert_all(index_insert(s, x), none) == index_insert(s, x));
}

/// Skipping entries that neither match nor order after `e`.
proof fn lemma_index_insert_skip(s: Seq<ElementView>, e: ElementView, j: int)
    requires
        0 <= j <= s.len(),
        forall|k: int|
            0 <= k < j ==> #[trigger] s[k].path != e.path && !path_lt(e.path, s[k].path),
    ensures
        index_insert(s, e) == s.take(j) + index_insert(s.skip(j), e),
    decreases j,
{
    if j == 0 {
        assert(s.skip(0) =~= s);
        assert(s.take(0) + index_insert(s, e) =~= index_insert(s, e));
    } else {
        let t = s.drop_first();
        assert forall|k: int| 0 <= k < j - 1 implies #[trigger] t[k].path != e.path && !path_lt(
            e.path,
            t[k].path,
        ) by {
            assert(t[k] == s[k + 1]);
        }
        lemma_index_insert_skip(t, e, j - 1);
        assert(t.skip(j - 1) =~= s.skip(j));
        assert(s.take(j) =~= seq![s[0]] + t.take(j - 1));
        assert(s[0].path != e.path && !path_lt(e.path, s[0].path));
    }
}

/// The flat index of every element by full path, in path order (the
/// `BTreeMap<ImportPath, DocumentedElement>` of the project).
#[derive(Debug, PartialEq, Eq, Default)]
pub struct ElementIndex {
    entries: Vec<DocumentedElement>,
}

impl View for ElementIndex {
    type V = Seq<ElementView>;

    closed spec fn view(&self) -> Seq<ElementView> {
        element_views(self.entries@)
    }
}

impl ElementIndex {
    /// The entries are in strictly increasing path order: one per path.
    #[verifier::type_invariant]
    spec fn entries_sorted(self) -> bool {
        strictly_sorted(element_views(self.entries@))
    }
}

/// The view of an optional element reference.
pub open spec fn opt_element_view(o: Option<&DocumentedElement>) -> Option<ElementView> {
    match o {
        Some(e) => Some(e@),
        None => None,
    }
}

impl ElementIndex {
    /// An empty index.
    pub fn new() -> (r: Self)
        ensures
            r@.len() == 0,
    {
        ElementIndex { entries: Vec::new() }
    }

    /// Removes every entry.
    pub fn clear(&mut self)
        ensures
            final(self)@.len() == 0,
    {
        self.entries = Vec::new();
    }

    /// The number of entries.
    pub fn len(&self) -> (n: usize)
        ensures
            n == self@.len(),
    {
        self.entries.len()
    }

    /// Whether the index has no entry.
    pub fn is_empty(&self) -> (b: bool)
        ensures
            b == (self@.len() == 0),
    {
        self.entries.len() == 0
    }

    /// The element stored under `key`.
    pub fn get(&self, key: &ImportPath) -> (r: Option<&DocumentedElement>)
        ensures
            opt_element_view(r) == index_get(self@, key@),
    {
        let ghost s = self@;
        let mut i: usize = 0;
        assert(s.skip(0) =~= s);
        while i < self.entries.len()
            invariant
                i <= self.entries.len(),
                s == self@,
                index_get(s.skip(i as int), key@) == index_get(s, key@),
            decreases self.entries.len() - i,
        {
            proof {
                lemma_children_view(self.entries@[i as int]);
            }
            assert(s.skip(i as int)[0] == self.entries@[i as int]@);
            if self.entries[i].path.same_as(key) {
                return Some(&self.entries[i]);
            }
            assert(s.skip(i as int).drop_first() =~= s.skip(i + 1));
            i += 1;
        }
        None
    }

    /// Whether an element is stored under `key`.
    pub fn contains_key(&self, key: &ImportPath) -> (b: bool)
        ensures
            b == index_get(self@, key@).is_some(),
    {
        self.get(key).is_some()
    }

    /// Stores `e` under its path, replacing an element with the same path.
    pub fn insert(&mut self, e: DocumentedElement)
        ensures
            final(self)@ == index_insert(old(self)@, e@),
            strictly_sorted(final(self)@),
    {
        proof {
            use_type_invariant(&*self);
            lemma_children_view(e);
            lemma_index_insert_sorted(self@, e@);
        }
        let ghost s = self@;
        let mut entries: Vec<DocumentedElement> = Vec::new();
        std::mem::swap(&mut entries, &mut self.entries);
        assert(element_views(entries@) == s);
        let mut j: usize = 0;
        while j < entries.len()
            invariant
                j <= entries.len(),
                s == element_views(entries@),
                s == old(self)@,
                e@.path == e.path@,
                strictly_sorted(index_insert(s, e@)),
                forall|k: int|
                    0 <= k < j ==> #[trigger] s[k].path != e@.path && !path_lt(e@.path, s[k].path),
            decreases entries.len() - j,
        {
            proof {
                lemma_children_view(entries@[j as int]);
                lemma_index_insert_skip(s, e@, j as int);
            }
            let ghost t = s.skip(j as int);
            assert(t[0] == s[j as int]);
            if entries[j].path.same_as(&e.path) {
                let ghost v = e@;
                assert(index_insert(t, v) == seq![v] + t.drop_first());
                entries.set(j, e);
                assert(t.drop_first() =~= s.skip(j + 1));
                assert(element_views(entries@) =~= s.take(j as int) + (seq![v] + t.drop_first()));
                self.entries = entries;
                return ;
            }
            if e.path.precedes(&entries[j].path) {
                let ghost v = e@;
                assert(index_insert(t, v) == seq![v] + t);
                entries.insert(j, e);
                assert(element_views(entries@) =~= s.take(j as int) + (seq![v] + t));
                self.entries = entries;
                return ;
            }
            j += 1;
        }
        proof {
            lemma_index_insert_skip(s, e@, j as int);
            assert(s.skip(j as int) =~= Seq::<ElementView>::empty());
        }
        let ghost v = e@;
        entries.push(e);
        assert(element_views(entries@) =~= s.take(j as int) + seq![v]);
        self.entries = entries;
    }
}

/// The root representation of a generated documentation site.
#[derive(Debug, Default, PartialEq, Eq)]
pub struct DocumentedProject {
    /// Import path prefix derived from the scanned source tree.
    pub root_path: ImportPath,
    /// Top-level elements (packages/modules).
    pub elements: Vec<DocumentedElement>,
    /// Flat index of every element keyed by full path.
    pub index: ElementIndex,
}

/// Puts every element of `elements` and its descendants into `index`.
fn collect(elements: &Vec<DocumentedElement>, index: &mut ElementIndex)
    ensures
        final(index)@ == insert_all(old(index)@, preorder(element_views(elements@))),
    decreases elements,
{
    let ghost es = element_views(elements@);
    let mut i: usize = 0;
    assert(es.take(0) =~= Seq::<ElementView>::empty());
    assert(preorder(es.take(0)) =~= Seq::<ElementView>::empty());
    while i < elements.len()
        invariant
            i <= elements.len(),
            es == element_views(elements@),
            index@ == insert_all(old(index)@, preorder(es.take(i as int))),
        decreases elements.len() - i,
    {
        let el = &elements[i];
        proof {
            lemma_children_view(*el);
            lemma_preorder_step(es, i as int);
            lemma_insert_all_concat(old(index)@, preorder(es.take(i as int)), seq![es[i as int]]);
            lemma_insert_all_concat(
                old(index)@,
                preorder(es.take(i as int)) + seq![es[i as int]],
                preorder(es[i as int].children),
            );
            lemma_insert_all_one(insert_all(old(index)@, preorder(es.take(i as int))), es[i as int]);
            assert(decreases_to!(elements => el.children));
        }
        let copy = el.duplicate();
        index.insert(copy);
        collect(&el.children, index);
        i += 1;
    }
    assert(es.take(elements.len() as int) =~= es);
}

impl DocumentedProject {
    /// Rebuild the flat index from the stored elements (path-sorted).
    pub fn rebuild_index(&mut self)
        ensures
            final(self).index@ == build_index(element_views(old(self).elements@)),
            final(self).elements == old(self).elements,
            final(self).root_path == old(self).root_path,
    {
        self.index.clear();
        assert(self.index@ =~= Seq::<ElementView>::empty());
        collect(&self.elements, &mut self.index);
    }
}


/// The entries of `s` are in strictly increasing path order (so no two
/// share a path).
pub open spec fn strictly_sorted(s: Seq<ElementView>) -> bool {
    forall|i: int, j: int|
        0 <= i < j < s.len() ==> path_lt(#[trigger] s[i].path, #[trigger] s[j].path)
}

/// The last element of `list` whose path is `key`.
pub open spec fn last_with_path(list: Seq<ElementView>, key: Seq<Seq<char>>) -> Option<
    ElementView,
>
    decreases list.len(),
{
    if list.len() == 0 {
        None
    } else if list.last().path == key {
        Some(list.last())
    } else {
        last_with_path(list.drop_last(), key)
    }
}

/// A path below every entry and below `e` stays below every entry once `e`
/// is put in the index.
proof fn lemma_index_insert_above(s: Seq<ElementView>, e: ElementView, b: Seq<Seq<char>>)
    requires
        forall|j: int| 0 <= j < s.len() ==> path_lt(b, #[trigger] s[j].path),
        path_lt(b, e.path),
    ensures
        forall|j: int|
            0 <= j < index_insert(s, e).len() ==> path_lt(b, #[trigger] index_insert(s, e)[j].path),
    decreases s.len(),
{
    let r = index_insert(s, e);
    if s.len() == 0 {
        assert(r == seq![e]);
    } else if s[0].path == e.path {
        assert forall|j: int| 0 <= j < r.len() implies path_lt(b, #[trigger] r[j].path) by {
            if j > 0 {
                assert(r[j] == s[j]);
            }
        }
    } else if path_lt(e.path, s[0].path) {
        assert forall|j: int| 0 <= j < r.len() implies path_lt(b, #[trigger] r[j].path) by {
            if j > 0 {
                assert(r[j] == s[j - 1]);
            }
        }
    } else {
        let t = s.drop_first();
        assert forall|j: int| 0 <= j < t.len() implies path_lt(b, #[trigger] t[j].path) by {
            assert(t[j] == s[j + 1]);
        }
        lemma_index_insert_above(t, e, b);
        let u = index_insert(t, e);
        assert forall|j: int| 0 <= j < r.len() implies path_lt(b, #[trigger] r[j].path) by {
            if j > 0 {
                assert(r[j] == u[j - 1]);
            }
        }
    }
}

/// Putting an element in a strictly sorted index keeps it strictly sorted.
proof fn lemma_index_insert_sorted(s: Seq<ElementView>, e: ElementView)
    requires
        strictly_sorted(s),
    ensures
        strictly_sorted(index_insert(s, e)),
    decreases s.len(),
{
    let r = index_insert(s, e);
    if s.len() == 0 {
        assert(r == seq![e]);
    } else if s[0].path == e.path {
        assert forall|i: int, j: int| 0 <= i < j < r.len() implies path_lt(
            #[trigger] r[i].path,
            #[trigger] r[j].path,
        ) by {
            assert(r[j] == s[j]);
            if i > 0 {
                assert(r[i] == s[i]);
            }
        }
    } else if path_lt(e.path, s[0].path) {
        assert forall|i: int, j: int| 0 <= i < j < r.len() implies path_lt(
            #[trigger] r[i].path,
            #[trigger] r[j].path,
        ) by {
            assert(r[j] == s[j - 1]);
            if i > 0 {
                assert(r[i] == s[i - 1]);
            } else if j > 1 {
                assert(path_lt(s[0].path, s[j - 1].path));
                lemma_path_lt_transitive(e.path, s[0].path, s[j - 1].path);
            }
        }
    } else {
        lemma_path_lt_total(e.path, s[0].path);
        let t = s.drop_first();
        assert forall|i: int, j: int| 0 <= i < j < t.len() implies path_lt(
            #[trigger] t[i].path,
            #[trigger] t[j].path,
        ) by {
            assert(t[i] == s[i + 1]);
            assert(t[j] == s[j + 1]);
        }
        assert forall|j: int| 0 <= j < t.len() implies path_lt(s[0].path, #[trigger] t[j].path) by {
            assert(t[j] == s[j + 1]);
        }
        lemma_index_insert_sorted(t, e);
        lemma_index_insert_above(t, e, s[0].path);
        let u = index_insert(t, e);
        assert forall|i: int, j: int| 0 <= i < j < r.len() implies path_lt(
            #[trigger] r[i].path,
            #[trigger] r[j].path,
        ) by {
            assert(r[j] == u[j - 1]);
            if i > 0 {
                assert(r[i] == u[i - 1]);
            }
        }
    }
}

/// A lookup right after putting `e` in the index finds `e` under its path,
/// and what was there before under every other path.
proof fn lemma_index_insert_get(s: Seq<ElementView>, e: ElementView, key: Seq<Seq<char>>)
    ensures
        index_get(index_insert(s, e), key) == (if key == e.path {
            Some(e)
        } else {
            index_get(s, key)
        }),
    decreases s.len(),
{
    let r = index_insert(s, e);
    if s.len() == 0 {
        assert(r[0] == e);
        assert(r.drop_first() =~= Seq::<ElementView>::empty());
        assert(index_get(r.drop_first(), key) == None::<ElementView>);
        assert(index_get(s, key) == None::<ElementView>);
    } else if s[0].path == e.path {
        assert(r[0] == e);
        assert(r.drop_first() =~= s.drop_first());
    } else if path_lt(e.path, s[0].path) {
        assert(r[0] == e);
        assert(r.drop_first() =~= s);
    } else {
        assert(r[0] == s[0]);
        lemma_index_insert_get(s.drop_first(), e, key);
        assert(r.drop_first() =~= index_insert(s.drop_first(), e));
    }
}

/// Putting every element of a list in a strictly sorted index keeps it
/// strictly sorted.
proof fn lemma_insert_all_sorted(s: Seq<ElementView>, list: Seq<ElementView>)
    requires
        strictly_sorted(s),
    ensures
        strictly_sorted(insert_all(s, list)),
    decreases list.len(),
{
    if list.len() > 0 {
        lemma_index_insert_sorted(s, list[0]);
        lemma_insert_all_sorted(index_insert(s, list[0]), list.drop_first());
    }
}

/// A lookup after putting every element of `list` in the index finds the
/// last of them with the path, or what was there before.
proof fn lemma_insert_all_get(s: Seq<ElementView>, list: Seq<ElementView>, key: Seq<Seq<char>>)
    ensures
        index_get(insert_all(s, list), key) == (match last_with_path(list, key) {
            Some(x) => Some(x),
            None => index_get(s, key),
        }),
    decreases list.len(),
{
    if list.len() == 0 {
    } else {
        let init = list.drop_last();
        let x = list.last();
        assert(list =~= init + seq![x]);
        lemma_insert_all_concat(s, init, seq![x]);
        lemma_insert_all_one(insert_all(s, init), x);
        lemma_index_insert_get(insert_all(s, init), x, key);
        lemma_insert_all_get(s, init, key);
    }
}

/// `last_with_path` finds an element exactly when one has the path, and
/// then one with the path after which none has it.
pub proof fn lemma_last_with_path(list: Seq<ElementView>, key: Seq<Seq<char>>)
    ensures
        last_with_path(list, key).is_some() <==> exists|i: int|
            0 <= i < list.len() && #[trigger] list[i].path == key,
        last_with_path(list, key) matches Some(x) ==> exists|i: int|
            0 <= i < list.len() && #[trigger] list[i] == x && x.path == key && forall|j: int|
                i < j < list.len() ==> #[trigger] list[j].path != key,
    decreases list.len(),
{
    if list.len() > 0 {
        let init = list.drop_last();
        lemma_last_with_path(init, key);
        let n = list.len() - 1;
        if list.last().path == key {
            assert(list[n].path == key);
        } else {
            if exists|i: int| 0 <= i < list.len() && #[trigger] list[i].path == key {
                let i = choose|i: int| 0 <= i < list.len() && #[trigger] list[i].path == key;
                assert(init[i].path == key);
            }
            if exists|i: int| 0 <= i < init.len() && #[trigger] init[i].path == key {
                let i = choose|i: int| 0 <= i < init.len() && #[trigger] init[i].path == key;
                assert(list[i].path == key);
            }
            if last_with_path(init, key) is Some {
                let x = last_with_path(init, key)->0;
                let i = choose|i: int|
                    0 <= i < init.len() && #[trigger] init[i] == x && x.path == key && forall|j: int|
                        i < j < init.len() ==> #[trigger] init[j].path != key;
                assert(list[i] == x);
                assert forall|j: int| i < j < list.len() implies #[trigger] list[j].path != key by {
                    if j < n {
                        assert(list[j] == init[j]);
                    }
                }
            }
        }
    }
}

/// The flat index of a project holds every element, at any depth, under
/// its full path. A lookup by path finds an element exactly when some
/// element of the tree has that path, and then the last such element in
/// depth-first order (one indexed later replaces one with the same path).
/// The entries are in strictly increasing path order, one per path.
pub proof fn law_index_finds_every_element(es: Seq<ElementView>, key: Seq<Seq<char>>)
    ensures
        strictly_sorted(build_index(es)),
        index_get(build_index(es), key) == last_with_path(preorder(es), key),
        index_get(build_index(es), key).is_some() <==> exists|i: int|
            0 <= i < preorder(es).len() && #[trigger] preorder(es)[i].path == key,
{
    let empty = Seq::<ElementView>::empty();
    lemma_insert_all_sorted(empty, preorder(es));
    lemma_insert_all_get(empty, preorder(es), key);
    lemma_last_with_path(preorder(es), key);
}

/// Storing an element in the index and then looking up its path gives
/// that element; a lookup of any other path gives what it gave before; and
/// an index in strictly increasing path order stays so.
pub proof fn law_index_read_after_write(s: Seq<ElementView>, e: ElementView, key: Seq<Seq<char>>)
    ensures
        index_get(index_insert(s, e), key) == (if key == e.path {
            Some(e)
        } else {
            index_get(s, key)
        }),
        strictly_sorted(s) ==> strictly_sorted(index_insert(s, e)),
{
    lemma_index_insert_get(s, e, key);
    if strictly_sorted(s) {
        lemma_index_insert_sorted(s, e);
    }
}


/// `s` is in non-decreasing path order.
pub open spec fn sorted_by_path(s: Seq<ElementView>) -> bool {
    forall|i: int, j: int|
        0 <= i < j < s.len() ==> !path_lt(#[trigger] s[j].path, #[trigger] s[i].path)
}

/// No two elements of `s` share a path.
pub open spec fn distinct_paths(s: Seq<ElementView>) -> bool {
    forall|i: int, j: int| 0 <= i < s.len() && 0 <= j < s.len() && i != j ==> #[trigger] s[i].path
        != #[trigger] s[j].path
}

/// `e`'s children, and theirs at every level, are in non-decreasing path
/// order.
pub open spec fn tree_sorted(e: ElementView) -> bool
    decreases e,
{
    &&& sorted_by_path(e.children)
    &&& forall|i: int| 0 <= i < e.children.len() ==> tree_sorted(#[trigger] e.children[i])
}

/// A path that no element and not `x` orders before stays so once `x` is
/// inserted.
proof fn lemma_insert_by_path_above(x: ElementView, s: Seq<ElementView>, b: Seq<Seq<char>>)
    requires
        forall|j: int| 0 <= j < s.len() ==> !path_lt(#[trigger] s[j].path, b),
        !path_lt(x.path, b),
    ensures
        forall|j: int|
            0 <= j < insert_by_path(x, s).len() ==> !path_lt(
                #[trigger] insert_by_path(x, s)[j].path,
                b,
            ),
    decreases s.len(),
{
    let r = insert_by_path(x, s);
    if s.len() == 0 {
        assert(r == seq![x]);
    } else if path_lt(x.path, s[0].path) {
        assert forall|j: int| 0 <= j < r.len() implies !path_lt(#[trigger] r[j].path, b) by {
            if j > 0 {
                assert(r[j] == s[j - 1]);
            }
        }
    } else {
        let t = s.drop_first();
        assert forall|j: int| 0 <= j < t.len() implies !path_lt(#[trigger] t[j].path, b) by {
            assert(t[j] == s[j + 1]);
        }
        lemma_insert_by_path_above(x, t, b);
        let u = insert_by_path(x, t);
        assert forall|j: int| 0 <= j < r.len() implies !path_lt(#[trigger] r[j].path, b) by {
            if j > 0 {
                assert(r[j] == u[j - 1]);
            }
        }
    }
}

/// Inserting into a sorted sequence keeps it sorted.
proof fn lemma_insert_by_path_sorted(x: ElementView, s: Seq<ElementView>)
    requires
        sorted_by_path(s),
    ensures
        sorted_by_path(insert_by_path(x, s)),
    decreases s.len(),
{
    let r = insert_by_path(x, s);
    if s.len() == 0 {
        assert(r == seq![x]);
    } else if path_lt(x.path, s[0].path) {
        assert forall|i: int, j: int| 0 <= i < j < r.len() implies !path_lt(
            #[trigger] r[j].path,
            #[trigger] r[i].path,
        ) by {
            assert(r[j] == s[j - 1]);
            if i > 0 {
                assert(r[i] == s[i - 1]);
            } else {
                let y = s[j - 1].path;
                if j > 1 {
                    assert(!path_lt(y, s[0].path));
                }
                lemma_path_lt_total(y, s[0].path);
                if y != s[0].path {
                    lemma_path_lt_transitive(x.path, s[0].path, y);
                }
                lemma_path_lt_asymmetric(x.path, y);
            }
        }
    } else {
        let t = s.drop_first();
        assert forall|i: int, j: int| 0 <= i < j < t.len() implies !path_lt(
            #[trigger] t[j].path,
            #[trigger] t[i].path,
        ) by {
            assert(t[i] == s[i + 1]);
            assert(t[j] == s[j + 1]);
        }
        assert forall|j: int| 0 <= j < t.len() implies !path_lt(#[trigger] t[j].path, s[0].path) by {
            assert(t[j] == s[j + 1]);
        }
        lemma_insert_by_path_sorted(x, t);
        lemma_insert_by_path_above(x, t, s[0].path);
        let u = insert_by_path(x, t);
        assert forall|i: int, j: int| 0 <= i < j < r.len() implies !path_lt(
            #[trigger] r[j].path,
            #[trigger] r[i].path,
        ) by {
            assert(r[j] == u[j - 1]);
            if i > 0 {
                assert(r[i] == u[i - 1]);
            }
        }
    }
}

/// Inserting adds exactly `x` to the elements.
proof fn lemma_insert_by_path_multiset(x: ElementView, s: Seq<ElementView>)
    ensures
        insert_by_path(x, s).to_multiset() == s.to_multiset().insert(x),
    decreases s.len(),
{
    broadcast use vstd::seq_lib::group_to_multiset_ensures;
    broadcast use vstd::multiset::group_multiset_axioms;
    broadcast use vstd::seq_lib::lemma_multiset_commutative;

    let r = insert_by_path(x, s);
    if s.len() == 0 {
        assert(r =~= s.push(x));
    } else if path_lt(x.path, s[0].path) {
        assert(r =~= seq![x] + s);
        assert(seq![x] =~= Seq::<ElementView>::empty().push(x));
        assert(r.to_multiset() =~= s.to_multiset().insert(x));
    } else {
        let t = s.drop_first();
        lemma_insert_by_path_multiset(x, t);
        assert(s =~= seq![s[0]] + t);
        assert(seq![s[0]] =~= Seq::<ElementView>::empty().push(s[0]));
        assert(r.to_multiset() =~= s.to_multiset().insert(x));
    }
}

/// Sorting by path gives a sorted arrangement of the same elements.
pub proof fn lemma_sort_by_path(s: Seq<ElementView>)
    ensures
        sorted_by_path(sort_by_path_seq(s)),
        sort_by_path_seq(s).to_multiset() == s.to_multiset(),
    decreases s.len(),
{
    broadcast use vstd::seq_lib::group_to_multiset_ensures;

    if s.len() > 0 {
        lemma_sort_by_path(s.drop_last());
        lemma_insert_by_path_sorted(s.last(), sort_by_path_seq(s.drop_last()));
        lemma_insert_by_path_multiset(s.last(), sort_by_path_seq(s.drop_last()));
        assert(s =~= s.drop_last().push(s.last()));
    }
}

/// Arrangements of the same elements share the property that no two
/// elements have the same path.
proof fn lemma_distinct_paths_multiset(a: Seq<ElementView>, b: Seq<ElementView>)
    requires
        distinct_paths(a),
        a.to_multiset() == b.to_multiset(),
    ensures
        distinct_paths(b),
{
    broadcast use vstd::seq_lib::group_to_multiset_ensures;

    assert forall|i: int, j: int|
        0 <= i < a.len() && 0 <= j < a.len() && i != j implies #[trigger] a[i] != #[trigger] a[j] by {
        assert(a[i].path != a[j].path);
    }
    assert(a.no_duplicates());
    a.lemma_multiset_has_no_duplicates();
    b.lemma_multiset_has_no_duplicates_conv();
    assert forall|i: int, j: int|
        0 <= i < b.len() && 0 <= j < b.len() && i != j implies #[trigger] b[i].path
        != #[trigger] b[j].path by {
        assert(b.contains(b[i]));
        assert(b.contains(b[j]));
        assert(b.to_multiset().count(b[i]) > 0);
        assert(b.to_multiset().count(b[j]) > 0);
        assert(a.to_multiset().count(b[i]) > 0);
        assert(a.to_multiset().count(b[j]) > 0);
        assert(a.contains(b[i]));
        assert(a.contains(b[j]));
        let p = choose|p: int| 0 <= p < a.len() && a[p] == b[i];
        let q = choose|q: int| 0 <= q < a.len() && a[q] == b[j];
        assert(b[i] != b[j]);
    }
}

/// Two sorted arrangements of the same elements, with no path shared, are
/// equal.
proof fn lemma_sorted_unique(x: Seq<ElementView>, y: Seq<ElementView>)
    requires
        sorted_by_path(x),
        sorted_by_path(y),
        distinct_paths(x),
        x.to_multiset() == y.to_multiset(),
    ensures
        x == y,
    decreases x.len(),
{
    broadcast use vstd::seq_lib::group_to_multiset_ensures;
    broadcast use vstd::multiset::group_multiset_axioms;

    assert(x.to_multiset().len() == y.to_multiset().len());
    if x.len() == 0 || y.len() == 0 {
        assert(x.len() == y.len());
        assert(x =~= y);
    } else {
        assert(y.contains(y[0]));
        assert(x.contains(x[0]));
        assert(y.to_multiset().count(y[0]) > 0);
        assert(x.to_multiset().count(x[0]) > 0);
        assert(x.to_multiset().count(y[0]) > 0);
        assert(y.to_multiset().count(x[0]) > 0);
        assert(x.contains(y[0]));
        assert(y.contains(x[0]));
        let i = choose|i: int| 0 <= i < x.len() && x[i] == y[0];
        let j = choose|j: int| 0 <= j < y.len() && y[j] == x[0];
        if i > 0 {
            assert(x[i].path != x[0].path);
            assert(!path_lt(x[i].path, x[0].path));
            lemma_path_lt_total(x[0].path, x[i].path);
            if j > 0 {
                assert(!path_lt(y[j].path, y[0].path));
            }
            lemma_path_lt_irreflexive(x[0].path);
        }
        assert(x[0] == y[0]);
        let x1 = x.drop_first();
        let y1 = y.drop_first();
        assert(x1 =~= x.remove(0));
        assert(y1 =~= y.remove(0));
        assert(x1.to_multiset() =~= y1.to_multiset());
        assert forall|a: int, b: int| 0 <= a < b < x1.len() implies !path_lt(
            #[trigger] x1[b].path,
            #[trigger] x1[a].path,
        ) by {
            assert(x1[a] == x[a + 1] && x1[b] == x[b + 1]);
        }
        assert forall|a: int, b: int| 0 <= a < b < y1.len() implies !path_lt(
            #[trigger] y1[b].path,
            #[trigger] y1[a].path,
        ) by {
            assert(y1[a] == y[a + 1] && y1[b] == y[b + 1]);
        }
        assert forall|a: int, b: int|
            0 <= a < x1.len() && 0 <= b < x1.len() && a != b implies #[trigger] x1[a].path
            != #[trigger] x1[b].path by {
            assert(x1[a] == x[a + 1] && x1[b] == x[b + 1]);
        }
        lemma_sorted_unique(x1, y1);
        assert(x =~= seq![x[0]] + x1);
        assert(y =~= seq![y[0]] + y1);
    }
}

/// Sorting by path does not depend on the order of its input: two
/// arrangements of the same elements, no two of which share a path, sort
/// to the same sequence, in path order.
pub proof fn law_sort_ignores_input_order(a: Seq<ElementView>, b: Seq<ElementView>)
    requires
        a.to_multiset() == b.to_multiset(),
        distinct_paths(a),
    ensures
        sort_by_path_seq(a) == sort_by_path_seq(b),
        sorted_by_path(sort_by_path_seq(a)),
{
    lemma_sort_by_path(a);
    lemma_sort_by_path(b);
    lemma_distinct_paths_multiset(a, sort_by_path_seq(a));
    lemma_sorted_unique(sort_by_path_seq(a), sort_by_path_seq(b));
}

/// Sorting an element orders its children, and theirs at every level, by
/// path, and keeps each level's elements: the children are the sorted
/// children, rearranged.
pub proof fn law_sort_orders_every_level(e: ElementView)
    ensures
        tree_sorted(sorted_tree(e)),
        sorted_tree(e).children.to_multiset() == sorted_children(e).to_multiset(),
        sorted_tree(e).path == e.path,
        sorted_tree(e).kind == e.kind,
        sorted_tree(e).doc == e.doc,
    decreases e,
{
    broadcast use vstd::seq_lib::group_to_multiset_ensures;

    let kids = sorted_children(e);
    let sorted = sort_by_path_seq(kids);
    lemma_sort_by_path(kids);
    assert forall|i: int| 0 <= i < sorted.len() implies tree_sorted(#[trigger] sorted[i]) by {
        assert(sorted.contains(sorted[i]));
        assert(sorted.to_multiset().count(sorted[i]) > 0);
        assert(kids.to_multiset().count(sorted[i]) > 0);
        assert(kids.contains(sorted[i]));
        let k = choose|k: int| 0 <= k < kids.len() && kids[k] == sorted[i];
        assert(kids[k] == sorted_tree(e.children[k]));
        assert(decreases_to!(e => e.children[k]));
        law_sort_orders_every_level(e.children[k]);
    }
}


/// Inserting an element that no element orders after appends it.
proof fn lemma_insert_by_path_last(x: ElementView, s: Seq<ElementView>)
    requires
        forall|j: int| 0 <= j < s.len() ==> !path_lt(x.path, #[trigger] s[j].path),
    ensures
        insert_by_path(x, s) == s.push(x),
    decreases s.len(),
{
    if s.len() > 0 {
        let t = s.drop_first();
        assert forall|j: int| 0 <= j < t.len() implies !path_lt(x.path, #[trigger] t[j].path) by {
            assert(t[j] == s[j + 1]);
        }
        lemma_insert_by_path_last(x, t);
        assert(s.push(x) =~= seq![s[0]] + t.push(x));
    } else {
        assert(s.push(x) =~= seq![x]);
    }
}

/// Sorting a sorted sequence leaves it as it is.
proof fn lemma_sort_sorted(s: Seq<ElementView>)
    requires
        sorted_by_path(s),
    ensures
        sort_by_path_seq(s) == s,
    decreases s.len(),
{
    if s.len() > 0 {
        let init = s.drop_last();
        assert forall|i: int, j: int| 0 <= i < j < init.len() implies !path_lt(
            #[trigger] init[j].path,
            #[trigger] init[i].path,
        ) by {
            assert(init[i] == s[i] && init[j] == s[j]);
        }
        lemma_sort_sorted(init);
        assert forall|j: int| 0 <= j < init.len() implies !path_lt(s.last().path, #[trigger] init[j].path) by {
            assert(init[j] == s[j]);
            assert(s.last() == s[s.len() - 1]);
        }
        lemma_insert_by_path_last(s.last(), init);
        assert(init.push(s.last()) =~= s);
    }
}

/// Sorting an element that is already sorted changes nothing: sorting is
/// idempotent, at every level.
pub proof fn law_sort_is_idempotent(e: ElementView)
    ensures
        sorted_tree(sorted_tree(e)) == sorted_tree(e),
    decreases e,
{
    broadcast use vstd::seq_lib::group_to_multiset_ensures;

    let t = sorted_tree(e);
    let kids = sorted_children(e);
    lemma_sort_by_path(kids);
    assert forall|i: int| 0 <= i < t.children.len() implies sorted_tree(#[trigger] t.children[i])
        == t.children[i] by {
        assert(t.children.contains(t.children[i]));
        assert(t.children.to_multiset().count(t.children[i]) > 0);
        assert(kids.to_multiset().count(t.children[i]) > 0);
        assert(kids.contains(t.children[i]));
        let k = choose|k: int| 0 <= k < kids.len() && kids[k] == t.children[i];
        assert(kids[k] == sorted_tree(e.children[k]));
        assert(decreases_to!(e => e.children[k]));
        law_sort_is_idempotent(e.children[k]);
    }
    assert(sorted_children(t) =~= t.children);
    lemma_sort_sorted(t.children);
    assert(sorted_tree(t) =~= t);
}

/// `a` and `b` are the same element, with the children at every level
/// possibly listed in another order.
pub open spec fn reordered(a: ElementView, b: ElementView) -> bool
    decreases a, 0int,
{
    &&& a.path == b.path
    &&& a.kind == b.kind
    &&& a.doc == b.doc
    &&& reordered_list(a.children, b.children)
}

/// `ys` lists, in some order, `reordered` copies of the elements of `xs`,
/// one for one.
pub open spec fn reordered_list(xs: Seq<ElementView>, ys: Seq<ElementView>) -> bool
    decreases xs, ys.len() + 1,
{
    if xs.len() == 0 {
        ys.len() == 0
    } else {
        reordered_match(xs, ys, 0)
    }
}

/// Some `ys[k]` with `j <= k` is a `reordered` copy of `xs[0]`, and the
/// rest of `ys` lists copies of the rest of `xs`.
pub open spec fn reordered_match(xs: Seq<ElementView>, ys: Seq<ElementView>, j: int) -> bool
    decreases xs, ys.len() - j,
{
    if 0 <= j < ys.len() && xs.len() > 0 {
        (reordered(xs[0], ys[j]) && reordered_list(xs.drop_first(), ys.remove(j)))
            || reordered_match(xs, ys, j + 1)
    } else {
        false
    }
}

/// A match found from `j` on is one at some position.
proof fn lemma_reordered_match(xs: Seq<ElementView>, ys: Seq<ElementView>, j: int)
    requires
        reordered_match(xs, ys, j),
    ensures
        exists|k: int|
            0 <= k < ys.len() && #[trigger] reordered(xs[0], ys[k]) && reordered_list(
                xs.drop_first(),
                ys.remove(k),
            ),
    decreases ys.len() - j,
{
    if !(reordered(xs[0], ys[j]) && reordered_list(xs.drop_first(), ys.remove(j))) {
        lemma_reordered_match(xs, ys, j + 1);
    }
}

/// No two siblings, at any level below `e`, share a path.
pub open spec fn siblings_distinct(e: ElementView) -> bool
    decreases e,
{
    &&& distinct_paths(e.children)
    &&& forall|i: int| 0 <= i < e.children.len() ==> siblings_distinct(#[trigger] e.children[i])
}

/// Reordered elements sort to the same tree; reordered lists of them hold
/// the same sorted trees.
proof fn lemma_reordered_sort(a: ElementView, b: ElementView)
    requires
        reordered(a, b),
        siblings_distinct(a),
    ensures
        sorted_tree(a) == sorted_tree(b),
    decreases a, 1int,
{
    let ka = sorted_children(a);
    let kb = sorted_children(b);
    assert(decreases_to!(a => a.children));
    lemma_reordered_list_sort(a.children, b.children);
    assert(ka =~= a.children.map_values(|e: ElementView| sorted_tree(e)));
    assert(kb =~= b.children.map_values(|e: ElementView| sorted_tree(e)));
    assert forall|i: int, j: int|
        0 <= i < ka.len() && 0 <= j < ka.len() && i != j implies #[trigger] ka[i].path
        != #[trigger] ka[j].path by {
        assert(ka[i].path == a.children[i].path);
        assert(ka[j].path == a.children[j].path);
    }
    law_sort_ignores_input_order(ka, kb);
    assert(sorted_tree(a) =~= sorted_tree(b));
}

/// See [`lemma_reordered_sort`].
proof fn lemma_reordered_list_sort(xs: Seq<ElementView>, ys: Seq<ElementView>)
    requires
        reordered_list(xs, ys),
        forall|i: int| 0 <= i < xs.len() ==> siblings_distinct(#[trigger] xs[i]),
    ensures
        xs.map_values(|e: ElementView| sorted_tree(e)).to_multiset() == ys.map_values(
            |e: ElementView| sorted_tree(e),
        ).to_multiset(),
    decreases xs, 0int,
{
    broadcast use vstd::seq_lib::group_to_multiset_ensures;
    broadcast use vstd::multiset::group_multiset_axioms;
    broadcast use vstd::seq_lib::lemma_multiset_commutative;

    let fx = xs.map_values(|e: ElementView| sorted_tree(e));
    let fy = ys.map_values(|e: ElementView| sorted_tree(e));
    if xs.len() == 0 {
        assert(fx =~= fy);
    } else {
        lemma_reordered_match(xs, ys, 0);
        let j = choose|j: int|
            0 <= j < ys.len() && #[trigger] reordered(xs[0], ys[j]) && reordered_list(
                xs.drop_first(),
                ys.remove(j),
            );
        assert(decreases_to!(xs => xs[0]));
        lemma_reordered_sort(xs[0], ys[j]);
        let rest = xs.drop_first();
        assert forall|i: int| 0 <= i < rest.len() implies siblings_distinct(#[trigger] rest[i]) by {
            assert(rest[i] == xs[i + 1]);
        }
        lemma_reordered_list_sort(rest, ys.remove(j));
        let x = sorted_tree(xs[0]);
        assert(fx =~= seq![x] + rest.map_values(|e: ElementView| sorted_tree(e)));
        assert(seq![x] =~= Seq::<ElementView>::empty().push(x));
        assert(fy.remove(j) =~= ys.remove(j).map_values(|e: ElementView| sorted_tree(e)));
        assert(fy[j] == x);
        assert(fy.remove(j).to_multiset() == fy.to_multiset().remove(x));
        assert(fy.contains(x));
        assert(fy.to_multiset().count(x) > 0);
        assert(fy.to_multiset() =~= fy.to_multiset().remove(x).insert(x));
        assert(fx.to_multiset() =~= fy.to_multiset());
    }
}

/// Sorting a tree does not depend on the order in which children are
/// declared, at any level: two trees that differ only in that order, with
/// no two siblings sharing a path, sort to the same tree.
pub proof fn law_tree_sort_ignores_declaration_order(a: ElementView, b: ElementView)
    requires
        reordered(a, b),
        siblings_distinct(a),
    ensures
        sorted_tree(a) == sorted_tree(b),
{
    lemma_reordered_sort(a, b);
}


} // verus!
