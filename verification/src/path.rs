//! Construction of Python import paths from the directory structure.
//!
//! The relative path of a source file is taken apart with `std::path`
//! (extension, parent directory, its components, file stem); what becomes of
//! the parts is decided by [`module_path_from_parts`].
use vstd::prelude::*;
use crate::text;

verus! {

/// The extension of the file named by `p` (`Path::extension`).
pub uninterp spec fn path_extension(p: Seq<char>) -> Option<Seq<char>>;

/// The parent directory of `p` (`Path::parent`).
pub uninterp spec fn path_parent(p: Seq<char>) -> Option<Seq<char>>;

/// The text of each component of `p` (`Path::components`).
pub uninterp spec fn path_components(p: Seq<char>) -> Seq<Option<Seq<char>>>;

/// The stem of the file named by `p` (`Path::file_stem`).
pub uninterp spec fn path_file_stem(p: Seq<char>) -> Option<Seq<char>>;

/// The view of an optional string.
pub open spec fn opt_str_view(o: Option<String>) -> Option<Seq<char>> {
    match o {
        Some(s) => Some(s@),
        None => None,
    }
}

/// The views of a list of optional strings.
pub open spec fn opt_str_views(v: Seq<Option<String>>) -> Seq<Option<Seq<char>>> {
    v.map_values(|o: Option<String>| opt_str_view(o))
}

/// `Path::new(p).extension()` as text.
///
/// Trusted: the result is whatever `std::path::Path::extension` gives for
/// `p` (a function of `p` alone for the target's path syntax), converted to
/// `String`.
#[verifier::external_body]
fn extension_of(p: &str) -> (r: Option<String>)
    ensures
        opt_str_view(r) == path_extension(p@),
{
    std::path::Path::new(p).extension().and_then(|e| e.to_str()).map(|e| e.to_string())
}

/// `Path::new(p).parent()` as text.
///
/// Trusted: the result is whatever `std::path::Path::parent` gives for `p`,
/// converted to `String`.
#[verifier::external_body]
fn parent_of(p: &str) -> (r: Option<String>)
    ensures
        opt_str_view(r) == path_parent(p@),
{
    std::path::Path::new(p).parent().and_then(|q| q.to_str()).map(|q| q.to_string())
}

/// The text of each of `Path::new(p).components()`.
///
/// Trusted: the result lists, in order, the components that
/// `std::path::Path::components` gives for `p`, each converted to `String`
/// (`None` where the component is not UTF-8).
#[verifier::external_body]
fn components_of(p: &str) -> (r: Vec<Option<String>>)
    ensures
        opt_str_views(r@) == path_components(p@),
{
    std::path::Path::new(p).components().map(|c| c.as_os_str().to_str().map(|s| s.to_string())).collect()
}

/// `Path::new(p).file_stem()` as text.
///
/// Trusted: the result is whatever `std::path::Path::file_stem` gives for
/// `p`, converted to `String`.
#[verifier::external_body]
fn file_stem_of(p: &str) -> (r: Option<String>)
    ensures
        opt_str_view(r) == path_file_stem(p@),
{
    std::path::Path::new(p).file_stem().and_then(|s| s.to_str()).map(|s| s.to_string())
}

/// The directory names kept as segments: UTF-8 and non-empty.
pub open spec fn kept_components(dirs: Seq<Option<Seq<char>>>) -> Seq<Seq<char>>
    decreases dirs.len(),
{
    if dirs.len() == 0 {
        seq![]
    } else {
        let rest = kept_components(dirs.drop_last());
        match dirs.last() {
            Some(name) => if name.len() > 0 {
                rest.push(name)
            } else {
                rest
            },
            None => rest,
        }
    }
}

/// The module path given the file's extension, the components of its
/// directory, and its stem: `None` unless the extension is `py`; the
/// directory names, then the stem, except that `__init__` names the package
/// itself (and stays only when there is no directory).
pub open spec fn module_path_spec(
    extension: Option<Seq<char>>,
    dirs: Seq<Option<Seq<char>>>,
    stem: Option<Seq<char>>,
) -> Option<Seq<Seq<char>>> {
    if extension != Some("py"@) {
        None
    } else {
        let segments = kept_components(dirs);
        let stem = match stem {
            Some(s) => s,
            None => seq![],
        };
        if stem == "__init__"@ {
            if segments.len() == 0 {
                Some(seq!["__init__"@])
            } else {
                Some(segments)
            }
        } else {
            Some(segments.push(stem))
        }
    }
}

/// The segments of the optional result.
pub open spec fn opt_segments_view(o: Option<Vec<String>>) -> Option<Seq<Seq<char>>> {
    match o {
        Some(v) => Some(text::string_views(v@)),
        None => None,
    }
}

/// The module path segments given the parts of the file's relative path
/// (see [`module_path_spec`]).
pub fn module_path_from_parts(
    extension: &Option<String>,
    dir_components: &Vec<Option<String>>,
    file_stem: &Option<String>,
) -> (r: Option<Vec<String>>)
    ensures
        opt_segments_view(r) == module_path_spec(
            opt_str_view(*extension),
            opt_str_views(dir_components@),
            opt_str_view(*file_stem),
        ),
{
    let py = "py".to_string();
    let is_py = match extension {
        Some(e) => *e == py,
        None => false,
    };
    if !is_py {
        return None;
    }
    let ghost dirs = opt_str_views(dir_components@);
    let mut segments: Vec<String> = Vec::new();
    let mut i: usize = 0;
    while i < dir_components.len()
        invariant
            i <= dir_components.len(),
            dirs == opt_str_views(dir_components@),
            text::string_views(segments@) == kept_components(dirs.take(i as int)),
        decreases dir_components.len() - i,
    {
        assert(dirs.take(i + 1).drop_last() =~= dirs.take(i as int));
        assert(dirs.take(i + 1).last() == opt_str_view(dir_components@[i as int]));
        match &dir_components[i] {
            Some(name) => {
                if !name.as_str().is_empty() {
                    let ghost prev = segments@;
                    segments.push(name.clone());
                    assert(text::string_views(segments@) =~= text::string_views(prev).push(name@));
                }
            },
            None => {},
        }
        i += 1;
    }
    assert(dirs.take(dir_components.len() as int) =~= dirs);
    let stem = match file_stem {
        Some(s) => s.clone(),
        None => String::new(),
    };
    if stem == "__init__".to_string() {
        if segments.len() == 0 {
            let init = "__init__".to_string();
            let ghost prev = segments@;
            segments.push(init);
            assert(text::string_views(segments@) =~= seq!["__init__"@]);
        }
    } else {
        let ghost prev = segments@;
        let ghost sv = stem@;
        segments.push(stem);
        assert(text::string_views(segments@) =~= text::string_views(prev).push(sv));
    }
    Some(segments)
}

/// The parent's components, or none when there is no parent.
pub open spec fn parent_components(p: Seq<char>) -> Seq<Option<Seq<char>>> {
    match path_parent(p) {
        Some(parent) => path_components(parent),
        None => seq![],
    }
}

/// Convert a source file path (relative to the scanned source root) into
/// the dotted module import path segments.
///
/// - `pkg/sub/mod.py`         → `["pkg", "sub", "mod"]`
/// - `pkg/sub/__init__.py`    → `["pkg", "sub"]` (package itself)
/// - `utils.py`               → `["utils"]`
/// - `pkg/__init__.py`        → `["pkg"]` (package itself)
///
/// Returns `None` when the file is not a Python module (not `.py`).
pub fn module_path_from_relative(relative: &str) -> (r: Option<Vec<String>>)
    ensures
        opt_segments_view(r) == module_path_spec(
            path_extension(relative@),
            parent_components(relative@),
            path_file_stem(relative@),
        ),
{
    let extension = extension_of(relative);
    let dirs = match parent_of(relative) {
        Some(parent) => components_of(parent.as_str()),
        None => Vec::new(),
    };
    assert(opt_str_views(dirs@) =~= parent_components(relative@));
    let stem = file_stem_of(relative);
    module_path_from_parts(&extension, &dirs, &stem)
}

} // verus!
