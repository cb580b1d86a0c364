//! Theme resolution.
//!
//! A `Theme` is the complete stylesheet text embedded into every generated
//! page. The default theme comes from [`crate::style`]; a user-provided
//! stylesheet is appended after it so its rules take precedence through the
//! CSS cascade. Reading the user's file is left to the caller.
use vstd::prelude::*;
use crate::style::{self, default_theme_css};
use crate::text::{chars_of, string_from_chars};

verus! {

/// `std::path::PathBuf`, the location of a user stylesheet.
#[verifier::external_type_specification]
#[verifier::external_body]
pub struct ExPathBuf(std::path::PathBuf);

/// `<PathBuf as Clone>::clone`, called by the derived `Clone` of
/// [`ThemeSource`]. Trusted only to return: nothing is stated of the copy.
pub assume_specification[<std::path::PathBuf as Clone>::clone](p: &std::path::PathBuf) -> std::path::PathBuf;

/// Where the theme's CSS came from (for diagnostics).
#[derive(Debug, Clone, PartialEq)]
pub enum ThemeSource {
    /// The built-in theme, bundled into the tool.
    Default,
    /// A user-provided stylesheet read from `path`.
    Custom { path: std::path::PathBuf },
}

/// The complete stylesheet text embedded into every generated page.
#[derive(Debug, Clone)]
pub struct Theme {
    /// Full CSS text for the `<style>` block (default + optional user CSS).
    pub css: String,
    /// Where the CSS came from.
    pub source: ThemeSource,
}

impl Theme {
    /// The bundled default theme (light + dark) with no user overrides.
    pub fn default_theme() -> (r: Self)
        ensures
            r.css@ == style::DEFAULT_THEME_CSS@,
            r.source == ThemeSource::Default,
    {
        Theme { css: default_theme_css().to_string(), source: ThemeSource::Default }
    }

    /// The default theme with the text of the user stylesheet at `path`
    /// appended after it (an empty or blank stylesheet is allowed).
    pub fn with_user_css(user_css: &str, path: std::path::PathBuf) -> (r: Self)
        ensures
            r.css@ == style::DEFAULT_THEME_CSS@ + seq!['\n'] + user_css@,
            r.source == (ThemeSource::Custom { path }),
    {
        let mut css = chars_of(default_theme_css());
        css.push('\n');
        let user = chars_of(user_css);
        crate::text::push_all(&mut css, &user);
        Theme {
            css: string_from_chars(&css),
            source: ThemeSource::Custom { path },
        }
    }
}

} // verus!
