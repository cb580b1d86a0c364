//! The bundled default theme.

use pydoc_gen::style::{default_theme_css, DEFAULT_THEME_CSS};
use pydoc_gen::theme::{Theme, ThemeSource};
use std::path::PathBuf;

#[test]
fn default_theme_is_non_empty() {
    assert!(
        !default_theme_css().trim().is_empty(),
        "the bundled default theme must not be empty"
    );
}

#[test]
fn bundled_file_is_the_authoring_source() {
    // The stylesheet that pages embed is the bundled one, unchanged.
    let page = pydoc_gen::html::wrap_page("t", "b", default_theme_css());
    assert!(page.contains(&format!("<style>\n{}\n</style>", DEFAULT_THEME_CSS)));
    assert!(DEFAULT_THEME_CSS.starts_with(":root {"));
}

#[test]
fn default_theme_css_is_consistent() {
    let theme = Theme::default_theme();
    assert!(theme.css.contains("prefers-color-scheme: dark"));
    assert!(theme.css.contains("--color-text"));
}

#[test]
fn default_theme_is_the_bundled_css() {
    let theme = Theme::default_theme();
    assert_eq!(theme.source, ThemeSource::Default);
    assert_eq!(theme.css, default_theme_css());
}

#[test]
fn user_css_is_appended_after_default() {
    let path = PathBuf::from("dir/user.css");
    let theme = Theme::with_user_css("/* marker */ .x { color: red; }\n", path.clone());
    assert_eq!(theme.source, ThemeSource::Custom { path });
    assert_eq!(
        theme.css,
        format!("{}\n/* marker */ .x {{ color: red; }}\n", default_theme_css())
    );
    let default_at = theme.css.find(":root").unwrap();
    let user_at = theme.css.find("/* marker */").unwrap();
    assert!(default_at < user_at, "user css must follow default");
}

#[test]
fn blank_user_css_is_allowed() {
    let theme = Theme::with_user_css("   \n", PathBuf::from("empty.css"));
    assert_eq!(theme.css, default_theme_css().to_owned() + "\n   \n");
}
