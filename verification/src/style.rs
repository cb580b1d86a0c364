//! Styling: the default theme of the generated site.
//!
//! The default theme is inlined into every generated page so the output
//! stays self-contained and offline-capable. Design tokens are CSS custom
//! properties on `:root`; dark mode replaces the same tokens inside
//! `@media (prefers-color-scheme: dark)`. A user theme is appended after it
//! and may override any token.
use vstd::prelude::*;

verus! {

/// The default-theme stylesheet (light and dark palettes).
pub const DEFAULT_THEME_CSS: &'static str = ":root {
  --color-bg: #ffffff;
  --color-surface: #f6f8fa;
  --color-text: #1f2328;
  --color-muted: #59636e;
  --color-accent: #0550ae;
  --color-border: #d1d9e0;
  --color-code-bg: #eff2f5;
  --color-error: #b42318;
  --font-body: system-ui, -apple-system, \"Segoe UI\", Roboto, sans-serif;
  --font-mono: ui-monospace, SFMono-Regular, Menlo, Consolas, monospace;
}

@media (prefers-color-scheme: dark) {
  :root {
    --color-bg: #0d1117;
    --color-surface: #161b22;
    --color-text: #e6edf3;
    --color-muted: #9198a1;
    --color-accent: #4493f8;
    --color-border: #3d444d;
    --color-code-bg: #262c36;
    --color-error: #ff7b72;
  }
}

* {
  box-sizing: border-box;
}

body {
  margin: 0 auto;
  max-width: 60rem;
  padding: 1.5rem 1rem 3rem;
  background: var(--color-bg);
  color: var(--color-text);
  font-family: var(--font-body);
  line-height: 1.6;
  overflow-wrap: anywhere;
}

h1, h2, h3, h4 {
  line-height: 1.25;
  margin: 1.5rem 0 0.5rem;
}

h4 {
  color: var(--color-muted);
  font-size: 0.85rem;
  letter-spacing: 0.04em;
  text-transform: uppercase;
}

a {
  color: var(--color-accent);
  text-decoration: none;
}

a:hover, a:focus {
  text-decoration: underline;
}

code {
  background: var(--color-code-bg);
  border-radius: 4px;
  font-family: var(--font-mono);
  font-size: 0.9em;
  padding: 0.1em 0.35em;
}

hr {
  border: 0;
  border-top: 1px solid var(--color-border);
  margin: 1rem 0;
}

section {
  border-left: 2px solid var(--color-border);
  margin: 1rem 0;
  padding-left: 1rem;
}

.nav {
  margin: 0;
}

.element {
  color: var(--color-accent);
}

.kind {
  background: var(--color-surface);
  border: 1px solid var(--color-border);
  border-radius: 999px;
  color: var(--color-muted);
  font-size: 0.75rem;
  font-weight: 600;
  margin-right: 0.4rem;
  padding: 0.1rem 0.55rem;
  vertical-align: middle;
}

.path {
  color: var(--color-muted);
  margin: 0 0 0.5rem;
}

.description {
  margin: 0.5rem 0;
}

.undocumented {
  color: var(--color-muted);
  font-style: italic;
}

.error {
  border-left: 3px solid var(--color-error);
  color: var(--color-error);
  padding-left: 0.6rem;
}

table {
  border-collapse: collapse;
  width: 100%;
}

tr {
  border-bottom: 1px solid var(--color-border);
}

td {
  padding: 0.35rem 0.5rem;
  vertical-align: top;
}

ul {
  padding-left: 1.25rem;
}

li {
  margin: 0.25rem 0;
}
";

/// The default-theme stylesheet, bundled into the library.
pub fn default_theme_css() -> (r: &'static str)
    ensures
        r@ == DEFAULT_THEME_CSS@,
{
    DEFAULT_THEME_CSS
}

} // verus!
