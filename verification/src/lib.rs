//! pydoc-gen: HTML documentation for Python source trees.
//!
//! The pipeline parses Python source with `rustpython_parser`, interprets
//! docstrings (YAML, plain prose, or the legacy `@`-tags), builds a tree of
//! documented elements keyed by full import path, and renders it as HTML.
//! The library's own logic is verified against its contracts; the calls into
//! `rustpython_parser`, `serde_yml`, `tera` and `std::path` sit behind a few
//! trusted wrappers whose contracts say what those calls give. The laws of
//! the element order, the index, sorting, dedenting, escaping and stale-page
//! removal are proof functions of their modules.
pub mod text;
pub mod docstring;
pub mod model;
pub mod order;
pub mod tags;
pub mod html;
pub mod style;
pub mod theme;
pub mod path;
pub mod error;
pub mod parser;
pub mod extract;
pub mod index;
pub mod pipeline;
