# pydoc-gen

Generates a static HTML documentation site for a Python source tree: an index
page and one page per module. Every
module, class and function is listed by its full import path; docstrings are
read as YAML (`description`, `args`, `returns`, `raises`), plain prose becomes
a description, and a malformed docstring becomes an error entry instead of
stopping the run.

```
pydoc-gen <input_dir> <output_dir> [--theme-path <user.css>]
```

## Layout

- `src/` — the library, written in Verus. Its own logic is proved against
  its contracts; the calls into `rustpython_parser`, `serde_yml`, `tera` and
  `std::path` are trusted wrappers with stated contracts.
  - `text`, `docstring` — character-level helpers and docstring dedenting.
  - `parser` — Python statements (from `rustpython_parser`) to raw elements.
  - `extract`, `tags` — docstring interpretation (YAML outcome, legacy tags).
  - `model`, `order` — the documented-element tree, path order, sorting, and
    the flat index by path, with their laws.
  - `path` — module import paths from file paths.
  - `html`, `index`, `style`, `theme` — module pages, the index page (with
    tera), and the stylesheet.
  - `pipeline` — the decisions of a run: skipped directories, building the
    project from parsed modules, stale pages.
  - `error` — fatal errors and their messages.
- `app/` — the command-line program: argument parsing, the file system, and
  YAML deserialization with serde.
- `tests/` — tests of the library.
