//! Extraction of documentation content from Python docstrings.
//!
//! A docstring's raw text is indented to match the enclosing block. This
//! module provides two normalizations:
//!
//! - [`docstring_text`]: PEP 257-style dedent that removes the common leading
//!   indentation while preserving relative indentation. YAML is
//!   indentation-sensitive, so this is the input used for YAML parsing.
//! - [`docstring_lines`]: line-based normalization (dedent + trim each line)
//!   used by the line-oriented tag parser.
//!
//! Indentation is measured in bytes of UTF-8 (as `str::len` does) and cut
//! in whole characters: where the common indentation would end inside a
//! multi-byte white-space character, that character is kept.
use vstd::prelude::*;
use crate::text::{
    self, byte_len_wide, chars_of, is_blank, join_chars, lead_bytes_wide, lines_chars,
    skip_bytes_wide, split_chars, string_from_chars, strings_from, sub_lines, trim_chars,
    trim_end_chars,
};

verus! {

/// The smaller of two naturals.
pub open spec fn min_nat(a: nat, b: nat) -> nat {
    if a < b {
        a
    } else {
        b
    }
}

/// The smallest leading-white-space width, in bytes, over the lines that are
/// not blank; `None` when every line is blank.
pub open spec fn min_indent(ls: Seq<Seq<char>>) -> Option<nat>
    decreases ls.len(),
{
    if ls.len() == 0 {
        None
    } else {
        let rest = min_indent(ls.drop_last());
        let l = ls.last();
        if text::all_ws(l) {
            rest
        } else {
            match rest {
                None => Some(text::lead_bytes(l)),
                Some(m) => Some(min_nat(text::lead_bytes(l), m)),
            }
        }
    }
}

/// The common indentation of `ls` (0 when every line is blank).
pub open spec fn indent_of(ls: Seq<Seq<char>>) -> nat {
    match min_indent(ls) {
        Some(m) => m,
        None => 0,
    }
}

/// One line of [`docstring_text`]: blank lines become empty; other lines
/// lose `min(leading, indent)` bytes.
pub open spec fn text_line(l: Seq<char>, indent: nat) -> Seq<char> {
    if text::all_ws(l) {
        seq![]
    } else {
        text::skip_bytes(l, min_nat(text::lead_bytes(l), indent))
    }
}

/// The lines that [`docstring_text`] works on.
pub open spec fn raw_text_lines(raw: Seq<char>) -> Seq<Seq<char>> {
    text::split(raw, '\n')
}

/// The lines of [`docstring_text`]: every line dedented, without the blank
/// lines at the front and at the back.
pub open spec fn dedent_text_lines(raw: Seq<char>) -> Seq<Seq<char>> {
    let ls = raw_text_lines(raw);
    let indent = indent_of(ls);
    strip_blank_edges(ls.map_values(|l: Seq<char>| text_line(l, indent)))
}

/// The value of [`docstring_text`]: its lines joined by line feeds, without
/// trailing white space.
pub open spec fn dedent_text(raw: Seq<char>) -> Seq<char> {
    text::trim_end(text::join(dedent_text_lines(raw), seq!['\n']))
}

/// Drops the blank lines at the front.
pub open spec fn strip_front(ls: Seq<Seq<char>>) -> Seq<Seq<char>>
    decreases ls.len(),
{
    if ls.len() > 0 && text::all_ws(ls[0]) {
        strip_front(ls.drop_first())
    } else {
        ls
    }
}

/// Drops the blank lines at the back.
pub open spec fn strip_back(ls: Seq<Seq<char>>) -> Seq<Seq<char>>
    decreases ls.len(),
{
    if ls.len() > 0 && text::all_ws(ls.last()) {
        strip_back(ls.drop_last())
    } else {
        ls
    }
}

/// Drops the leading and trailing blank lines.
pub open spec fn strip_blank_edges(ls: Seq<Seq<char>>) -> Seq<Seq<char>> {
    strip_back(strip_front(ls))
}

/// The lines that [`docstring_lines`] dedents: `raw.lines()` without blank
/// edges.
pub open spec fn raw_block_lines(raw: Seq<char>) -> Seq<Seq<char>> {
    strip_blank_edges(text::lines(raw))
}

/// One line of [`docstring_lines`].
pub open spec fn block_line(l: Seq<char>, indent: nat) -> Seq<char> {
    text::trim(text::skip_bytes(l, min_nat(text::byte_len(l), indent)))
}

/// The value of [`docstring_lines`].
pub open spec fn dedent_lines(raw: Seq<char>) -> Seq<Seq<char>> {
    let ls = raw_block_lines(raw);
    if ls.len() == 0 {
        ls
    } else {
        let indent = indent_of(ls);
        strip_blank_edges(ls.map_values(|l: Seq<char>| block_line(l, indent)))
    }
}

/// Dropping the blank lines at the front of all-blank lines leaves none.
proof fn lemma_strip_front_blank(ls: Seq<Seq<char>>)
    requires
        forall|k: int| 0 <= k < ls.len() ==> text::all_ws(#[trigger] ls[k]),
    ensures
        strip_front(ls).len() == 0,
    decreases ls.len(),
{
    if ls.len() > 0 {
        let t = ls.drop_first();
        assert(text::all_ws(ls[0]));
        assert forall|k: int| 0 <= k < t.len() implies text::all_ws(#[trigger] t[k]) by {
            assert(t[k] == ls[k + 1]);
        }
        lemma_strip_front_blank(t);
    }
}

/// A docstring of nothing but white space yields no text and no lines.
pub proof fn law_blank_docstring_yields_nothing(raw: Seq<char>)
    requires
        text::all_ws(raw),
    ensures
        dedent_text(raw).len() == 0,
        dedent_text_lines(raw).len() == 0,
        dedent_lines(raw).len() == 0,
{
    let ls = raw_text_lines(raw);
    text::lemma_split_blank(raw, '\n');
    let indent = indent_of(ls);
    let pieces = ls.map_values(|l: Seq<char>| text_line(l, indent));
    assert forall|k: int| 0 <= k < pieces.len() implies text::all_ws(#[trigger] pieces[k]) by {
        assert(text::all_ws(ls[k]));
        assert(pieces[k] == text_line(ls[k], indent));
    }
    lemma_strip_front_blank(pieces);
    assert(dedent_text_lines(raw).len() == 0);
    text::lemma_lines_blank(raw);
    lemma_strip_front_blank(text::lines(raw));
    assert(raw_block_lines(raw).len() == 0);
}

/// What `strip_front` keeps is a suffix whose first line is not blank.
proof fn lemma_strip_front_suffix(ls: Seq<Seq<char>>)
    ensures
        strip_front(ls).len() <= ls.len(),
        strip_front(ls) == ls.skip(ls.len() - strip_front(ls).len()),
        strip_front(ls).len() > 0 ==> !text::all_ws(strip_front(ls)[0]),
        forall|k: int| 0 <= k < ls.len() - strip_front(ls).len() ==> text::all_ws(#[trigger] ls[k]),
    decreases ls.len(),
{
    if ls.len() > 0 && text::all_ws(ls[0]) {
        lemma_strip_front_suffix(ls.drop_first());
        let r = strip_front(ls.drop_first());
        assert(ls.drop_first().skip(ls.drop_first().len() - r.len()) =~= ls.skip(
            ls.len() - r.len(),
        ));
        assert forall|k: int| 0 <= k < ls.len() - r.len() implies text::all_ws(#[trigger] ls[k]) by {
            if k > 0 {
                assert(ls[k] == ls.drop_first()[k - 1]);
            }
        }
    } else {
        assert(ls.skip(0) =~= ls);
    }
}

/// What `strip_back` keeps is a prefix whose last line is not blank.
proof fn lemma_strip_back_prefix(ls: Seq<Seq<char>>)
    ensures
        strip_back(ls).len() <= ls.len(),
        strip_back(ls) == ls.take(strip_back(ls).len() as int),
        strip_back(ls).len() > 0 ==> !text::all_ws(strip_back(ls).last()),
        forall|k: int| strip_back(ls).len() <= k < ls.len() ==> text::all_ws(#[trigger] ls[k]),
    decreases ls.len(),
{
    if ls.len() > 0 && text::all_ws(ls.last()) {
        lemma_strip_back_prefix(ls.drop_last());
        let r = strip_back(ls.drop_last());
        assert(ls.drop_last().take(r.len() as int) =~= ls.take(r.len() as int));
        assert forall|k: int| r.len() <= k < ls.len() implies text::all_ws(#[trigger] ls[k]) by {
            if k < ls.len() - 1 {
                assert(ls[k] == ls.drop_last()[k]);
            }
        }
    } else {
        assert(ls.take(ls.len() as int) =~= ls);
    }
}

/// `min_indent` is the least leading width over the lines that are not
/// blank, and is `None` exactly when every line is blank.
proof fn lemma_min_indent(ls: Seq<Seq<char>>)
    ensures
        min_indent(ls) is None <==> forall|k: int| 0 <= k < ls.len() ==> text::all_ws(#[trigger] ls[k]),
        min_indent(ls) matches Some(m) ==> (exists|k: int|
            0 <= k < ls.len() && !text::all_ws(#[trigger] ls[k]) && text::lead_bytes(ls[k]) == m)
            && forall|k: int|
            0 <= k < ls.len() && !text::all_ws(#[trigger] ls[k]) ==> m <= text::lead_bytes(ls[k]),
    decreases ls.len(),
{
    if ls.len() > 0 {
        let init = ls.drop_last();
        let n = ls.len() - 1;
        lemma_min_indent(init);
        assert forall|k: int| 0 <= k < init.len() implies #[trigger] init[k] == ls[k] by {}
        assert(ls.last() == ls[n]);
        let last = ls[n];
        if text::all_ws(last) {
            if min_indent(init) is Some {
                let m0 = min_indent(init)->0;
                let k0 = choose|k: int|
                    0 <= k < init.len() && !text::all_ws(#[trigger] init[k]) && text::lead_bytes(init[k]) == m0;
                assert(!text::all_ws(ls[k0]) && text::lead_bytes(ls[k0]) == m0);
                assert forall|k: int| 0 <= k < ls.len() && !text::all_ws(#[trigger] ls[k]) implies m0
                    <= text::lead_bytes(ls[k]) by {
                    assert(k < n);
                    assert(!text::all_ws(init[k]));
                }
            } else {
                assert forall|k: int| 0 <= k < ls.len() implies text::all_ws(#[trigger] ls[k]) by {
                    if k < n {
                        assert(text::all_ws(init[k]));
                    }
                }
            }
        } else {
            if min_indent(init) is Some {
                let m0 = min_indent(init)->0;
                let k0 = choose|k: int|
                    0 <= k < init.len() && !text::all_ws(#[trigger] init[k]) && text::lead_bytes(init[k]) == m0;
                assert(!text::all_ws(ls[k0]) && text::lead_bytes(ls[k0]) == m0);
                let mm = min_nat(text::lead_bytes(last), m0);
                assert(min_indent(ls) == Some(mm));
                assert forall|k: int| 0 <= k < ls.len() && !text::all_ws(#[trigger] ls[k]) implies mm
                    <= text::lead_bytes(ls[k]) by {
                    if k < n {
                        assert(!text::all_ws(init[k]));
                    }
                }
            } else {
                assert(min_indent(ls) == Some(text::lead_bytes(last)));
                assert forall|k: int| 0 <= k < ls.len() && !text::all_ws(#[trigger] ls[k]) implies text::lead_bytes(last)
                    <= text::lead_bytes(ls[k]) by {
                    if k < n {
                        assert(text::all_ws(init[k]));
                    }
                }
            }
            assert(!text::all_ws(ls[n]));
        }
    }
}

/// Every dedented line is free of line feeds; a blank one is empty, and a
/// line that is not blank stays so.
proof fn lemma_text_line_facts(l: Seq<char>, indent: nat)
    requires
        text::free_of(l, '\n'),
    ensures
        text::free_of(text_line(l, indent), '\n'),
        text::all_ws(text_line(l, indent)) ==> text_line(l, indent) == Seq::<char>::empty(),
        !text::all_ws(l) ==> !text::all_ws(text_line(l, indent)),
        !text::all_ws(l) && text::lead_bytes(l) == indent ==> text::lead_bytes(text_line(l, indent)) == 0,
{
    if !text::all_ws(l) {
        let b = min_nat(text::lead_bytes(l), indent);
        text::lemma_skip_bytes_lead(l, b);
        text::lemma_skip_bytes_free(l, b, '\n');
    } else {
        assert(text_line(l, indent) =~= Seq::<char>::empty());
    }
}

/// What the lines of [`docstring_text`] are like: free of line feeds, a
/// blank one empty, the first and the last not blank, one of them without
/// leading white space; and there are none exactly when the docstring is
/// nothing but white space.
proof fn lemma_text_lines(raw: Seq<char>)
    ensures
        forall|k: int|
            0 <= k < dedent_text_lines(raw).len() ==> text::free_of(
                #[trigger] dedent_text_lines(raw)[k],
                '\n',
            ),
        forall|k: int|
            0 <= k < dedent_text_lines(raw).len() && text::all_ws(#[trigger] dedent_text_lines(raw)[k])
                ==> dedent_text_lines(raw)[k] == Seq::<char>::empty(),
        dedent_text_lines(raw).len() > 0 ==> !text::all_ws(dedent_text_lines(raw)[0])
            && !text::all_ws(dedent_text_lines(raw).last()),
        dedent_text_lines(raw).len() > 0 ==> exists|k: int|
            0 <= k < dedent_text_lines(raw).len() && !text::all_ws(
                #[trigger] dedent_text_lines(raw)[k],
            ) && text::lead_bytes(dedent_text_lines(raw)[k]) == 0,
        dedent_text_lines(raw).len() == 0 <==> text::all_ws(raw),
{
    let ls = raw_text_lines(raw);
    let indent = indent_of(ls);
    let m = ls.map_values(|l: Seq<char>| text_line(l, indent));
    let big = dedent_text_lines(raw);
    text::lemma_split_free(raw, '\n');
    assert forall|k: int| 0 <= k < m.len() implies {
        &&& text::free_of(#[trigger] m[k], '\n')
        &&& text::all_ws(m[k]) ==> m[k] == Seq::<char>::empty()
        &&& !text::all_ws(ls[k]) ==> !text::all_ws(m[k])
        &&& !text::all_ws(ls[k]) && text::lead_bytes(ls[k]) == indent ==> text::lead_bytes(m[k]) == 0
    } by {
        assert(text::free_of(ls[k], '\n'));
        lemma_text_line_facts(ls[k], indent);
    }
    let f = strip_front(m);
    lemma_strip_front_suffix(m);
    lemma_strip_back_prefix(f);
    let off = m.len() - f.len();
    assert(big == strip_back(f));
    assert forall|k: int| 0 <= k < big.len() implies #[trigger] big[k] == m[off + k] by {
        assert(big[k] == f[k]);
        assert(f[k] == m[off + k]);
    }
    if big.len() > 0 {
        assert(big[0] == f[0]);
    }
    if text::all_ws(raw) {
        law_blank_docstring_yields_nothing(raw);
    } else {
        assert(text::is_ws('\n'));
        if forall|k: int| 0 <= k < ls.len() ==> text::all_ws(#[trigger] ls[k]) {
            text::lemma_split_all_blank(raw, '\n');
        }
        lemma_min_indent(ls);
        let k0 = choose|k: int|
            0 <= k < ls.len() && !text::all_ws(#[trigger] ls[k]) && text::lead_bytes(ls[k]) == indent;
        assert(!text::all_ws(m[k0]));
        assert(text::lead_bytes(m[k0]) == 0);
        assert(off <= k0) by {
            if k0 < off {
                assert(text::all_ws(m[k0]));
            }
        }
        assert(k0 < off + big.len()) by {
            if k0 >= off + big.len() {
                assert(f[k0 - off] == m[k0]);
                assert(text::all_ws(f[k0 - off]));
            }
        }
        assert(big[k0 - off] == m[k0]);
        assert(!text::all_ws(big[k0 - off]) && text::lead_bytes(big[k0 - off]) == 0);
        assert(big.len() > 0);
    }
}

/// `ls` with its last line's trailing white space removed.
pub open spec fn last_trimmed(ls: Seq<Seq<char>>) -> Seq<Seq<char>> {
    ls.update(ls.len() - 1, text::trim_end(ls.last()))
}

/// Removing the trailing white space of joined lines whose last line is not
/// blank removes that of the last line.
proof fn lemma_trim_join(ls: Seq<Seq<char>>)
    requires
        ls.len() > 0,
        !text::all_ws(ls.last()),
    ensures
        text::trim_end(text::join(ls, seq!['\n'])) == text::join(last_trimmed(ls), seq!['\n']),
{
    let l2 = last_trimmed(ls);
    if ls.len() == 1 {
        assert(l2[0] == text::trim_end(ls[0]));
    } else {
        let x = text::join(ls.drop_last(), seq!['\n']) + seq!['\n'];
        text::lemma_trim_end_concat(x, ls.last());
        assert(l2.drop_last() =~= ls.drop_last());
        assert(l2.last() == text::trim_end(ls.last()));
    }
}

/// Dedenting is idempotent: dedenting the text of a docstring again gives
/// that text back.
pub proof fn law_docstring_text_is_idempotent(raw: Seq<char>)
    ensures
        dedent_text(dedent_text(raw)) == dedent_text(raw),
{
    let big = dedent_text_lines(raw);
    let r = dedent_text(raw);
    lemma_text_lines(raw);
    if big.len() == 0 {
        assert(r == Seq::<char>::empty());
        let e = Seq::<char>::empty();
        assert(text::first_index(e, '\n') == 0);
        assert(raw_text_lines(e) =~= seq![e]);
        assert(seq![e][0] == e);
        assert(text::all_ws(e));
        assert(min_indent(seq![e].drop_last()) is None);
        assert(indent_of(seq![e]) == 0);
        let m2 = seq![e].map_values(|l: Seq<char>| text_line(l, 0));
        assert(m2 =~= seq![e]);
        assert(strip_front(m2.drop_first()) == m2.drop_first());
        assert(strip_front(m2).len() == 0);
        assert(dedent_text_lines(e).len() == 0);
    } else {
        let n = big.len() - 1;
        let l2 = last_trimmed(big);
        lemma_trim_join(big);
        assert(r == text::join(l2, seq!['\n']));
        text::lemma_trim_end_content(big.last());
        text::lemma_trim_end_prefix(big.last());
        let tl = text::trim_end(big.last());
        assert(l2[n] == tl);
        assert(big.last() == big[n]);
        assert forall|k: int| 0 <= k < l2.len() implies text::free_of(#[trigger] l2[k], '\n') by {
            if k == n {
                assert(text::free_of(big[n], '\n'));
                assert forall|i: int| 0 <= i < tl.len() implies #[trigger] tl[i] != '\n' by {
                    assert(tl[i] == big[n][i]);
                }
            } else {
                assert(l2[k] == big[k]);
            }
        }
        // The lines of `r` are those of `l2`.
        text::lemma_split_join(l2, '\n');
        assert(raw_text_lines(r) == l2);
        // The least indentation of `l2` is 0.
        let k0 = choose|k: int|
            0 <= k < big.len() && !text::all_ws(#[trigger] big[k]) && text::lead_bytes(big[k]) == 0;
        assert(!text::all_ws(l2[k0]) && text::lead_bytes(l2[k0]) == 0) by {
            if k0 != n {
                assert(l2[k0] == big[k0]);
            }
        }
        lemma_min_indent(l2);
        assert(indent_of(l2) == 0);
        // Dedenting `l2` by nothing changes no line.
        let m2 = l2.map_values(|l: Seq<char>| text_line(l, 0));
        assert forall|k: int| 0 <= k < l2.len() implies #[trigger] m2[k] == l2[k] by {
            if k != n {
                assert(l2[k] == big[k]);
            }
            if !text::all_ws(l2[k]) {
                assert(text::skip_bytes(l2[k], 0) == l2[k]);
            }
        }
        assert(m2 =~= l2);
        assert(!text::all_ws(l2[0])) by {
            if n != 0 {
                assert(l2[0] == big[0]);
            }
        }
        assert(l2.last() == tl);
        assert(strip_front(l2) == l2);
        assert(strip_back(l2) == l2);
        assert(dedent_text_lines(r) == l2);
        // `r` ends with the last character of `tl`, which is not white space.
        let j = text::join(l2, seq!['\n']);
        if n == 0 {
            assert(j == tl);
        } else {
            assert(j == text::join(l2.drop_last(), seq!['\n']) + seq!['\n'] + tl);
        }
        assert(j.last() == tl.last());
        text::lemma_trim_end_kept(j);
    }
}

/// The text of a docstring is empty exactly when the docstring is nothing
/// but white space; otherwise it ends with a character that is not white
/// space, and its first and last lines are not blank.
pub proof fn law_docstring_text_edges(raw: Seq<char>)
    ensures
        dedent_text(raw).len() == 0 <==> text::all_ws(raw),
        dedent_text(raw).len() > 0 ==> !text::is_ws(dedent_text(raw).last()),
        dedent_text_lines(raw).len() > 0 ==> !text::all_ws(dedent_text_lines(raw)[0]) && !text::all_ws(
            dedent_text_lines(raw).last(),
        ),
{
    let big = dedent_text_lines(raw);
    lemma_text_lines(raw);
    if big.len() > 0 {
        let n = big.len() - 1;
        let l2 = last_trimmed(big);
        lemma_trim_join(big);
        text::lemma_trim_end_content(big.last());
        let tl = text::trim_end(big.last());
        assert(l2[n] == tl);
        let j = text::join(l2, seq!['\n']);
        if n == 0 {
            assert(j == tl);
        } else {
            assert(j == text::join(l2.drop_last(), seq!['\n']) + seq!['\n'] + tl);
        }
        assert(tl.len() > 0);
        assert(j.last() == tl.last());
    }
}

/// The lines of a docstring come out trimmed: none starts or ends with
/// white space, and neither the first nor the last is empty.
pub proof fn law_docstring_lines_are_trimmed(raw: Seq<char>)
    ensures
        forall|k: int|
            0 <= k < dedent_lines(raw).len() ==> text::is_trimmed(#[trigger] dedent_lines(raw)[k]),
        dedent_lines(raw).len() > 0 ==> dedent_lines(raw)[0].len() > 0 && dedent_lines(
            raw,
        ).last().len() > 0,
{
    let ls = raw_block_lines(raw);
    if ls.len() == 0 {
    } else {
        let indent = indent_of(ls);
        let m = ls.map_values(|l: Seq<char>| block_line(l, indent));
        let f = strip_front(m);
        let r = strip_back(f);
        lemma_strip_front_suffix(m);
        lemma_strip_back_prefix(f);
        let off = m.len() - f.len();
        assert forall|k: int| 0 <= k < r.len() implies text::is_trimmed(#[trigger] r[k]) by {
            assert(r[k] == f[k]);
            assert(f[k] == m[off + k]);
            assert(m[off + k] == block_line(ls[off + k], indent));
            text::lemma_trim_trimmed(text::skip_bytes(
                ls[off + k],
                min_nat(text::byte_len(ls[off + k]), indent),
            ));
        }
        if r.len() > 0 {
            assert(r[0] == f[0]);
            assert(!text::all_ws(r[0]));
            assert(!text::all_ws(r.last()));
        }
    }
}

/// The common indentation of the lines of `ls`.
pub fn indent_wide(ls: &Vec<Vec<char>>) -> (n: u128)
    ensures
        n == indent_of(text::char_views(ls@)),
{
    let ghost views = text::char_views(ls@);
    let mut found = false;
    let mut n: u128 = 0;
    let mut i: usize = 0;
    while i < ls.len()
        invariant
            i <= ls.len(),
            views == text::char_views(ls@),
            min_indent(views.take(i as int)) == (if found {
                Some(n as nat)
            } else {
                None::<nat>
            }),
        decreases ls.len() - i,
    {
        assert(views.take(i + 1).drop_last() =~= views.take(i as int));
        assert(views.take(i + 1).last() == ls@[i as int]@);
        if !is_blank(&ls[i]) {
            let lb = lead_bytes_wide(&ls[i]);
            if !found || lb < n {
                n = lb;
            }
            found = true;
        }
        i += 1;
    }
    assert(views.take(ls.len() as int) =~= views);
    if found {
        n
    } else {
        0
    }
}

/// Dedent a docstring's raw text while preserving relative indentation
/// (PEP 257), returning the text passed to the YAML parser.
///
/// - Removes a common leading indentation across non-blank lines, leaving any
///   extra indentation (e.g. nested YAML lists/mappings) intact.
/// - Blank/whitespace-only lines become empty lines.
/// - Leading/trailing blank lines are trimmed.
///
/// Returns an empty string for a docstring with no meaningful lines.
pub fn docstring_text(raw: &str) -> (r: String)
    ensures
        r@ == dedent_text(raw@),
{
    let chars = chars_of(raw);
    let ls = split_chars(&chars, '\n');
    let ghost views = text::char_views(ls@);
    let indent = indent_wide(&ls);
    let ghost target = views.map_values(|l: Seq<char>| text_line(l, indent as nat));
    let mut out: Vec<Vec<char>> = Vec::new();
    let mut i: usize = 0;
    while i < ls.len()
        invariant
            i <= ls.len(),
            views == text::char_views(ls@),
            views == raw_text_lines(raw@),
            indent == indent_of(views),
            target == views.map_values(|l: Seq<char>| text_line(l, indent as nat)),
            text::char_views(out@) == target.take(i as int),
        decreases ls.len() - i,
    {
        let line = &ls[i];
        assert(line@ == views[i as int]);
        let piece = if is_blank(line) {
            Vec::new()
        } else {
            let lb = lead_bytes_wide(line);
            let cut = if lb < indent {
                lb
            } else {
                indent
            };
            skip_bytes_wide(line, cut)
        };
        let ghost prev = out@;
        out.push(piece);
        assert(text::char_views(out@) =~= text::char_views(prev).push(piece@));
        assert(target.take(i + 1) =~= target.take(i as int).push(target[i as int]));
        i += 1;
    }
    assert(target.take(ls.len() as int) =~= target);
    let (a, b) = blank_edges(&out);
    let kept = sub_lines(&out, a, b);
    let sep = vec!['\n'];
    assert(sep@ =~= seq!['\n']);
    let joined = join_chars(&kept, &sep);
    let trimmed = trim_end_chars(&joined);
    string_from_chars(&trimmed)
}

/// The bounds `a..b` of `ls` once its blank edge lines are dropped.
fn blank_edges(ls: &Vec<Vec<char>>) -> (ab: (usize, usize))
    ensures
        ab.0 <= ab.1 <= ls.len(),
        text::char_views(ls@).subrange(ab.0 as int, ab.1 as int) == strip_blank_edges(
            text::char_views(ls@),
        ),
{
    let ghost views = text::char_views(ls@);
    let mut a: usize = 0;
    assert(views.skip(0) =~= views);
    while a < ls.len() && is_blank(&ls[a])
        invariant
            a <= ls.len(),
            views == text::char_views(ls@),
            strip_front(views.skip(a as int)) == strip_front(views),
        decreases ls.len() - a,
    {
        assert(views.skip(a as int).drop_first() =~= views.skip(a + 1));
        assert(views.skip(a as int)[0] == ls@[a as int]@);
        a += 1;
    }
    if a < ls.len() {
        assert(views.skip(a as int)[0] == ls@[a as int]@);
    }
    assert(strip_front(views.skip(a as int)) == views.skip(a as int));
    assert(views.skip(a as int) =~= views.subrange(a as int, ls.len() as int));
    let mut b: usize = ls.len();
    while b > a && is_blank(&ls[b - 1])
        invariant
            a <= b <= ls.len(),
            views == text::char_views(ls@),
            strip_back(views.subrange(a as int, b as int)) == strip_back(
                views.subrange(a as int, ls.len() as int),
            ),
        decreases b - a,
    {
        assert(views.subrange(a as int, b as int).drop_last() =~= views.subrange(a as int, b - 1));
        assert(views.subrange(a as int, b as int).last() == ls@[b - 1]@);
        b -= 1;
    }
    if b > a {
        assert(views.subrange(a as int, b as int).last() == ls@[b - 1]@);
    }
    (a, b)
}

/// Split a docstring's raw text into cleaned, dedented, non-blank-edge lines.
///
/// - Removes a common leading indentation across lines (PEP 257).
/// - Drops leading/trailing blank lines and strips each line's leading/trailing
///   whitespace.
///
/// Returns an empty vector for a docstring with no meaningful lines.
pub fn docstring_lines(raw: &str) -> (r: Vec<String>)
    ensures
        text::string_views(r@) == dedent_lines(raw@),
{
    let chars = chars_of(raw);
    let all = lines_chars(&chars);
    let (a, b) = blank_edges(&all);
    let ls = sub_lines(&all, a, b);
    let ghost views = text::char_views(ls@);
    assert(views == raw_block_lines(raw@));
    if ls.len() == 0 {
        let r: Vec<String> = Vec::new();
        assert(text::string_views(r@) =~= views);
        return r;
    }
    let indent = indent_wide(&ls);
    let ghost target = views.map_values(|l: Seq<char>| block_line(l, indent as nat));
    let mut out: Vec<Vec<char>> = Vec::new();
    let mut i: usize = 0;
    while i < ls.len()
        invariant
            i <= ls.len(),
            views == text::char_views(ls@),
            views == raw_block_lines(raw@),
            indent == indent_of(views),
            target == views.map_values(|l: Seq<char>| block_line(l, indent as nat)),
            text::char_views(out@) == target.take(i as int),
        decreases ls.len() - i,
    {
        let line = &ls[i];
        assert(line@ == views[i as int]);
        let len = byte_len_wide(line);
        let cut = if len < indent {
            len
        } else {
            indent
        };
        let rest = skip_bytes_wide(line, cut);
        let piece = trim_chars(&rest);
        let ghost prev = out@;
        out.push(piece);
        assert(text::char_views(out@) =~= text::char_views(prev).push(piece@));
        assert(target.take(i + 1) =~= target.take(i as int).push(target[i as int]));
        i += 1;
    }
    assert(target.take(ls.len() as int) =~= target);
    let (c, d) = blank_edges(&out);
    let kept = sub_lines(&out, c, d);
    strings_from(&kept)
}

} // verus!
