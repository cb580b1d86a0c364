//! Character-level text utilities shared by the docstring, tag, and HTML
//! stages. Strings are modelled by their `Seq<char>` views; the executable
//! helpers work on `Vec<char>` buffers and convert back to `String` at the
//! end.
use vstd::prelude::*;

verus! {

/// Rust's `char::is_whitespace`: the Unicode `White_Space` property.
pub open spec fn is_ws(c: char) -> bool {
    ||| ('\u{9}' <= c && c <= '\u{d}')
    ||| c == ' '
    ||| c == '\u{85}'
    ||| c == '\u{a0}'
    ||| c == '\u{1680}'
    ||| ('\u{2000}' <= c && c <= '\u{200a}')
    ||| c == '\u{2028}'
    ||| c == '\u{2029}'
    ||| c == '\u{202f}'
    ||| c == '\u{205f}'
    ||| c == '\u{3000}'
}

/// Whether `c` is Unicode white space.
pub fn is_whitespace(c: char) -> (r: bool)
    ensures
        r == is_ws(c),
{
    ('\u{9}' <= c && c <= '\u{d}') || c == ' ' || c == '\u{85}' || c == '\u{a0}' || c
        == '\u{1680}' || ('\u{2000}' <= c && c <= '\u{200a}') || c == '\u{2028}' || c
        == '\u{2029}' || c == '\u{202f}' || c == '\u{205f}' || c == '\u{3000}'
}

/// Every character of `s` is white space (`s.trim().is_empty()`).
pub open spec fn all_ws(s: Seq<char>) -> bool {
    forall|i: int| 0 <= i < s.len() ==> is_ws(#[trigger] s[i])
}

/// `str::trim_start`.
pub open spec fn trim_start(s: Seq<char>) -> Seq<char>
    decreases s.len(),
{
    if s.len() > 0 && is_ws(s[0]) {
        trim_start(s.drop_first())
    } else {
        s
    }
}

/// `str::trim_end`.
pub open spec fn trim_end(s: Seq<char>) -> Seq<char>
    decreases s.len(),
{
    if s.len() > 0 && is_ws(s.last()) {
        trim_end(s.drop_last())
    } else {
        s
    }
}

/// `str::trim`.
pub open spec fn trim(s: Seq<char>) -> Seq<char> {
    trim_end(trim_start(s))
}

/// The number of bytes of the UTF-8 encoding of `c` (`char::len_utf8`).
pub open spec fn char_width(c: char) -> nat {
    if (c as u32) < 0x80 {
        1
    } else if (c as u32) < 0x800 {
        2
    } else if (c as u32) < 0x10000 {
        3
    } else {
        4
    }
}

/// The number of bytes of the UTF-8 encoding of `s` (`str::len`).
pub open spec fn byte_len(s: Seq<char>) -> nat
    decreases s.len(),
{
    if s.len() == 0 {
        0
    } else {
        char_width(s[0]) + byte_len(s.drop_first())
    }
}

/// The byte length of the leading white space of `s`
/// (`s.len() - s.trim_start().len()`).
pub open spec fn lead_bytes(s: Seq<char>) -> nat
    decreases s.len(),
{
    if s.len() > 0 && is_ws(s[0]) {
        char_width(s[0]) + lead_bytes(s.drop_first())
    } else {
        0
    }
}


/// The suffix of `s` after its first `b` bytes, taken in whole characters
/// (`&s[b..]` when `b` is a character boundary; a character that `b` would
/// cut is kept).
pub open spec fn skip_bytes(s: Seq<char>, b: nat) -> Seq<char>
    decreases s.len(),
{
    if b == 0 || s.len() == 0 {
        s
    } else if char_width(s[0]) <= b {
        skip_bytes(s.drop_first(), (b - char_width(s[0])) as nat)
    } else {
        s
    }
}

/// Index of the first occurrence of `c` in `s`, or `s.len()`.
pub open spec fn first_index(s: Seq<char>, c: char) -> nat
    decreases s.len(),
{
    if s.len() == 0 {
        0
    } else if s[0] == c {
        0
    } else {
        1 + first_index(s.drop_first(), c)
    }
}

/// `s.split(sep)`: the pieces between occurrences of `sep`.
pub open spec fn split(s: Seq<char>, sep: char) -> Seq<Seq<char>>
    decreases s.len(),
{
    let i = first_index(s, sep);
    if i >= s.len() {
        seq![s]
    } else {
        seq![s.take(i as int)] + split(s.skip(i as int + 1), sep)
    }
}

/// Drops one trailing carriage return.
pub open spec fn strip_cr(s: Seq<char>) -> Seq<char> {
    if s.len() > 0 && s.last() == '\r' {
        s.drop_last()
    } else {
        s
    }
}

/// `str::lines`: split at `\n` (dropping a `\r` before it); a final line
/// ending does not start an empty line.
pub open spec fn lines(s: Seq<char>) -> Seq<Seq<char>>
    decreases s.len(),
{
    if s.len() == 0 {
        seq![]
    } else {
        let i = first_index(s, '\n');
        if i >= s.len() {
            seq![s]
        } else {
            seq![strip_cr(s.take(i as int))] + lines(s.skip(i as int + 1))
        }
    }
}

/// `pieces.join(sep)`.
pub open spec fn join(pieces: Seq<Seq<char>>, sep: Seq<char>) -> Seq<char>
    decreases pieces.len(),
{
    if pieces.len() == 0 {
        seq![]
    } else if pieces.len() == 1 {
        pieces[0]
    } else {
        join(pieces.drop_last(), sep) + sep + pieces.last()
    }
}

/// The characters of a string.
pub fn chars_of(s: &str) -> (v: Vec<char>)
    ensures
        v@ == s@,
{
    let mut v: Vec<char> = Vec::new();
    for c in it: s.chars()
        invariant
            it.seq() == s@,
            v@ == it.seq().take(it.index() as int),
    {
        v.push(c);
    }
    v
}


/// `trim_start` removes exactly the leading white space.
pub proof fn lemma_trim_start_blank(s: Seq<char>)
    ensures
        (trim_start(s).len() == 0) == all_ws(s),
        trim_start(s).len() > 0 ==> !is_ws(trim_start(s)[0]),
        trim_end(Seq::<char>::empty()) == Seq::<char>::empty(),
    decreases s.len(),
{
    if s.len() > 0 && is_ws(s[0]) {
        lemma_trim_start_blank(s.drop_first());
        if all_ws(s.drop_first()) {
            assert forall|i: int| 0 <= i < s.len() implies is_ws(#[trigger] s[i]) by {
                if i > 0 {
                    assert(s[i] == s.drop_first()[i - 1]);
                }
            }
        } else {
            let j = choose|j: int| 0 <= j < s.drop_first().len() && !is_ws(#[trigger] s.drop_first()[j]);
            assert(s[j + 1] == s.drop_first()[j]);
        }
    } else if s.len() > 0 {
        assert(!is_ws(s[0]));
    }
}


/// `trim_end` keeps a non-white-space first character.
pub proof fn lemma_trim_end_keeps_first(t: Seq<char>)
    requires
        t.len() > 0,
        !is_ws(t[0]),
    ensures
        trim_end(t).len() > 0,
        trim_end(t)[0] == t[0],
    decreases t.len(),
{
    if is_ws(t.last()) {
        assert(t.len() > 1);
        lemma_trim_end_keeps_first(t.drop_last());
    }
}

/// A copy of `s[a..b]`.
pub fn sub_chars(s: &Vec<char>, a: usize, b: usize) -> (v: Vec<char>)
    requires
        a <= b <= s.len(),
    ensures
        v@ == s@.subrange(a as int, b as int),
{
    let mut v: Vec<char> = Vec::new();
    let mut i = a;
    while i < b
        invariant
            a <= i <= b <= s.len(),
            v@ == s@.subrange(a as int, i as int),
        decreases b - i,
    {
        v.push(s[i]);
        i += 1;
    }
    v
}

/// Index just past the leading white space of `s[a..]`.
pub fn skip_ws(s: &Vec<char>, a: usize) -> (k: usize)
    requires
        a <= s.len(),
    ensures
        a <= k <= s.len(),
        s@.skip(k as int) == trim_start(s@.skip(a as int)),
        forall|i: int| a <= i < k ==> is_ws(#[trigger] s@[i]),
        k < s.len() ==> !is_ws(s@[k as int]),
{
    let mut k = a;
    while k < s.len() && is_whitespace(s[k])
        invariant
            a <= k <= s.len(),
            trim_start(s@.skip(k as int)) == trim_start(s@.skip(a as int)),
            forall|i: int| a <= i < k ==> is_ws(#[trigger] s@[i]),
        decreases s.len() - k,
    {
        assert(s@.skip(k as int).drop_first() =~= s@.skip(k + 1));
        k += 1;
    }
    k
}

/// Index of the end of `s[a..b]` once its trailing white space is removed.
pub fn skip_ws_back(s: &Vec<char>, a: usize, b: usize) -> (k: usize)
    requires
        a <= b <= s.len(),
    ensures
        a <= k <= b,
        s@.subrange(a as int, k as int) == trim_end(s@.subrange(a as int, b as int)),
        forall|i: int| k <= i < b ==> is_ws(#[trigger] s@[i]),
{
    let mut k = b;
    while k > a && is_whitespace(s[k - 1])
        invariant
            a <= k <= b <= s.len(),
            trim_end(s@.subrange(a as int, k as int)) == trim_end(s@.subrange(a as int, b as int)),
            forall|i: int| k <= i < b ==> is_ws(#[trigger] s@[i]),
        decreases k - a,
    {
        assert(s@.subrange(a as int, k as int).drop_last() =~= s@.subrange(a as int, k - 1));
        k -= 1;
    }
    k
}

/// `s.trim()` on a character buffer.
pub fn trim_chars(s: &Vec<char>) -> (v: Vec<char>)
    ensures
        v@ == trim(s@),
{
    let a = skip_ws(s, 0);
    let b = skip_ws_back(s, a, s.len());
    assert(s@.skip(0) =~= s@);
    assert(s@.skip(a as int) =~= s@.subrange(a as int, s.len() as int));
    sub_chars(s, a, b)
}

/// `s.trim_end()` on a character buffer.
pub fn trim_end_chars(s: &Vec<char>) -> (v: Vec<char>)
    ensures
        v@ == trim_end(s@),
{
    let b = skip_ws_back(s, 0, s.len());
    assert(s@.subrange(0, s.len() as int) =~= s@);
    sub_chars(s, 0, b)
}

/// Whether every character of `s` is white space.
pub fn is_blank(s: &Vec<char>) -> (r: bool)
    ensures
        r == all_ws(s@),
{
    let k = skip_ws(s, 0);
    if k < s.len() {
        assert(!is_ws(s@[k as int]));
        false
    } else {
        true
    }
}

/// The string holding the given characters.
///
/// Trusted: collecting `char`s into a `String` (`FromIterator<&char>` for
/// `String`) gives the string of exactly those characters, in order.
#[verifier::external_body]
pub(crate) fn string_from_chars(v: &Vec<char>) -> (r: String)
    ensures
        r@ == v@,
{
    v.iter().collect()
}

/// `s.trim().to_string()`.
pub fn trim_str(s: &str) -> (r: String)
    ensures
        r@ == trim(s@),
{
    let v = chars_of(s);
    let t = trim_chars(&v);
    string_from_chars(&t)
}


/// The views of a list of character buffers.
pub open spec fn char_views(v: Seq<Vec<char>>) -> Seq<Seq<char>> {
    v.map_values(|x: Vec<char>| x@)
}

/// The views of a list of strings.
pub open spec fn string_views(v: Seq<String>) -> Seq<Seq<char>> {
    v.map_values(|x: String| x@)
}

/// `first_index` is the position of the first occurrence.
pub proof fn lemma_first_index(s: Seq<char>, c: char, k: int)
    requires
        0 <= k <= s.len(),
        k < s.len() ==> s[k] == c,
        forall|i: int| 0 <= i < k ==> s[i] != c,
    ensures
        first_index(s, c) == k,
    decreases s.len(),
{
    if s.len() > 0 && k > 0 {
        assert forall|i: int| 0 <= i < k - 1 implies s.drop_first()[i] != c by {
            assert(s[i + 1] != c);
        }
        lemma_first_index(s.drop_first(), c, k - 1);
    }
}

/// `c` does not occur in `s`.
pub open spec fn free_of(s: Seq<char>, c: char) -> bool {
    forall|i: int| 0 <= i < s.len() ==> #[trigger] s[i] != c
}

/// `first_index` finds the first occurrence, if any.
pub proof fn lemma_first_index_found(s: Seq<char>, c: char)
    ensures
        first_index(s, c) <= s.len(),
        forall|i: int| 0 <= i < first_index(s, c) ==> #[trigger] s[i] != c,
        first_index(s, c) < s.len() ==> s[first_index(s, c) as int] == c,
    decreases s.len(),
{
    if s.len() > 0 && s[0] != c {
        lemma_first_index_found(s.drop_first(), c);
        assert forall|i: int| 0 <= i < first_index(s, c) implies #[trigger] s[i] != c by {
            if i > 0 {
                assert(s[i] == s.drop_first()[i - 1]);
            }
        }
    }
}

/// No piece of `split(s, sep)` holds `sep`.
pub proof fn lemma_split_free(s: Seq<char>, sep: char)
    ensures
        forall|k: int| 0 <= k < split(s, sep).len() ==> free_of(#[trigger] split(s, sep)[k], sep),
    decreases s.len(),
{
    lemma_first_index_found(s, sep);
    let i = first_index(s, sep);
    let r = split(s, sep);
    if i < s.len() {
        lemma_split_free(s.skip(i as int + 1), sep);
        assert forall|k: int| 0 <= k < r.len() implies free_of(#[trigger] r[k], sep) by {
            if k > 0 {
                assert(r[k] == split(s.skip(i as int + 1), sep)[k - 1]);
            } else {
                let t = s.take(i as int);
                assert(r[0] == t);
                assert forall|j: int| 0 <= j < t.len() implies #[trigger] t[j] != sep by {
                    assert(t[j] == s[j]);
                }
            }
        }
    } else {
        assert(r[0] == s);
    }
}

/// Joining at least two pieces puts the first, then the separator, then
/// the join of the rest.
pub proof fn lemma_join_front(ls: Seq<Seq<char>>, d: Seq<char>)
    requires
        ls.len() >= 2,
    ensures
        join(ls, d) == ls[0] + d + join(ls.drop_first(), d),
    decreases ls.len(),
{
    if ls.len() == 2 {
        assert(ls.drop_last().len() == 1);
        assert(ls.drop_first().len() == 1);
        assert(ls.drop_first()[0] == ls[1]);
        assert(ls.drop_last()[0] == ls[0]);
        assert(join(ls.drop_last(), d) == ls[0]);
        assert(join(ls.drop_first(), d) == ls[1]);
        assert(ls.last() == ls[1]);
    } else {
        let dl = ls.drop_last();
        lemma_join_front(dl, d);
        assert(dl.drop_first() =~= ls.drop_first().drop_last());
        assert(ls.drop_first().last() == ls.last());
        assert(dl[0] == ls[0]);
        assert(join(ls, d) =~= ls[0] + d + join(ls.drop_first(), d));
    }
}

/// Splitting the join of pieces free of the separator gives the pieces back.
pub proof fn lemma_split_join(ls: Seq<Seq<char>>, sep: char)
    requires
        ls.len() > 0,
        forall|k: int| 0 <= k < ls.len() ==> free_of(#[trigger] ls[k], sep),
    ensures
        split(join(ls, seq![sep]), sep) == ls,
    decreases ls.len(),
{
    let x = ls[0];
    assert(free_of(x, sep));
    if ls.len() == 1 {
        lemma_first_index(x, sep, x.len() as int);
        assert(split(x, sep) =~= ls);
    } else {
        let rest = ls.drop_first();
        assert forall|k: int| 0 <= k < rest.len() implies free_of(#[trigger] rest[k], sep) by {
            assert(rest[k] == ls[k + 1]);
        }
        lemma_split_join(rest, sep);
        lemma_join_front(ls, seq![sep]);
        let t = join(rest, seq![sep]);
        let whole = x + seq![sep] + t;
        assert(whole[x.len() as int] == sep);
        assert forall|i: int| 0 <= i < x.len() implies whole[i] != sep by {
            assert(whole[i] == x[i]);
        }
        lemma_first_index(whole, sep, x.len() as int);
        assert(whole.take(x.len() as int) =~= x);
        assert(whole.skip(x.len() as int + 1) =~= t);
        assert(split(whole, sep) =~= seq![x] + rest);
    }
}

/// Skipping a line's leading bytes leaves a line without `c` when the line
/// has none.
pub proof fn lemma_skip_bytes_free(l: Seq<char>, b: nat, c: char)
    requires
        free_of(l, c),
    ensures
        free_of(skip_bytes(l, b), c),
    decreases l.len(),
{
    if b > 0 && l.len() > 0 && char_width(l[0]) <= b {
        assert forall|i: int| 0 <= i < l.drop_first().len() implies #[trigger] l.drop_first()[i] != c by {
            assert(l.drop_first()[i] == l[i + 1]);
        }
        lemma_skip_bytes_free(l.drop_first(), (b - char_width(l[0])) as nat, c);
    }
}

/// Skipping no more than the leading white space keeps a line's content;
/// skipping exactly all of it leaves no leading white space.
pub proof fn lemma_skip_bytes_lead(l: Seq<char>, b: nat)
    requires
        b <= lead_bytes(l),
    ensures
        !all_ws(l) ==> !all_ws(skip_bytes(l, b)),
        b == lead_bytes(l) ==> lead_bytes(skip_bytes(l, b)) == 0,
    decreases l.len(),
{
    if l.len() > 0 && is_ws(l[0]) {
        let t = l.drop_first();
        if !all_ws(l) {
            let j = choose|j: int| 0 <= j < l.len() && !is_ws(#[trigger] l[j]);
            assert(t[j - 1] == l[j]);
        }
        if b > 0 && char_width(l[0]) <= b {
            lemma_skip_bytes_lead(t, (b - char_width(l[0])) as nat);
        } else if b > 0 {
            assert(char_width(l[0]) > 0);
        }
    } else if l.len() > 0 {
        assert(!all_ws(l) || true);
    }
}

/// A string whose pieces, split at a white-space separator, are all white
/// space is white space.
pub proof fn lemma_split_all_blank(s: Seq<char>, sep: char)
    requires
        is_ws(sep),
        forall|k: int| 0 <= k < split(s, sep).len() ==> all_ws(#[trigger] split(s, sep)[k]),
    ensures
        all_ws(s),
    decreases s.len(),
{
    lemma_first_index_found(s, sep);
    let i = first_index(s, sep);
    let r = split(s, sep);
    assert(r[0] == r[0]);
    if i < s.len() {
        let rest = s.skip(i as int + 1);
        let t = s.take(i as int);
        assert(r[0] == t);
        assert forall|k: int| 0 <= k < split(rest, sep).len() implies all_ws(#[trigger] split(rest, sep)[k]) by {
            assert(r[k + 1] == split(rest, sep)[k]);
        }
        lemma_split_all_blank(rest, sep);
        assert forall|j: int| 0 <= j < s.len() implies is_ws(#[trigger] s[j]) by {
            if j < i {
                assert(s[j] == t[j]);
            } else if j > i {
                assert(s[j] == rest[j - i - 1]);
            }
        }
    } else {
        assert(r[0] == s);
    }
}

/// `trim_end` of a string that ends with content leaves it as it is.
pub proof fn lemma_trim_end_kept(s: Seq<char>)
    requires
        s.len() > 0 ==> !is_ws(s.last()),
    ensures
        trim_end(s) == s,
{
}

/// `trim_end` keeps a string's content and its leading white space, and
/// leaves no trailing white space.
pub proof fn lemma_trim_end_content(s: Seq<char>)
    requires
        !all_ws(s),
    ensures
        !all_ws(trim_end(s)),
        lead_bytes(trim_end(s)) == lead_bytes(s),
        !is_ws(trim_end(s).last()),
    decreases s.len(),
{
    let j = choose|j: int| 0 <= j < s.len() && !is_ws(#[trigger] s[j]);
    if is_ws(s.last()) {
        let t = s.drop_last();
        assert(j < s.len() - 1);
        assert(t[j] == s[j]);
        lemma_trim_end_content(t);
        lemma_lead_bytes_prefix(s, t, j);
    }
}

/// Two strings that agree up to a character that is not white space have
/// the same leading white space.
proof fn lemma_lead_bytes_prefix(s: Seq<char>, t: Seq<char>, j: int)
    requires
        0 <= j < s.len(),
        j < t.len(),
        !is_ws(s[j]),
        forall|i: int| 0 <= i <= j ==> s[i] == t[i],
    ensures
        lead_bytes(s) == lead_bytes(t),
    decreases j,
{
    if j > 0 && is_ws(s[0]) {
        assert forall|i: int| 0 <= i <= j - 1 implies s.drop_first()[i] == t.drop_first()[i] by {
            assert(s.drop_first()[i] == s[i + 1]);
            assert(t.drop_first()[i] == t[i + 1]);
        }
        lemma_lead_bytes_prefix(s.drop_first(), t.drop_first(), j - 1);
    } else if j == 0 {
        assert(s[0] == t[0]);
    } else {
        assert(s[0] == t[0]);
    }
}

/// Trailing white space after content is the trailing white space of the
/// last part.
pub proof fn lemma_trim_end_concat(x: Seq<char>, y: Seq<char>)
    requires
        !all_ws(y),
    ensures
        trim_end(x + y) == x + trim_end(y),
    decreases y.len(),
{
    let j = choose|j: int| 0 <= j < y.len() && !is_ws(#[trigger] y[j]);
    assert((x + y).last() == y.last());
    if is_ws(y.last()) {
        assert(j < y.len() - 1);
        assert(y.drop_last()[j] == y[j]);
        lemma_trim_end_concat(x, y.drop_last());
        assert((x + y).drop_last() =~= x + y.drop_last());
    } else {
        lemma_trim_end_kept(y);
    }
}

/// `trim_end` gives a prefix.
pub proof fn lemma_trim_end_prefix(s: Seq<char>)
    ensures
        trim_end(s).len() <= s.len(),
        trim_end(s) == s.take(trim_end(s).len() as int),
    decreases s.len(),
{
    if s.len() > 0 && is_ws(s.last()) {
        lemma_trim_end_prefix(s.drop_last());
        assert(s.drop_last().take(trim_end(s).len() as int) =~= s.take(trim_end(s).len() as int));
    } else {
        assert(s.take(s.len() as int) =~= s);
    }
}

/// The first position at or after `from` that holds `c`, or `s.len()`.
pub fn find_char(s: &Vec<char>, from: usize, c: char) -> (j: usize)
    requires
        from <= s.len(),
    ensures
        from <= j <= s.len(),
        j < s.len() ==> s@[j as int] == c,
        forall|i: int| from <= i < j ==> s@[i] != c,
        first_index(s@.skip(from as int), c) == j - from,
{
    let mut j = from;
    while j < s.len() && s[j] != c
        invariant
            from <= j <= s.len(),
            forall|i: int| from <= i < j ==> s@[i] != c,
        decreases s.len() - j,
    {
        j += 1;
    }
    proof {
        let t = s@.skip(from as int);
        assert forall|i: int| 0 <= i < j - from implies t[i] != c by {
            assert(t[i] == s@[from + i]);
        }
        lemma_first_index(t, c, j - from);
    }
    j
}

/// `s.split(sep)` on a character buffer.
pub fn split_chars(s: &Vec<char>, sep: char) -> (r: Vec<Vec<char>>)
    ensures
        char_views(r@) == split(s@, sep),
{
    let mut r: Vec<Vec<char>> = Vec::new();
    let mut start: usize = 0;
    assert(s@.skip(0) =~= s@);
    loop
        invariant
            start <= s.len(),
            char_views(r@) + split(s@.skip(start as int), sep) == split(s@, sep),
        decreases s.len() - start,
    {
        let j = find_char(s, start, sep);
        let ghost t = s@.skip(start as int);
        let piece = sub_chars(s, start, j);
        assert(char_views(r@.push(piece)) =~= char_views(r@).push(piece@));
        if j == s.len() {
            assert(t =~= piece@);
            r.push(piece);
            assert(split(t, sep) =~= seq![piece@]);
            return r;
        }
        assert(t.take(j - start) =~= piece@);
        assert(t.skip(j - start + 1) =~= s@.skip(j + 1));
        r.push(piece);
        assert(split(t, sep) =~= seq![piece@] + split(s@.skip(j + 1), sep));
        start = j + 1;
    }
}

/// Drops one trailing carriage return from a character buffer.
fn strip_cr_chars(v: Vec<char>) -> (r: Vec<char>)
    ensures
        r@ == strip_cr(v@),
{
    let mut v = v;
    if v.len() > 0 && v[v.len() - 1] == '\r' {
        v.pop();
    }
    v
}

/// `s.lines()` on a character buffer.
pub fn lines_chars(s: &Vec<char>) -> (r: Vec<Vec<char>>)
    ensures
        char_views(r@) == lines(s@),
{
    let mut r: Vec<Vec<char>> = Vec::new();
    let mut start: usize = 0;
    assert(s@.skip(0) =~= s@);
    while start < s.len()
        invariant
            start <= s.len(),
            char_views(r@) + lines(s@.skip(start as int)) == lines(s@),
        decreases s.len() - start,
    {
        let j = find_char(s, start, '\n');
        let ghost t = s@.skip(start as int);
        let piece = sub_chars(s, start, j);
        if j == s.len() {
            assert(t =~= piece@);
            assert(char_views(r@.push(piece)) =~= char_views(r@).push(piece@));
            r.push(piece);
            assert(lines(t) =~= seq![piece@]);
            assert(s@.skip(s.len() as int) =~= Seq::<char>::empty());
            assert(char_views(r@) + lines(s@.skip(s.len() as int)) =~= char_views(r@));
            return r;
        }
        assert(t.take(j - start) =~= piece@);
        assert(t.skip(j - start + 1) =~= s@.skip(j + 1));
        let line = strip_cr_chars(piece);
        assert(char_views(r@.push(line)) =~= char_views(r@).push(line@));
        r.push(line);
        assert(lines(t) =~= seq![line@] + lines(s@.skip(j + 1)));
        start = j + 1;
    }
    assert(s@.skip(start as int) =~= Seq::<char>::empty());
    assert(char_views(r@) + lines(s@.skip(start as int)) =~= char_views(r@));
    r
}

/// Appends all of `src` to `dst`.
pub fn push_all(dst: &mut Vec<char>, src: &Vec<char>)
    ensures
        final(dst)@ == old(dst)@ + src@,
{
    let mut i: usize = 0;
    while i < src.len()
        invariant
            i <= src.len(),
            dst@ == old(dst)@ + src@.take(i as int),
        decreases src.len() - i,
    {
        dst.push(src[i]);
        i += 1;
        assert(src@.take(i as int) =~= src@.take(i - 1).push(src@[i - 1]));
    }
    assert(src@.take(src.len() as int) =~= src@);
}

/// `pieces.join(sep)` on character buffers.
pub fn join_chars(pieces: &Vec<Vec<char>>, sep: &Vec<char>) -> (r: Vec<char>)
    ensures
        r@ == join(char_views(pieces@), sep@),
{
    let mut r: Vec<char> = Vec::new();
    let mut i: usize = 0;
    let ghost views = char_views(pieces@);
    while i < pieces.len()
        invariant
            i <= pieces.len(),
            views == char_views(pieces@),
            r@ == join(views.take(i as int), sep@),
        decreases pieces.len() - i,
    {
        assert(views.take(i + 1).drop_last() =~= views.take(i as int));
        assert(views.take(i + 1).last() == pieces@[i as int]@);
        if i > 0 {
            push_all(&mut r, sep);
        }
        push_all(&mut r, &pieces[i]);
        i += 1;
    }
    assert(views.take(pieces.len() as int) =~= views);
    r
}

/// Converts character buffers to strings.
pub fn strings_from(v: &Vec<Vec<char>>) -> (r: Vec<String>)
    ensures
        string_views(r@) == char_views(v@),
{
    let mut r: Vec<String> = Vec::new();
    let mut i: usize = 0;
    while i < v.len()
        invariant
            i <= v.len(),
            string_views(r@) == char_views(v@).take(i as int),
        decreases v.len() - i,
    {
        let s = string_from_chars(&v[i]);
        let ghost prev = r@;
        r.push(s);
        assert(string_views(r@) =~= string_views(prev).push(s@));
        assert(char_views(v@).take(i + 1) =~= char_views(v@).take(i as int).push(v@[i as int]@));
        i += 1;
    }
    assert(char_views(v@).take(v.len() as int) =~= char_views(v@));
    r
}






/// `s` neither starts nor ends with white space.
pub open spec fn is_trimmed(s: Seq<char>) -> bool {
    s.len() > 0 ==> !is_ws(s[0]) && !is_ws(s.last())
}

/// `trim_end` leaves a string that does not end with white space.
proof fn lemma_trim_end_last(s: Seq<char>)
    ensures
        trim_end(s).len() > 0 ==> !is_ws(trim_end(s).last()),
    decreases s.len(),
{
    if s.len() > 0 && is_ws(s.last()) {
        lemma_trim_end_last(s.drop_last());
    }
}

/// `trim` leaves a string that neither starts nor ends with white space.
pub proof fn lemma_trim_trimmed(s: Seq<char>)
    ensures
        is_trimmed(trim(s)),
{
    lemma_trim_start_blank(s);
    let t = trim_start(s);
    if t.len() > 0 {
        lemma_trim_end_keeps_first(t);
    } else {
        assert(t =~= Seq::<char>::empty());
    }
    lemma_trim_end_last(t);
}

/// The pieces of a string of white space are white space.
pub proof fn lemma_split_blank(s: Seq<char>, sep: char)
    requires
        all_ws(s),
    ensures
        forall|k: int| 0 <= k < split(s, sep).len() ==> all_ws(#[trigger] split(s, sep)[k]),
    decreases s.len(),
{
    let i = first_index(s, sep);
    let r = split(s, sep);
    if i < s.len() {
        let rest = s.skip(i as int + 1);
        assert forall|j: int| 0 <= j < rest.len() implies is_ws(#[trigger] rest[j]) by {
            assert(rest[j] == s[i + 1 + j]);
        }
        lemma_split_blank(rest, sep);
        assert forall|k: int| 0 <= k < r.len() implies all_ws(#[trigger] r[k]) by {
            if k > 0 {
                assert(r[k] == split(rest, sep)[k - 1]);
            } else {
                let t = s.take(i as int);
                assert(r[0] == t);
                assert forall|j: int| 0 <= j < t.len() implies is_ws(#[trigger] t[j]) by {
                    assert(t[j] == s[j]);
                }
            }
        }
    } else {
        assert(r[0] == s);
    }
}

/// The lines of a string of white space are white space.
pub proof fn lemma_lines_blank(s: Seq<char>)
    requires
        all_ws(s),
    ensures
        forall|k: int| 0 <= k < lines(s).len() ==> all_ws(#[trigger] lines(s)[k]),
    decreases s.len(),
{
    if s.len() > 0 {
        let i = first_index(s, '\n');
        let r = lines(s);
        if i < s.len() {
            let rest = s.skip(i as int + 1);
            assert forall|j: int| 0 <= j < rest.len() implies is_ws(#[trigger] rest[j]) by {
                assert(rest[j] == s[i + 1 + j]);
            }
            lemma_lines_blank(rest);
            assert forall|k: int| 0 <= k < r.len() implies all_ws(#[trigger] r[k]) by {
                if k > 0 {
                    assert(r[k] == lines(rest)[k - 1]);
                } else {
                    let t = strip_cr(s.take(i as int));
                    assert(r[0] == t);
                    assert forall|j: int| 0 <= j < t.len() implies is_ws(#[trigger] t[j]) by {
                        assert(t[j] == s[j]);
                    }
                }
            }
        } else {
            assert(r[0] == s);
        }
    }
}

/// Joining pieces of white space with a separator of white space gives
/// white space.
pub proof fn lemma_join_blank(pieces: Seq<Seq<char>>, sep: Seq<char>)
    requires
        forall|k: int| 0 <= k < pieces.len() ==> all_ws(#[trigger] pieces[k]),
        all_ws(sep),
    ensures
        all_ws(join(pieces, sep)),
    decreases pieces.len(),
{
    if pieces.len() > 1 {
        let init = pieces.drop_last();
        assert forall|k: int| 0 <= k < init.len() implies all_ws(#[trigger] init[k]) by {
            assert(init[k] == pieces[k]);
        }
        lemma_join_blank(init, sep);
        let a = join(init, sep);
        let l = pieces.last();
        assert(all_ws(l));
        assert forall|j: int| 0 <= j < (a + sep + l).len() implies is_ws(#[trigger] (a + sep + l)[j]) by {
            if j < a.len() {
                assert((a + sep + l)[j] == a[j]);
            } else if j < a.len() + sep.len() {
                assert((a + sep + l)[j] == sep[j - a.len()]);
            } else {
                assert((a + sep + l)[j] == l[j - a.len() - sep.len()]);
            }
        }
    } else if pieces.len() == 1 {
        assert(all_ws(pieces[0]));
    }
}


/// `char::len_utf8`.
pub fn char_width_of(c: char) -> (w: usize)
    ensures
        w == char_width(c),
{
    let u = c as u32;
    if u < 0x80 {
        1
    } else if u < 0x800 {
        2
    } else if u < 0x10000 {
        3
    } else {
        4
    }
}

/// The leading white space of `s` is at most four bytes per character.
pub proof fn lemma_lead_bytes_bound(s: Seq<char>)
    ensures
        lead_bytes(s) <= 4 * s.len(),
    decreases s.len(),
{
    if s.len() > 0 {
        lemma_lead_bytes_bound(s.drop_first());
    }
}

/// A string is at most four bytes per character.
pub proof fn lemma_byte_len_bound(s: Seq<char>)
    ensures
        byte_len(s) <= 4 * s.len(),
    decreases s.len(),
{
    if s.len() > 0 {
        lemma_byte_len_bound(s.drop_first());
    }
}

/// The byte length of the leading white space of `l`.
pub fn lead_bytes_wide(l: &Vec<char>) -> (n: u128)
    ensures
        n == lead_bytes(l@),
{
    proof {
        lemma_lead_bytes_bound(l@);
    }
    let mut i: usize = 0;
    let mut n: u128 = 0;
    assert(l@.skip(0) =~= l@);
    assert(l@.len() == l.len());
    while i < l.len() && is_whitespace(l[i])
        invariant
            i <= l.len(),
            n + lead_bytes(l@.skip(i as int)) == lead_bytes(l@),
            lead_bytes(l@) <= 4 * l@.len(),
            l@.len() <= usize::MAX,
        decreases l.len() - i,
    {
        assert(l@.skip(i as int).drop_first() =~= l@.skip(i + 1));
        n = n + char_width_of(l[i]) as u128;
        i += 1;
    }
    n
}

/// The byte length of `l` (`str::len`).
pub fn byte_len_wide(l: &Vec<char>) -> (n: u128)
    ensures
        n == byte_len(l@),
{
    proof {
        lemma_byte_len_bound(l@);
    }
    let mut i: usize = 0;
    let mut n: u128 = 0;
    assert(l@.skip(0) =~= l@);
    assert(l@.len() == l.len());
    while i < l.len()
        invariant
            i <= l.len(),
            n + byte_len(l@.skip(i as int)) == byte_len(l@),
            byte_len(l@) <= 4 * l@.len(),
            l@.len() <= usize::MAX,
        decreases l.len() - i,
    {
        assert(l@.skip(i as int).drop_first() =~= l@.skip(i + 1));
        n = n + char_width_of(l[i]) as u128;
        i += 1;
    }
    n
}

/// The suffix of `l` after its first `b` bytes, taken in whole characters:
/// a character that would be cut is kept.
pub fn skip_bytes_wide(l: &Vec<char>, b: u128) -> (r: Vec<char>)
    ensures
        r@ == skip_bytes(l@, b as nat),
{
    let mut i: usize = 0;
    let mut left: u128 = b;
    assert(l@.skip(0) =~= l@);
    while left > 0 && i < l.len() && (char_width_of(l[i]) as u128) <= left
        invariant
            i <= l.len(),
            left <= b,
            skip_bytes(l@.skip(i as int), left as nat) == skip_bytes(l@, b as nat),
        decreases l.len() - i,
    {
        assert(l@.skip(i as int)[0] == l@[i as int]);
        assert(l@.skip(i as int).drop_first() =~= l@.skip(i + 1));
        left = left - char_width_of(l[i]) as u128;
        i += 1;
    }
    if i < l.len() {
        assert(l@.skip(i as int)[0] == l@[i as int]);
    }
    assert(l@.skip(i as int) =~= l@.subrange(i as int, l.len() as int));
    sub_chars(l, i, l.len())
}

/// A copy of the buffers `ls[a..b]`.
pub fn sub_lines(ls: &Vec<Vec<char>>, a: usize, b: usize) -> (r: Vec<Vec<char>>)
    requires
        a <= b <= ls.len(),
    ensures
        char_views(r@) == char_views(ls@).subrange(a as int, b as int),
{
    let mut r: Vec<Vec<char>> = Vec::new();
    let mut i = a;
    while i < b
        invariant
            a <= i <= b <= ls.len(),
            char_views(r@) == char_views(ls@).subrange(a as int, i as int),
        decreases b - i,
    {
        let line = sub_chars(&ls[i], 0, ls[i].len());
        assert(ls@[i as int]@.subrange(0, ls@[i as int]@.len() as int) =~= ls@[i as int]@);
        let ghost prev = r@;
        r.push(line);
        assert(char_views(r@) =~= char_views(prev).push(line@));
        assert(char_views(ls@).subrange(a as int, i + 1) =~= char_views(ls@).subrange(a as int, i as int).push(ls@[i as int]@));
        i += 1;
    }
    r
}

} // verus!
