//! JavaDoc-style tag parser for `@arg`, `@return`, and `@raises`.
//!
//! Tags are parsed from the normalized lines of a Python docstring.
use vstd::prelude::*;
use crate::model::{ArgDoc, DocComment, DocContent, DocContentView, RaisesDoc, ReturnDoc};
use crate::text::{self, chars_of, join_chars, string_from_chars, sub_chars, trim_chars, is_whitespace};

verus! {

/// Result of parsing a docstring's lines.
#[derive(Debug, Clone, PartialEq, Eq)]
pub enum TagParseResult {
    /// The docstring parsed successfully.
    Parsed(DocContent),
    /// The docstring is malformed; include the error message in the entry.
    Error(String),
}

impl View for TagParseResult {
    type V = Result<DocContentView, Seq<char>>;

    open spec fn view(&self) -> Result<DocContentView, Seq<char>> {
        match self {
            TagParseResult::Parsed(c) => Ok(c@),
            TagParseResult::Error(m) => Err(m@),
        }
    }
}

/// The comment that a tag-parse result stands for.
pub open spec fn comment_of_tags(r: TagParseResult) -> DocComment {
    match r {
        TagParseResult::Parsed(content) => DocComment::Parsed(content),
        TagParseResult::Error(msg) => DocComment::Error(msg),
    }
}

impl vstd::std_specs::convert::FromSpecImpl<TagParseResult> for DocComment {
    open spec fn obeys_from_spec() -> bool {
        true
    }

    open spec fn from_spec(v: TagParseResult) -> DocComment {
        comment_of_tags(v)
    }
}

impl From<TagParseResult> for DocComment {
    fn from(result: TagParseResult) -> (r: DocComment) {
        match result {
            TagParseResult::Parsed(content) => DocComment::Parsed(content),
            TagParseResult::Error(msg) => DocComment::Error(msg),
        }
    }
}

/// Index of the first white-space character of `s`, or `s.len()`.
pub open spec fn first_ws(s: Seq<char>) -> nat
    decreases s.len(),
{
    if s.len() == 0 || text::is_ws(s[0]) {
        0
    } else {
        1 + first_ws(s.drop_first())
    }
}

/// The error for an `@arg` without a name.
pub open spec fn arg_error() -> Seq<char> {
    "malformed @arg: expected an argument name after the tag"@
}

/// The error for an `@raises` without an exception name.
pub open spec fn raises_error() -> Seq<char> {
    "malformed @raises: expected an exception name after the tag"@
}

/// The `(name, description)` pair of a tag body: the first word and the
/// trimmed rest.
pub open spec fn name_and_description(remainder: Seq<char>) -> (Seq<char>, Seq<char>) {
    let name_end = first_ws(remainder) as int;
    (text::trim(remainder.take(name_end)), text::trim(remainder.skip(name_end)))
}

/// The effect of one tag (`rest` is the text after `@`) on the content.
pub open spec fn tag_step(content: DocContentView, rest: Seq<char>) -> Result<
    DocContentView,
    Seq<char>,
> {
    let end = first_ws(rest) as int;
    let keyword = rest.take(end);
    let remainder = text::trim(rest.skip(end));
    if keyword == "arg"@ {
        if remainder.len() == 0 {
            Err(arg_error())
        } else {
            Ok(DocContentView { args: content.args.push(name_and_description(remainder)), ..content })
        }
    } else if keyword == "return"@ {
        Ok(DocContentView { returns: Some(remainder), ..content })
    } else if keyword == "raises"@ {
        if remainder.len() == 0 {
            Err(raises_error())
        } else {
            Ok(
                DocContentView {
                    raises: content.raises.push(name_and_description(remainder)),
                    ..content
                },
            )
        }
    } else {
        Ok(content)
    }
}

/// Content with nothing in it.
pub open spec fn empty_content() -> DocContentView {
    DocContentView {
        description: seq![],
        args: seq![],
        returns: None,
        raises: seq![],
    }
}

/// The description lines and tag content collected from `lines`, or the
/// first error.
pub open spec fn block_state(lines: Seq<Seq<char>>) -> Result<
    (Seq<Seq<char>>, DocContentView),
    Seq<char>,
>
    decreases lines.len(),
{
    if lines.len() == 0 {
        Ok((seq![], empty_content()))
    } else {
        match block_state(lines.drop_last()) {
            Err(m) => Err(m),
            Ok((desc, content)) => {
                let line = text::trim(lines.last());
                if line.len() > 0 && line[0] == '@' {
                    match tag_step(content, line.drop_first()) {
                        Err(m) => Err(m),
                        Ok(c) => Ok((desc, c)),
                    }
                } else if line.len() > 0 {
                    Ok((desc.push(line), content))
                } else {
                    Ok((desc, content))
                }
            },
        }
    }
}

/// The value of [`parse_block`]: the description lines joined by spaces,
/// the tags collected in order, or the first malformed tag's error.
pub open spec fn parse_block_spec(lines: Seq<Seq<char>>) -> Result<DocContentView, Seq<char>> {
    match block_state(lines) {
        Err(m) => Err(m),
        Ok((desc, content)) => Ok(
            DocContentView { description: text::join(desc, seq![' ']), ..content },
        ),
    }
}

/// The error of a line that is a malformed tag (`@arg` or `@raises` with
/// nothing after it); `None` for every other line.
pub open spec fn line_error(line: Seq<char>) -> Option<Seq<char>> {
    let t = text::trim(line);
    if t.len() > 0 && t[0] == '@' {
        match tag_step(empty_content(), t.drop_first()) {
            Err(m) => Some(m),
            Ok(_) => None,
        }
    } else {
        None
    }
}

/// Collecting a block fails exactly when one of its lines is a malformed
/// tag, and then with the error of the first such line.
proof fn lemma_block_state_first_error(lines: Seq<Seq<char>>)
    ensures
        block_state(lines) is Err <==> exists|i: int|
            0 <= i < lines.len() && #[trigger] line_error(lines[i]) is Some,
        block_state(lines) matches Err(m) ==> exists|i: int|
            0 <= i < lines.len() && #[trigger] line_error(lines[i]) == Some(m) && forall|j: int|
                0 <= j < i ==> #[trigger] line_error(lines[j]) is None,
    decreases lines.len(),
{
    if lines.len() > 0 {
        let init = lines.drop_last();
        let n = lines.len() - 1;
        lemma_block_state_first_error(init);
        assert forall|i: int| 0 <= i < init.len() implies line_error(#[trigger] init[i]) == line_error(
            lines[i],
        ) by {
            assert(init[i] == lines[i]);
        }
        assert(lines.last() == lines[n]);
        match block_state(init) {
            Err(m) => {
                let i = choose|i: int|
                    0 <= i < init.len() && #[trigger] line_error(init[i]) == Some(m) && forall|j: int|
                        0 <= j < i ==> #[trigger] line_error(init[j]) is None;
                assert(line_error(lines[i]) == Some(m));
                assert forall|j: int| 0 <= j < i implies #[trigger] line_error(lines[j]) is None by {
                    assert(line_error(init[j]) is None);
                }
            },
            Ok((desc, content)) => {
                assert(forall|i: int| 0 <= i < init.len() ==> #[trigger] line_error(init[i]) is None);
                assert forall|j: int| 0 <= j < n implies #[trigger] line_error(lines[j]) is None by {
                    assert(line_error(init[j]) is None);
                }
                let t = text::trim(lines.last());
                if t.len() > 0 && t[0] == '@' {
                    let rest = t.drop_first();
                    assert(tag_step(content, rest) is Err <==> tag_step(empty_content(), rest) is Err);
                    if tag_step(content, rest) is Err {
                        assert(tag_step(content, rest)->Err_0 == tag_step(empty_content(), rest)->Err_0);
                    }
                }
                if exists|i: int| 0 <= i < lines.len() && #[trigger] line_error(lines[i]) is Some {
                    let i = choose|i: int| 0 <= i < lines.len() && #[trigger] line_error(lines[i]) is Some;
                    assert(i == n);
                }
                if line_error(lines[n]) is Some {
                    assert(block_state(lines) == Err::<(Seq<Seq<char>>, DocContentView), Seq<char>>(
                        line_error(lines[n])->0,
                    ));
                } else {
                    assert(block_state(lines) is Ok);
                }
            },
        }
    }
}

/// A block of lines is malformed exactly when one of its lines is an `@arg`
/// or `@raises` tag with nothing after it, and then the error is that of
/// the first such line. Every other line, unrecognized tags included, is
/// accepted.
pub proof fn law_block_fails_on_first_malformed_tag(lines: Seq<Seq<char>>)
    ensures
        parse_block_spec(lines) is Err <==> exists|i: int|
            0 <= i < lines.len() && #[trigger] line_error(lines[i]) is Some,
        parse_block_spec(lines) matches Err(m) ==> exists|i: int|
            0 <= i < lines.len() && #[trigger] line_error(lines[i]) == Some(m) && forall|j: int|
                0 <= j < i ==> #[trigger] line_error(lines[j]) is None,
{
    lemma_block_state_first_error(lines);
}

/// The keyword of a tag line (the text after `@` up to the first white
/// space), or `None` for a line that is not a tag.
pub open spec fn tag_keyword(line: Seq<char>) -> Option<Seq<char>> {
    let t = text::trim(line);
    if t.len() > 0 && t[0] == '@' {
        Some(t.drop_first().take(first_ws(t.drop_first()) as int))
    } else {
        None
    }
}

/// The number of lines of `lines` that are tags with keyword `kw`.
pub open spec fn count_tags(lines: Seq<Seq<char>>, kw: Seq<char>) -> nat
    decreases lines.len(),
{
    if lines.len() == 0 {
        0
    } else {
        count_tags(lines.drop_last(), kw) + if tag_keyword(lines.last()) == Some(kw) {
            1nat
        } else {
            0nat
        }
    }
}

/// Collecting the block: one argument entry per `@arg` line and one
/// exception entry per `@raises` line.
proof fn lemma_block_state_counts(lines: Seq<Seq<char>>)
    ensures
        block_state(lines) matches Ok((desc, c)) ==> c.args.len() == count_tags(lines, "arg"@)
            && c.raises.len() == count_tags(lines, "raises"@),
    decreases lines.len(),
{
    reveal_strlit("arg");
    reveal_strlit("raises");
    reveal_strlit("return");
    if lines.len() > 0 {
        let init = lines.drop_last();
        lemma_block_state_counts(init);
        match block_state(init) {
            Err(_) => {},
            Ok((desc, c)) => {
                let t = text::trim(lines.last());
                if t.len() > 0 && t[0] == '@' {
                    let rest = t.drop_first();
                    let kw = rest.take(first_ws(rest) as int);
                    assert(tag_keyword(lines.last()) == Some(kw));
                    assert("arg"@ != "raises"@) by {
                        assert("arg"@.len() != "raises"@.len());
                    }
                    assert("return"@ != "raises"@) by {
                        assert("return"@[2] != "raises"@[2]);
                    }
                    assert("return"@ != "arg"@) by {
                        assert("return"@.len() != "arg"@.len());
                    }
                    if kw == "arg"@ {
                    } else if kw == "return"@ {
                    } else if kw == "raises"@ {
                    } else {
                    }
                } else {
                    assert(tag_keyword(lines.last()) is None);
                }
            },
        }
    }
}

/// A block that parses has one argument entry per `@arg` line and one
/// exception entry per `@raises` line; and the entries of a block are those
/// of its first lines followed by those of its last line, so a tag adds to
/// the entries collected so far and never removes one.
pub proof fn law_tags_accumulate(lines: Seq<Seq<char>>, l: Seq<char>)
    ensures
        parse_block_spec(lines) matches Ok(c) ==> c.args.len() == count_tags(lines, "arg"@)
            && c.raises.len() == count_tags(lines, "raises"@),
        parse_block_spec(lines.push(l)) matches Ok(c2) ==> {
            &&& parse_block_spec(lines) is Ok
            &&& parse_block_spec(seq![l]) is Ok
            &&& c2.args == parse_block_spec(lines)->Ok_0.args + parse_block_spec(seq![l])->Ok_0.args
            &&& c2.raises == parse_block_spec(lines)->Ok_0.raises + parse_block_spec(
                seq![l],
            )->Ok_0.raises
        },
{
    lemma_block_state_counts(lines);
    let ll = lines.push(l);
    let one = seq![l];
    let none = Seq::<Seq<char>>::empty();
    assert(ll.drop_last() =~= lines);
    assert(ll.last() == l);
    assert(one.drop_last() =~= none);
    assert(one.last() == l);
    assert(block_state(none) == Ok::<(Seq<Seq<char>>, DocContentView), Seq<char>>(
        (seq![], empty_content()),
    ));
    if block_state(ll) is Ok {
        assert(block_state(lines) is Ok);
        let c1 = block_state(lines)->Ok_0.1;
        let e = empty_content();
        let t = text::trim(l);
        if t.len() > 0 && t[0] == '@' {
            let rest = t.drop_first();
            assert(tag_step(c1, rest) is Ok);
            assert(tag_step(e, rest) is Ok);
            let a = tag_step(c1, rest)->Ok_0;
            let b = tag_step(e, rest)->Ok_0;
            assert(block_state(ll)->Ok_0.1 == a);
            assert(block_state(one)->Ok_0.1 == b);
            assert(a.args =~= c1.args + b.args);
            assert(a.raises =~= c1.raises + b.raises);
        } else {
            assert(block_state(ll)->Ok_0.1 == c1);
            assert(block_state(one)->Ok_0.1 == e);
            assert(c1.args =~= c1.args + e.args);
            assert(c1.raises =~= c1.raises + e.raises);
        }
    }
}

/// The first white-space position of `s` at or after `from`.
fn find_ws(s: &Vec<char>, from: usize) -> (j: usize)
    requires
        from <= s.len(),
    ensures
        from <= j <= s.len(),
        first_ws(s@.skip(from as int)) == j - from,
{
    let mut j = from;
    assert(s@.skip(from as int).skip(0) =~= s@.skip(from as int));
    while j < s.len() && !is_whitespace(s[j])
        invariant
            from <= j <= s.len(),
            first_ws(s@.skip(j as int)) + (j - from) == first_ws(s@.skip(from as int)),
        decreases s.len() - j,
    {
        assert(s@.skip(j as int).drop_first() =~= s@.skip(j + 1));
        assert(s@.skip(j as int)[0] == s@[j as int]);
        j += 1;
    }
    if j < s.len() {
        assert(s@.skip(j as int)[0] == s@[j as int]);
    }
    j
}

/// Splits a tag body into its first word and the rest, both trimmed.
fn split_name(remainder: &Vec<char>) -> (r: (String, String))
    ensures
        (r.0@, r.1@) == name_and_description(remainder@),
{
    let name_end = find_ws(remainder, 0);
    assert(remainder@.skip(0) =~= remainder@);
    let head = sub_chars(remainder, 0, name_end);
    let tail = sub_chars(remainder, name_end, remainder.len());
    assert(head@ =~= remainder@.take(name_end as int));
    assert(tail@ =~= remainder@.skip(name_end as int));
    let name = string_from_chars(&trim_chars(&head));
    let description = string_from_chars(&trim_chars(&tail));
    (name, description)
}

/// Applies one tag (`rest` is the text after `@`) to `content`.
fn parse_tag(rest: &Vec<char>, content: &mut DocContent) -> (r: Result<(), String>)
    ensures
        match tag_step(old(content)@, rest@) {
            Ok(c) => r is Ok && final(content)@ == c,
            Err(m) => r matches Err(e) && e@ == m && *final(content) == *old(content),
        },
{
    let end = find_ws(rest, 0);
    assert(rest@.skip(0) =~= rest@);
    let keyword_chars = sub_chars(rest, 0, end);
    let tail = sub_chars(rest, end, rest.len());
    assert(keyword_chars@ =~= rest@.take(end as int));
    assert(tail@ =~= rest@.skip(end as int));
    let remainder = trim_chars(&tail);
    let keyword = string_from_chars(&keyword_chars);
    if keyword == "arg".to_string() {
        if remainder.len() == 0 {
            return Err("malformed @arg: expected an argument name after the tag".to_string());
        }
        let (name, description) = split_name(&remainder);
        let ghost prev = content@;
        let arg = ArgDoc { name, description };
        content.args.push(arg);
        assert(content@.args =~= prev.args.push(arg@));
        assert(content@ =~= DocContentView { args: prev.args.push(arg@), ..prev });
        Ok(())
    } else if keyword == "return".to_string() {
        let ghost prev = content@;
        content.returns = Some(ReturnDoc { description: string_from_chars(&remainder) });
        assert(content@ =~= DocContentView { returns: Some(remainder@), ..prev });
        Ok(())
    } else if keyword == "raises".to_string() {
        if remainder.len() == 0 {
            return Err("malformed @raises: expected an exception name after the tag".to_string());
        }
        let (exception, description) = split_name(&remainder);
        let ghost prev = content@;
        let raises = RaisesDoc { exception, description };
        content.raises.push(raises);
        assert(content@.raises =~= prev.raises.push(raises@));
        assert(content@ =~= DocContentView { raises: prev.raises.push(raises@), ..prev });
        Ok(())
    } else {
        // Unrecognized tags are ignored; they do not fail the run. The text
        // after the keyword is not captured.
        Ok(())
    }
}

/// Parse the normalized lines of a docstring into a [`DocContent`].
///
/// Lines starting with `@` are treated as tags; every other non-empty line is
/// part of the description. Returns [`TagParseResult::Error`] if the block is
/// malformed (e.g. an `@arg` with no argument name).
pub fn parse_block(lines: &[String]) -> (r: TagParseResult)
    ensures
        r@ == parse_block_spec(lines@.map_values(|l: String| l@)),
{
    let ghost views = lines@.map_values(|l: String| l@);
    let mut content = DocContent {
        description: String::new(),
        args: Vec::new(),
        returns: None,
        raises: Vec::new(),
    };
    let mut description_lines: Vec<Vec<char>> = Vec::new();
    let mut i: usize = 0;
    assert(content@ =~= empty_content());
    assert(views.take(0) =~= Seq::<Seq<char>>::empty());
    assert(text::char_views(description_lines@) =~= Seq::<Seq<char>>::empty());
    assert(block_state(views.take(0)) == Ok::<_, Seq<char>>((Seq::<Seq<char>>::empty(), empty_content())));
    while i < lines.len()
        invariant
            i <= lines.len(),
            views == lines@.map_values(|l: String| l@),
            block_state(views.take(i as int)) == Ok::<_, Seq<char>>(
                (text::char_views(description_lines@), content@),
            ),
            content@.description.len() == 0,
        decreases lines.len() - i,
    {
        assert(views.take(i + 1).drop_last() =~= views.take(i as int));
        assert(views.take(i + 1).last() == lines@[i as int]@);
        let raw = chars_of(lines[i].as_str());
        let line = trim_chars(&raw);
        if line.len() > 0 && line[0] == '@' {
            let rest = sub_chars(&line, 1, line.len());
            assert(rest@ =~= line@.drop_first());
            match parse_tag(&rest, &mut content) {
                Ok(()) => {},
                Err(msg) => {
                    proof {
                        lemma_block_state_error(views, i as int + 1);
                    }
                    return TagParseResult::Error(msg);
                },
            }
        } else if line.len() > 0 {
            let ghost prev = description_lines@;
            description_lines.push(line);
            assert(text::char_views(description_lines@) =~= text::char_views(prev).push(line@));
        }
        i += 1;
    }
    assert(views.take(lines.len() as int) =~= views);
    let space = vec![' '];
    assert(space@ =~= seq![' ']);
    let joined = join_chars(&description_lines, &space);
    let ghost prev = content@;
    content.description = string_from_chars(&joined);
    assert(content@ =~= DocContentView { description: text::join(text::char_views(description_lines@), seq![' ']), ..prev });
    TagParseResult::Parsed(content)
}

/// Once a prefix of the lines fails, the whole block fails the same way.
proof fn lemma_block_state_error(lines: Seq<Seq<char>>, k: int)
    requires
        0 <= k <= lines.len(),
        block_state(lines.take(k)) is Err,
    ensures
        block_state(lines) == block_state(lines.take(k)),
    decreases lines.len() - k,
{
    if k < lines.len() {
        assert(lines.take(k + 1).drop_last() =~= lines.take(k));
        lemma_block_state_error(lines, k + 1);
    } else {
        assert(lines.take(k) =~= lines);
    }
}

} // verus!
