//! The header line of an entry: `:name: (tag, tag) description`.

use crate::text::{
    chars_of, find, find_char, lemma_find, lemma_find_is, string_of, strings_view, trim,
    trim_bounds,
};
use vstd::prelude::*;

verus! {

/// What a header line says.
pub struct Header {
    pub name: Seq<char>,
    pub tags: Seq<Seq<char>>,
    pub description: Seq<char>,
}

/// The position of the first comma that a space follows, or the length of
/// `s` where there is none.
pub open spec fn find_separator(s: Seq<char>) -> nat
    decreases s.len(),
{
    if s.len() == 0 || (s.len() >= 2 && s[0] == ',' && s[1] == ' ') {
        0
    } else {
        1 + find_separator(s.drop_first())
    }
}

/// Whether a comma and a space stand at position `at` of `s`.
pub open spec fn separator_at(s: Seq<char>, at: int) -> bool {
    0 <= at && at + 1 < s.len() && s[at] == ',' && s[at + 1] == ' '
}

/// `find_separator` stops at the first separator and passes over no other.
pub proof fn lemma_find_separator(s: Seq<char>)
    ensures
        find_separator(s) <= s.len(),
        find_separator(s) < s.len() ==> separator_at(s, find_separator(s) as int),
        forall|i: int| 0 <= i < find_separator(s) ==> !separator_at(s, i),
    decreases s.len(),
{
    if !(s.len() == 0 || (s.len() >= 2 && s[0] == ',' && s[1] == ' ')) {
        let rest = s.drop_first();
        lemma_find_separator(rest);
        let at = find_separator(rest) as int;
        if at < rest.len() {
            assert(separator_at(rest, at));
            assert(s[at + 1] == rest[at] && s[at + 2] == rest[at + 1]);
        }
        assert forall|i: int| 0 <= i < find_separator(s) implies !separator_at(s, i) by {
            if i > 0 && separator_at(s, i) {
                assert(s[i] == rest[i - 1] && s[i + 1] == rest[i]);
                assert(separator_at(rest, i - 1));
            }
        }
    }
}

/// A position that holds a separator and has none before it is the one that
/// `find_separator` gives; so is the length, where `s` holds no separator.
pub proof fn lemma_find_separator_is(s: Seq<char>, at: int)
    requires
        0 <= at <= s.len(),
        at < s.len() ==> separator_at(s, at),
        forall|i: int| 0 <= i < at ==> !separator_at(s, i),
    ensures
        find_separator(s) == at,
{
    lemma_find_separator(s);
}

/// The labels of a tag list: the pieces of `body` between its separators,
/// each a comma and a space, taken from the left. A separator is two
/// characters long, so the first one lies two before the end of `body` at
/// least; where there is none, `body` is one label.
pub open spec fn split_tags(body: Seq<char>) -> Seq<Seq<char>>
    decreases body.len(),
{
    let at = find_separator(body) as int;
    if at + 2 > body.len() {
        seq![body]
    } else {
        seq![body.take(at)] + split_tags(body.skip(at + 2))
    }
}

/// Where the tag list ends: the position of its closing parenthesis in
/// `rest`, the part of a header line behind `:name: `. There is a tag list
/// where `rest` opens with a parenthesis, closes it later, and holds
/// something in between.
pub open spec fn tag_list_end(rest: Seq<char>) -> Option<int> {
    if rest.len() > 0 && rest[0] == '(' && 1 < find(rest, ')') < rest.len() {
        Some(find(rest, ')') as int)
    } else {
        None
    }
}

/// The position of the colon that closes the name of a header line.
pub open spec fn name_end(line: Seq<char>) -> int {
    1 + find(line.skip(1), ':') as int
}

/// Whether `line` is a header line as the grammar has it: a colon, a name
/// of at least one character and without a colon, a colon, a space, and
/// then anything.
pub open spec fn well_formed_header(line: Seq<char>) -> bool {
    &&& line.len() > 0
    &&& line[0] == ':'
    &&& 1 < name_end(line)
    &&& name_end(line) + 1 < line.len()
    &&& line[name_end(line) + 1] == ' '
}

/// What `line` says as a header line, or `None` where it is not one.
///
/// The name stands between the two colons. Behind the space that follows
/// them a tag list in parentheses may stand. All that is left of the line is
/// the description, trimmed: so the space that by custom follows the tag
/// list is no part of it.
pub open spec fn header_of(line: Seq<char>) -> Option<Header> {
    if well_formed_header(line) {
        let name = line.subrange(1, name_end(line));
        let rest = line.skip(name_end(line) + 2);
        match tag_list_end(rest) {
            Some(end) => Some(
                Header {
                    name,
                    tags: split_tags(rest.subrange(1, end)),
                    description: trim(rest.skip(end + 1)),
                },
            ),
            None => Some(Header { name, tags: seq![], description: trim(rest) }),
        }
    } else {
        None
    }
}

/// A line that begins with a colon and holds no second one is no header
/// line: the colon that closes the name is missing.
pub proof fn lemma_header_needs_closing_colon(line: Seq<char>)
    requires
        line.len() > 0,
        line[0] == ':',
        forall|i: int| 1 <= i < line.len() ==> line[i] != ':',
    ensures
        header_of(line) is None,
{
    let tail = line.skip(1);
    lemma_find_is(tail, ':', tail.len() as int);
}

/// Whether `name` can stand between the colons of a header line: it is not
/// empty and holds no colon.
pub open spec fn is_name(name: Seq<char>) -> bool {
    name.len() > 0 && !name.contains(':')
}

/// Whether `body` can stand between the parentheses of a tag list: it is
/// not empty and holds no closing parenthesis.
pub open spec fn is_tag_list(body: Seq<char>) -> bool {
    body.len() > 0 && !body.contains(')')
}

/// The grammar of a header line with a tag list, read forwards: a colon,
/// the name, a colon, a space, the tag list in parentheses, and the rest.
/// Such a line gives the name, the labels of the list, and the rest
/// trimmed.
pub proof fn lemma_header_with_tags(name: Seq<char>, body: Seq<char>, rest: Seq<char>)
    requires
        is_name(name),
        is_tag_list(body),
    ensures
        header_of(seq![':'] + name + seq![':', ' ', '('] + body + seq![')'] + rest) == Some(
            Header { name, tags: split_tags(body), description: trim(rest) },
        ),
{
    let line = seq![':'] + name + seq![':', ' ', '('] + body + seq![')'] + rest;
    let close = 1 + name.len() as int;
    assert forall|i: int| 0 <= i < name.len() implies line.skip(1)[i] != ':' by {
        assert(line.skip(1)[i] == name[i]);
        assert(name.contains(name[i]));
    }
    assert(line.skip(1)[close - 1] == ':');
    lemma_find_is(line.skip(1), ':', close - 1);
    assert(line[close + 1] == ' ');
    assert(line.subrange(1, close) == name);
    let tail = line.skip(close + 2);
    assert(tail == seq!['('] + body + seq![')'] + rest);
    let end = 1 + body.len() as int;
    assert forall|i: int| 0 <= i < end implies tail[i] != ')' by {
        if i > 0 {
            assert(tail[i] == body[i - 1]);
            assert(body.contains(body[i - 1]));
        }
    }
    assert(tail[end] == ')');
    lemma_find_is(tail, ')', end);
    assert(tail.subrange(1, end) == body);
    assert(tail.skip(end + 1) == rest);
}

/// The grammar of a header line without a tag list, read forwards: a
/// colon, the name, a colon, a space, and the rest, which opens no tag
/// list. Such a line gives the name, no label, and the rest trimmed.
pub proof fn lemma_header_without_tags(name: Seq<char>, rest: Seq<char>)
    requires
        is_name(name),
        tag_list_end(rest) is None,
    ensures
        header_of(seq![':'] + name + seq![':', ' '] + rest) == Some(
            Header { name, tags: seq![], description: trim(rest) },
        ),
{
    let line = seq![':'] + name + seq![':', ' '] + rest;
    let close = 1 + name.len() as int;
    assert forall|i: int| 0 <= i < name.len() implies line.skip(1)[i] != ':' by {
        assert(line.skip(1)[i] == name[i]);
        assert(name.contains(name[i]));
    }
    assert(line.skip(1)[close - 1] == ':');
    lemma_find_is(line.skip(1), ':', close - 1);
    assert(line[close + 1] == ' ');
    assert(line.subrange(1, close) == name);
    assert(line.skip(close + 2) == rest);
}

/// Every header line is of one of these two forms: its name can stand
/// between the colons, and the line is made of that name and of what
/// follows the space behind it.
pub proof fn lemma_header_line_shape(line: Seq<char>)
    requires
        header_of(line) is Some,
    ensures
        is_name(header_of(line)->Some_0.name),
        line == seq![':'] + header_of(line)->Some_0.name + seq![':', ' '] + line.skip(
            name_end(line) + 2,
        ),
{
    let tail = line.skip(1);
    lemma_find(tail, ':');
    let name = line.subrange(1, name_end(line));
    assert forall|i: int| 0 <= i < name.len() implies name[i] != ':' by {
        assert(name[i] == tail[i]);
    }
    assert(line == seq![':'] + name + seq![':', ' '] + line.skip(name_end(line) + 2));
}

/// The labels of `tags` written as a tag list: one after the other, with a
/// comma and a space between each two.
pub open spec fn join_tags(tags: Seq<Seq<char>>) -> Seq<char>
    decreases tags.len(),
{
    if tags.len() == 0 {
        seq![]
    } else if tags.len() == 1 {
        tags[0]
    } else {
        tags[0] + seq![',', ' '] + join_tags(tags.drop_first())
    }
}

/// Whether no separator stands anywhere in `tag`.
pub open spec fn is_tag(tag: Seq<char>) -> bool {
    forall|i: int| !separator_at(tag, i)
}

/// Splitting a tag list loses nothing and splits wherever it can: there is
/// at least one label, no label holds a separator, and the labels written
/// as a list again are the list that was split.
pub proof fn lemma_split_tags(body: Seq<char>)
    ensures
        split_tags(body).len() >= 1,
        forall|k: int| 0 <= k < split_tags(body).len() ==> is_tag(#[trigger] split_tags(body)[k]),
        join_tags(split_tags(body)) == body,
    decreases body.len(),
{
    lemma_find_separator(body);
    let at = find_separator(body) as int;
    if at + 2 > body.len() {
        assert forall|i: int| !separator_at(body, i) by {}
    } else {
        let first = body.take(at);
        let rest = body.skip(at + 2);
        lemma_split_tags(rest);
        let tags = split_tags(body);
        assert(tags.drop_first() == split_tags(rest));
        assert forall|i: int| !separator_at(first, i) by {
            if separator_at(first, i) {
                assert(separator_at(body, i));
            }
        }
        assert forall|k: int| 0 <= k < tags.len() implies is_tag(#[trigger] tags[k]) by {
            if k > 0 {
                assert(tags[k] == split_tags(rest)[k - 1]);
            }
        }
        assert(first + seq![',', ' '] + rest == body);
    }
}

/// Labels that are written as a tag list and split again are the same
/// labels, in the same order, as long as none of them holds a separator.
pub proof fn lemma_split_tags_of_joined(tags: Seq<Seq<char>>)
    requires
        tags.len() >= 1,
        forall|k: int| 0 <= k < tags.len() ==> is_tag(#[trigger] tags[k]),
    ensures
        split_tags(join_tags(tags)) == tags,
    decreases tags.len(),
{
    let body = join_tags(tags);
    let first = tags[0];
    assert(is_tag(first));
    if tags.len() == 1 {
        assert forall|i: int| 0 <= i < body.len() implies !separator_at(body, i) by {}
        lemma_find_separator_is(body, body.len() as int);
        assert(split_tags(body) == seq![body]);
    } else {
        let more = tags.drop_first();
        assert forall|k: int| 0 <= k < more.len() implies is_tag(#[trigger] more[k]) by {
            assert(more[k] == tags[k + 1]);
        }
        lemma_split_tags_of_joined(more);
        let at = first.len() as int;
        assert forall|i: int| 0 <= i < at implies !separator_at(body, i) by {
            if separator_at(body, i) {
                if i + 1 < at {
                    assert(separator_at(first, i));
                }
            }
        }
        assert(separator_at(body, at));
        lemma_find_separator_is(body, at);
        assert(body.take(at) == first);
        assert(body.skip(at + 2) == join_tags(more));
        assert(seq![first] + more == tags);
    }
}

/// Searches `chars[from..to]` for a comma that a space follows.
fn find_separator_in(chars: &Vec<char>, from: usize, to: usize) -> (at: usize)
    requires
        from <= to <= chars.len(),
    ensures
        from <= at <= to,
        at - from == find_separator(chars@.subrange(from as int, to as int)),
{
    let ghost s = chars@.subrange(from as int, to as int);
    let mut at: usize = from;
    while at < to && !(to - at >= 2 && chars[at] == ',' && chars[at + 1] == ' ')
        invariant
            from <= at <= to <= chars.len(),
            s == chars@.subrange(from as int, to as int),
            forall|i: int| 0 <= i < at - from ==> !separator_at(s, i),
        decreases to - at,
    {
        at += 1;
    }
    proof {
        lemma_find_separator_is(s, at - from);
    }
    at
}

/// Splits the tag list `chars[from..to]` into its labels.
fn tags_of(chars: &Vec<char>, from: usize, to: usize) -> (tags: Vec<String>)
    requires
        from <= to <= chars.len(),
    ensures
        strings_view(tags@) == split_tags(chars@.subrange(from as int, to as int)),
{
    let ghost body = chars@.subrange(from as int, to as int);
    let mut tags: Vec<String> = Vec::new();
    let mut pos: usize = from;
    assert(strings_view(tags@) + split_tags(body) == split_tags(body));
    loop
        invariant_except_break
            from <= pos <= to <= chars.len(),
            body == chars@.subrange(from as int, to as int),
            split_tags(body) == strings_view(tags@) + split_tags(
                chars@.subrange(pos as int, to as int),
            ),
        ensures
            strings_view(tags@) == split_tags(body),
        decreases to - pos,
    {
        let ghost rest = chars@.subrange(pos as int, to as int);
        let ghost before = strings_view(tags@);
        let at = find_separator_in(chars, pos, to);
        let tag = string_of(chars, pos, at);
        proof {
            assert(rest.take(at - pos) == chars@.subrange(pos as int, at as int));
            assert(strings_view(tags@.push(tag)) == before.push(tag@));
        }
        tags.push(tag);
        proof {
            lemma_find_separator(rest);
        }
        if at >= to {
            break ;
        }
        proof {
            assert(rest.skip(at - pos + 2) == chars@.subrange(at + 2, to as int));
        }
        pos = at + 2;
    }
    tags
}

/// Reads a header line held as characters.
pub fn parse_header(line: &Vec<char>) -> (header: Option<(String, Vec<String>, String)>)
    ensures
        match header_of(line@) {
            Some(h) => header matches Some((name, tags, description)) && name@ == h.name
                && strings_view(tags@) == h.tags && tags.len() == h.tags.len() && description@
                == h.description,
            None => header is None,
        },
{
    let len = line.len();
    if len == 0 || line[0] != ':' {
        return None;
    }
    let close = find_char(line, 1, len, ':');
    assert(line@.subrange(1, len as int) == line@.skip(1));
    if close == 1 || len - close < 2 || line[close + 1] != ' ' {
        return None;
    }
    let name = string_of(line, 1, close);
    let start = close + 2;
    let ghost rest = line@.skip(start as int);
    assert(line@.subrange(start as int, len as int) == rest);
    if start < len && line[start] == '(' {
        let end = find_char(line, start, len, ')');
        if start + 1 < end && end < len {
            assert(tag_list_end(rest) == Some(end - start));
            let tags = tags_of(line, start + 1, end);
            let (from, to) = trim_bounds(line, end + 1, len);
            let description = string_of(line, from, to);
            proof {
                assert(rest.subrange(1, end - start) == line@.subrange(start + 1, end as int));
                assert(rest.skip(end - start + 1) == line@.subrange(end + 1, len as int));
            }
            return Some((name, tags, description));
        }
    }
    assert(tag_list_end(rest) is None);
    let (from, to) = trim_bounds(line, start, len);
    let description = string_of(line, from, to);
    let tags: Vec<String> = Vec::new();
    assert(strings_view(tags@) == Seq::<Seq<char>>::empty());
    Some((name, tags, description))
}

/// Reads a header line: the name of the term, its tags in the order
/// written, and the first piece of its description. `None` where the line
/// is no header line.
pub fn read_term_name(line: String) -> (header: Option<(String, Vec<String>, String)>)
    ensures
        match header_of(line@) {
            Some(h) => header matches Some((name, tags, description)) && name@ == h.name
                && strings_view(tags@) == h.tags && tags.len() == h.tags.len() && description@
                == h.description,
            None => header is None,
        },
{
    let chars = chars_of(line.as_str());
    parse_header(&chars)
}

} // verus!
