//! The tags of a repository as `git ls-remote --tags` lists them: one line
//! for each tag, the commit first, then white space, then the name of the
//! reference, which ends in `v` and a version.

use vstd::prelude::*;
use crate::text::{chars_of, is_word_char, text_of, word_char};
use crate::versions::{sort_tags, sorted_from, sorted_tags, tag_views, TagView, VersionTag};

verus! {

/// White space: the characters with the Unicode property `White_Space`.
pub open spec fn is_space(c: char) -> bool {
    let n = c as int;
    ||| 0x09 <= n <= 0x0d
    ||| n == 0x20
    ||| n == 0x85
    ||| n == 0xa0
    ||| n == 0x1680
    ||| 0x2000 <= n <= 0x200a
    ||| n == 0x2028
    ||| n == 0x2029
    ||| n == 0x202f
    ||| n == 0x205f
    ||| n == 0x3000
}

/// The place of the first white space from `from` on; the length of the line
/// where there is none.
pub open spec fn first_space(line: Seq<char>, from: int) -> int
    decreases line.len() - from,
{
    if from < 0 || from >= line.len() {
        line.len() as int
    } else if is_space(line[from]) {
        from
    } else {
        first_space(line, from + 1)
    }
}

/// The place of the last `v` before `end`; -1 where there is none.
pub open spec fn last_v(line: Seq<char>, end: int) -> int
    decreases end,
{
    if end <= 0 || end > line.len() {
        -1
    } else if line[end - 1] == 'v' {
        end - 1
    } else {
        last_v(line, end - 1)
    }
}

/// Where the longest run of word characters that ends just before `end`
/// begins.
pub open spec fn word_start(line: Seq<char>, end: int) -> int
    decreases end,
{
    if 0 < end <= line.len() && is_word_char(line[end - 1]) {
        word_start(line, end - 1)
    } else {
        end
    }
}

/// The tag that a line lists: the commit is the run of word characters
/// before the first white space of the line, and the version is what follows
/// the last `v` of the line, which stands behind that white space. `None`
/// where the line has no white space or no `v` behind it.
pub open spec fn tag_of_line(line: Seq<char>) -> Option<TagView> {
    let space = first_space(line, 0);
    let v = last_v(line, line.len() as int);
    if space < line.len() && space < v {
        Some(
            TagView {
                version: line.subrange(v + 1, line.len() as int),
                commit: line.subrange(word_start(line, space), space),
            },
        )
    } else {
        None
    }
}

/// The place of the first line feed from `from` on; the length of the text
/// where there is none.
pub open spec fn line_feed(text: Seq<char>, from: int) -> int
    decreases text.len() - from,
{
    if from < 0 || from >= text.len() {
        text.len() as int
    } else if text[from] == '\n' {
        from
    } else {
        line_feed(text, from + 1)
    }
}

/// The line that begins at `from`: it ends before the next line feed, and
/// before the carriage return that may precede the line feed, or with the
/// text.
pub open spec fn line_at(text: Seq<char>, from: int) -> Seq<char> {
    let feed = line_feed(text, from);
    let end = if feed < text.len() && from < feed && text[feed - 1] == '\r' {
        feed - 1
    } else {
        feed
    };
    text.subrange(from, end)
}

/// What a line lists, as a sequence of one tag or of none.
pub open spec fn tags_of_line(line: Seq<char>) -> Seq<TagView> {
    match tag_of_line(line) {
        Some(tag) => seq![tag],
        None => Seq::empty(),
    }
}

/// The tags that the lines of `text` from `from` on list, in their order.
pub open spec fn listed_tags(text: Seq<char>, from: int) -> Seq<TagView>
    decreases text.len() - from,
{
    let feed = line_feed(text, from);
    if from < 0 || from >= text.len() {
        Seq::empty()
    } else if from <= feed < text.len() {
        tags_of_line(line_at(text, from)) + listed_tags(text, feed + 1)
    } else {
        tags_of_line(line_at(text, from))
    }
}

fn space_char(c: char) -> (r: bool)
    ensures
        r == is_space(c),
{
    ('\u{9}' <= c && c <= '\u{d}') || c == ' ' || c == '\u{85}' || c == '\u{a0}' || c
        == '\u{1680}' || ('\u{2000}' <= c && c <= '\u{200a}') || c == '\u{2028}' || c
        == '\u{2029}' || c == '\u{202f}' || c == '\u{205f}' || c == '\u{3000}'
}

/// Reads one line of the listing.
pub fn parse_tag_line(line: &[char]) -> (r: Option<VersionTag>)
    ensures
        match r {
            Some(tag) => tag_of_line(line@) == Some(tag@),
            None => tag_of_line(line@) is None,
        },
{
    let n = line.len();
    let mut space: usize = 0;
    while space < n && !space_char(line[space])
        invariant
            space <= n == line.len(),
            first_space(line@, 0) == first_space(line@, space as int),
        decreases n - space,
    {
        space += 1;
    }
    if space == n {
        return None;
    }
    let mut end: usize = n;
    while end > 0 && line[end - 1] != 'v'
        invariant
            end <= n == line.len(),
            last_v(line@, n as int) == last_v(line@, end as int),
        decreases end,
    {
        end -= 1;
    }
    if end == 0 || end - 1 <= space {
        return None;
    }
    let mut start: usize = space;
    while start > 0 && word_char(line[start - 1])
        invariant
            start <= space < line.len(),
            word_start(line@, space as int) == word_start(line@, start as int),
        decreases start,
    {
        start -= 1;
    }
    Some(VersionTag { version: text_of(line, end, n), commit: text_of(line, start, space) })
}

/// The tags of a repository, read from what `git ls-remote --tags` printed:
/// the tags of the lines that list one and whose version is a version, each
/// as often as it is listed and no others, in ascending order of their
/// versions; tags of equal versions stand as they were listed.
pub fn version_tags(listing: &str) -> (tags: Vec<VersionTag>)
    ensures
        tag_views(tags@) == sorted_tags(listed_tags(listing@, 0)),
        sorted_from(tag_views(tags@), listed_tags(listing@, 0)),
{
    let text = chars_of(listing);
    let n = text.len();
    let mut listed: Vec<VersionTag> = Vec::new();
    let mut line: Vec<char> = Vec::new();
    let mut from: usize = 0;
    let mut i: usize = 0;
    proof {
        assert(tag_views(listed@) =~= Seq::<TagView>::empty());
        assert(tag_views(listed@) + listed_tags(text@, 0) =~= listed_tags(text@, 0));
        assert(line@ =~= text@.subrange(0, 0));
    }
    while i < n
        invariant
            from <= i <= n == text.len(),
            text@ == listing@,
            line@ == text@.subrange(from as int, i as int),
            line_feed(text@, from as int) == line_feed(text@, i as int),
            listed_tags(text@, 0) == tag_views(listed@) + listed_tags(text@, from as int),
        decreases n - i,
    {
        let c = text[i];
        if c == '\n' {
            let ghost feed = i as int;
            assert(line_feed(text@, from as int) == feed);
            if line.len() > 0 && line[line.len() - 1] == '\r' {
                assert(line@[line.len() - 1] == text@[feed - 1]);
                line.pop();
            }
            proof {
                assert(line@ =~= line_at(text@, from as int));
            }
            let ghost before = tag_views(listed@);
            match parse_tag_line(&line) {
                Some(tag) => {
                    proof {
                        assert(tag_views(listed@.push(tag)) =~= before + tags_of_line(line@));
                    }
                    listed.push(tag);
                },
                None => {
                    proof {
                        assert(before + tags_of_line(line@) =~= before);
                    }
                },
            }
            proof {
                assert(listed_tags(text@, from as int) == tags_of_line(line@) + listed_tags(
                    text@,
                    feed + 1,
                ));
                assert(tag_views(listed@) + listed_tags(text@, feed + 1) =~= before + (
                tags_of_line(line@) + listed_tags(text@, feed + 1)));
            }
            line = Vec::new();
            from = i + 1;
            proof {
                assert(line@ =~= text@.subrange(from as int, from as int));
            }
        } else {
            line.push(c);
            proof {
                assert(line@ =~= text@.subrange(from as int, i + 1));
            }
        }
        i += 1;
    }
    if from < n {
        proof {
            assert(line_feed(text@, from as int) == n);
            assert(line@ =~= line_at(text@, from as int));
            assert(listed_tags(text@, from as int) == tags_of_line(line@));
        }
        let ghost before = tag_views(listed@);
        match parse_tag_line(&line) {
            Some(tag) => {
                proof {
                    assert(tag_views(listed@.push(tag)) =~= before + tags_of_line(line@));
                }
                listed.push(tag);
            },
            None => {
                proof {
                    assert(before + tags_of_line(line@) =~= before);
                }
            },
        }
    } else {
        proof {
            assert(tag_views(listed@) + listed_tags(text@, from as int) =~= tag_views(listed@));
        }
    }
    sort_tags(&listed)
}

} // verus!
