//! The text kept beside a path: the names of its tags, one per line.

use itertools::Itertools;
use vstd::prelude::*;

use crate::record::PathMetadata;
use crate::string_set::{char_seqs, StringSet};

verus! {

/// `x` without one trailing carriage return.
pub open spec fn strip_cr(x: Seq<char>) -> Seq<char> {
    if x.len() > 0 && x.last() == '\r' {
        x.drop_last()
    } else {
        x
    }
}

/// The finished lines of `s` and the unfinished last one.
pub open spec fn split_state(s: Seq<char>) -> (Seq<Seq<char>>, Seq<char>)
    decreases s.len(),
{
    if s.len() == 0 {
        (Seq::empty(), Seq::empty())
    } else {
        let (lines, cur) = split_state(s.drop_last());
        if s.last() == '\n' {
            (lines.push(strip_cr(cur)), Seq::empty())
        } else {
            (lines, cur.push(s.last()))
        }
    }
}

/// The lines of `s`: the pieces between line feeds, each without the carriage
/// return before its line feed. A line feed at the very end starts no line.
pub open spec fn lines_of(s: Seq<char>) -> Seq<Seq<char>> {
    let (lines, cur) = split_state(s);
    if cur.len() == 0 {
        lines
    } else {
        lines.push(cur)
    }
}

/// The strings of `s` with a line feed between each two.
pub open spec fn joined(s: Seq<Seq<char>>) -> Seq<char>
    decreases s.len(),
{
    if s.len() == 0 {
        Seq::empty()
    } else if s.len() == 1 {
        s[0]
    } else {
        joined(s.drop_last()) + seq!['\n'] + s.last()
    }
}

/// Relies on `str::chars`: the characters of the text, in order.
#[verifier::external_body]
fn chars_of(text: &str) -> (r: Vec<char>)
    ensures
        r@ == text@,
{
    text.chars().collect()
}

/// Relies on `String`'s `FromIterator<&char>`: the string of the characters.
#[verifier::external_body]
fn string_of(chars: &Vec<char>) -> (r: String)
    ensures
        r@ == chars@,
{
    String::from_iter(chars.iter())
}

/// Relies on `Itertools::join`: each item written as itself, with the
/// separator between each two.
#[verifier::external_body]
fn join_lines(items: &Vec<String>) -> (r: String)
    ensures
        r@ == joined(char_seqs(items@)),
{
    items.iter().join("\n")
}

/// `cur` without a trailing carriage return, as a string.
fn finish_line(cur: &Vec<char>) -> (r: String)
    ensures
        r@ == strip_cr(cur@),
{
    let n = cur.len();
    if n > 0 && cur[n - 1] == '\r' {
        let mut head = cur.clone();
        head.pop();
        assert(head@ =~= cur@.drop_last());
        string_of(&head)
    } else {
        string_of(cur)
    }
}

/// The lines of `text`.
pub fn split_lines(text: &str) -> (r: Vec<String>)
    ensures
        char_seqs(r@) == lines_of(text@),
{
    let chars = chars_of(text);
    let mut lines: Vec<String> = Vec::new();
    let mut cur: Vec<char> = Vec::new();
    let mut i: usize = 0;
    while i < chars.len()
        invariant
            chars@ == text@,
            i <= chars.len(),
            (char_seqs(lines@), cur@) == split_state(chars@.subrange(0, i as int)),
        decreases chars.len() - i,
    {
        let c = chars[i];
        let ghost pre = chars@.subrange(0, i as int);
        assert(chars@.subrange(0, i + 1).drop_last() =~= pre);
        assert(chars@.subrange(0, i + 1).last() == c);
        if c == '\n' {
            let ghost before = lines@;
            let line = finish_line(&cur);
            lines.push(line);
            assert(char_seqs(lines@) =~= char_seqs(before).push(strip_cr(split_state(pre).1)));
            cur = Vec::new();
            assert(cur@ =~= Seq::<char>::empty());
        } else {
            cur.push(c);
        }
        i += 1;
    }
    assert(chars@.subrange(0, chars.len() as int) =~= chars@);
    if cur.len() > 0 {
        let ghost before = lines@;
        let line = string_of(&cur);
        lines.push(line);
        assert(char_seqs(lines@) =~= char_seqs(before).push(split_state(text@).1));
    }
    lines
}

impl PathMetadata {
    /// The metadata kept in `text`: one tag name per line.
    pub fn parse(text: &str) -> (r: PathMetadata)
        ensures
            r@ == lines_of(text@).to_set(),
    {
        PathMetadata::new(StringSet::from_vec(split_lines(text)))
    }

    /// What to keep beside the path: nothing when no tag is attached, so that
    /// an empty list is removed rather than written, else the tag names one
    /// per line, in the metadata's order.
    pub fn contents(&self) -> (r: Option<String>)
        ensures
            r is None <==> self@ == Set::<Seq<char>>::empty(),
            r matches Some(text) ==> text@ == joined(self.tag_order()),
    {
        if self.is_empty() {
            None
        } else {
            let names = self.tags().to_vec();
            Some(join_lines(&names))
        }
    }
}

/// What is appended to a file's name to name the file holding its metadata,
/// and the name of that file inside a directory.
pub const EXTENSION_PREFIX: &'static str = ".tag.list";

/// The characters of [`EXTENSION_PREFIX`].
pub open spec fn extension_chars() -> Seq<char> {
    seq!['.', 't', 'a', 'g', '.', 'l', 'i', 's', 't']
}

/// The last component of a path, empty when it has none.
pub uninterp spec fn file_name_part(path: Seq<char>) -> Seq<char>;

/// A path with its last component replaced by a name.
pub uninterp spec fn with_name(path: Seq<char>, name: Seq<char>) -> Seq<char>;

/// A path with a component appended.
pub uninterp spec fn joined_path(base: Seq<char>, part: Seq<char>) -> Seq<char>;

/// Relies on `Path::file_name`: the last component, empty when there is none.
#[verifier::external_body]
fn file_name_of(path: &str) -> (r: String)
    ensures
        r@ == file_name_part(path@),
{
    std::path::Path::new(path).file_name().unwrap_or_default().to_string_lossy().into_owned()
}

/// Relies on `Path::with_file_name`: the path with its last component replaced.
#[verifier::external_body]
fn path_with_name(path: &str, name: &str) -> (r: String)
    ensures
        r@ == with_name(path@, name@),
{
    std::path::Path::new(path).with_file_name(name).to_string_lossy().into_owned()
}

/// Relies on `Path::join`: the path with a component appended.
#[verifier::external_body]
fn join_path(base: &str, part: &str) -> (r: String)
    ensures
        r@ == joined_path(base@, part@),
{
    std::path::Path::new(base).join(part).to_string_lossy().into_owned()
}

impl PathMetadata {
    /// Where the metadata of `path` is kept: beside a file, under the file's
    /// name followed by [`EXTENSION_PREFIX`]; inside a directory, under that
    /// name alone. `is_file` tells whether `path` names a file.
    pub fn resolve(path: &str, is_file: bool) -> (r: String)
        ensures
            r@ == if is_file {
                with_name(path@, file_name_part(path@) + extension_chars())
            } else {
                joined_path(path@, extension_chars())
            },
    {
        proof {
            reveal_strlit(".tag.list");
        }
        assert(EXTENSION_PREFIX@ =~= extension_chars());
        if is_file {
            let mut name = chars_of(file_name_of(path).as_str());
            let mut ext = chars_of(EXTENSION_PREFIX);
            let ghost base = name@;
            name.append(&mut ext);
            let name = string_of(&name);
            assert(name@ =~= base + extension_chars());
            path_with_name(path, name.as_str())
        } else {
            join_path(path, EXTENSION_PREFIX)
        }
    }
}

} // verus!
