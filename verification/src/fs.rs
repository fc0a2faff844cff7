//! Names of files and directories: what may stand in them, and where the
//! extension of a file is found.

use vstd::prelude::*;
use crate::error::Error;
use crate::location::{path_of_url, url_path};

verus! {

/// Position of the last `mark` in `text`, if there is one.
pub open spec fn last_position(text: Seq<char>, mark: char) -> Option<int>
    decreases text.len(),
{
    if text.len() == 0 {
        None
    } else if text.last() == mark {
        Some(text.len() - 1)
    } else {
        last_position(text.drop_last(), mark)
    }
}

/// What follows the last `mark` in `text`, if there is one.
pub open spec fn after_last(text: Seq<char>, mark: char) -> Option<Seq<char>> {
    match last_position(text, mark) {
        Some(position) => Some(text.subrange(position + 1, text.len() as int)),
        None => None,
    }
}

/// The last segment of a slash-separated path.
pub open spec fn file_name(path: Seq<char>) -> Seq<char> {
    match after_last(path, '/') {
        Some(name) => name,
        None => path,
    }
}

/// The extension of the file that `path` names: what follows the last dot of
/// its last segment, and nothing where that segment has no dot.
pub open spec fn extname(path: Seq<char>) -> Seq<char> {
    match after_last(file_name(path), '.') {
        Some(extension) => extension,
        None => Seq::empty(),
    }
}

/// Characters that must not stand in the name of a file or a directory: path
/// separators, what common file systems reserve, and control characters.
pub open spec fn is_unsafe(c: char) -> bool {
    c == '/' || c == '\\' || c == ':' || c == '*' || c == '?' || c == '"' || c == '<' || c == '>'
        || c == '|' || c < ' '
}

/// `name` without its unsafe characters.
pub open spec fn sanitized(name: Seq<char>) -> Seq<char> {
    name.filter(|c: char| !is_unsafe(c))
}

/// The last `mark` of a text is at `position` when it stands there and
/// nowhere behind; a text without any has no last one.
pub proof fn lemma_last_position(text: Seq<char>, mark: char)
    ensures
        match last_position(text, mark) {
            Some(position) => {
                &&& 0 <= position < text.len()
                &&& text[position] == mark
                &&& forall|i: int| position < i < text.len() ==> text[i] != mark
            },
            None => forall|i: int| 0 <= i < text.len() ==> text[i] != mark,
        },
    decreases text.len(),
{
    if text.len() > 0 && text.last() != mark {
        let front = text.drop_last();
        lemma_last_position(front, mark);
        assert forall|i: int| 0 <= i < front.len() implies front[i] == text[i] by {}
        match last_position(front, mark) {
            Some(position) => {
                assert(front[position] == text[position]);
                assert forall|i: int| position < i < text.len() implies text[i] != mark by {
                    if i < front.len() {
                        assert(front[i] == text[i]);
                    }
                }
            },
            None => {
                assert forall|i: int| 0 <= i < text.len() implies text[i] != mark by {
                    if i < front.len() {
                        assert(front[i] == text[i]);
                    }
                }
            },
        }
    }
}

/// Where the last `mark` of a text is known, `last_position` finds it there.
proof fn lemma_last_position_found(text: Seq<char>, mark: char, position: int)
    requires
        0 <= position < text.len(),
        text[position] == mark,
        forall|i: int| position < i < text.len() ==> text[i] != mark,
    ensures
        last_position(text, mark) == Some(position),
    decreases text.len(),
{
    if text.last() != mark {
        let front = text.drop_last();
        assert(front[position] == text[position]);
        assert forall|i: int| position < i < front.len() implies front[i] != mark by {
            assert(front[i] == text[i]);
        }
        lemma_last_position_found(front, mark, position);
    }
}

/// Finds the last `mark` in `text`.
fn find_last(text: &str, mark: char) -> (found: Option<usize>)
    ensures
        match found {
            Some(position) => last_position(text@, mark) == Some(position as int),
            None => last_position(text@, mark) is None,
        },
{
    let length: usize = text.unicode_len();
    let mut position: usize = length;
    while position > 0
        invariant
            position <= length,
            length == text@.len(),
            forall|i: int| position <= i < length ==> text@[i] != mark,
        decreases position,
    {
        position -= 1;
        if text.get_char(position) == mark {
            proof {
                lemma_last_position_found(text@, mark, position as int);
            }
            return Some(position);
        }
    }
    proof {
        lemma_last_position(text@, mark);
    }
    None
}

/// What follows the last `mark` in `text`, or `whole` where there is none.
fn tail_after<'a>(text: &'a str, mark: char, whole: &'a str) -> (tail: &'a str)
    ensures
        tail@ == match after_last(text@, mark) {
            Some(rest) => rest,
            None => whole@,
        },
{
    let length: usize = text.unicode_len();
    match find_last(text, mark) {
        Some(position) => {
            proof {
                lemma_last_position(text@, mark);
            }
            text.substring_char(position + 1, length)
        },
        None => whole,
    }
}

/// The extension of the file that the slash-separated `path` names.
pub fn extname_from_path(path: &str) -> (extension: String)
    ensures
        extension@ == extname(path@),
{
    let name = tail_after(path, '/', path);
    proof {
        reveal_strlit("");
        assert(""@ =~= Seq::<char>::empty());
    }
    String::from_str(tail_after(name, '.', ""))
}

/// The extension of the file that the address `url` points to, taken from the
/// path of the address: a query or a fragment plays no part.
pub fn extname_from_url(url: &str) -> (extension: Result<String, Error>)
    ensures
        match extension {
            Ok(text) => path_of_url(url@) is Some && text@ == extname(path_of_url(url@).unwrap()),
            Err(error) => error == Error::InvalidUrl && path_of_url(url@) is None,
        },
{
    match url_path(url) {
        Some(path) => Ok(extname_from_path(path.as_str())),
        None => Err(Error::InvalidUrl),
    }
}

fn unsafe_in_names(c: char) -> (unsafe_char: bool)
    ensures
        unsafe_char == is_unsafe(c),
{
    c == '/' || c == '\\' || c == ':' || c == '*' || c == '?' || c == '"' || c == '<' || c == '>'
        || c == '|' || c < ' '
}

/// Strips from `name` the characters that are unsafe in the name of a file or
/// a directory; the others stay, in their order.
pub fn sanitize_name(name: &str) -> (clean: String)
    ensures
        clean@ == sanitized(name@),
        forall|i: int| 0 <= i < clean@.len() ==> !is_unsafe(#[trigger] clean@[i]),
{
    let keep = Ghost(|c: char| !is_unsafe(c));
    let length: usize = name.unicode_len();
    let mut clean = String::new();
    let mut index: usize = 0;
    proof {
        reveal(Seq::filter);
        assert(name@.take(0).filter(keep@) =~= Seq::empty());
    }
    while index < length
        invariant
            index <= length,
            length == name@.len(),
            keep@ == (|c: char| !is_unsafe(c)),
            clean@ == name@.take(index as int).filter(keep@),
        decreases length - index,
    {
        let c = name.get_char(index);
        proof {
            reveal(Seq::filter);
            let longer = name@.take(index + 1);
            assert(longer.drop_last() =~= name@.take(index as int));
            assert(longer.last() == c);
        }
        if !unsafe_in_names(c) {
            clean.append(name.substring_char(index, index + 1));
            assert(clean@ =~= name@.take(index as int).filter(keep@).push(c));
        }
        index += 1;
    }
    proof {
        assert(name@.take(index as int) =~= name@);
        assert forall|i: int| 0 <= i < clean@.len() implies !is_unsafe(#[trigger] clean@[i]) by {
            name@.lemma_filter_pred(keep@, i);
        }
    }
    clean
}

} // verus!
