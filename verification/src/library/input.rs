//! Paths given on standard input: how the text that was read is broken
//! into paths.

use vstd::prelude::*;

verus! {

/// What the paths of an input are separated by.
#[derive(Clone, Copy, Debug, PartialEq, Eq, Structural)]
pub enum Separator {
    /// Newlines and zero bytes.
    Lines,
    /// Quotation marks.
    Quotes,
    /// Runs of blanks.
    Whitespace,
}

/// Whether a byte is an ASCII blank: a space, a tab, a newline, a form feed
/// or a carriage return.
pub open spec fn is_blank(b: u8) -> bool {
    b == 32 || b == 9 || b == 10 || b == 12 || b == 13
}

/// Whether the byte `b` separates paths.
pub open spec fn separates(separator: Separator, b: u8) -> bool {
    match separator {
        Separator::Lines => b == 10 || b == 0,
        Separator::Quotes => b == 34,
        Separator::Whitespace => is_blank(b),
    }
}

/// The pieces of `text` between its separators; two separators in a row
/// have an empty piece between them.
pub open spec fn pieces(text: Seq<u8>, separator: Separator) -> Seq<Seq<u8>>
    decreases text.len(),
{
    if text.len() == 0 {
        seq![Seq::empty()]
    } else {
        let before = pieces(text.drop_last(), separator);
        if separates(separator, text.last()) {
            before.push(Seq::empty())
        } else {
            before.drop_last().push(before.last().push(text.last()))
        }
    }
}

/// Whether a byte is a character of white space: a tab, a newline, a
/// vertical tab, a form feed, a carriage return or a space.
pub open spec fn is_white_space_byte(b: u8) -> bool {
    (9 <= b <= 13) || b == 32
}

/// Whether two bytes are a character of white space in UTF-8: the next-line
/// character or the no-break space.
pub open spec fn is_white_space_pair(a: u8, b: u8) -> bool {
    a == 0xC2 && (b == 0x85 || b == 0xA0)
}

/// Whether three bytes are a character of white space in UTF-8: the Ogham
/// space mark, one of the spaces from U+2000 to U+200A, the line and the
/// paragraph separator, the narrow no-break space, the medium mathematical
/// space or the ideographic space.
pub open spec fn is_white_space_triple(a: u8, b: u8, c: u8) -> bool {
    ||| a == 0xE1 && b == 0x9A && c == 0x80
    ||| a == 0xE2 && b == 0x80 && ((0x80 <= c <= 0x8A) || c == 0xA8 || c == 0xA9 || c == 0xAF)
    ||| a == 0xE2 && b == 0x81 && c == 0x9F
    ||| a == 0xE3 && b == 0x80 && c == 0x80
}

/// The number of bytes of the character of white space that `text` ends
/// with, or 0 where it ends with none.
pub open spec fn white_space_at_end(text: Seq<u8>) -> nat {
    let n = text.len() as int;
    if n >= 1 && is_white_space_byte(text[n - 1]) {
        1
    } else if n >= 2 && is_white_space_pair(text[n - 2], text[n - 1]) {
        2
    } else if n >= 3 && is_white_space_triple(text[n - 3], text[n - 2], text[n - 1]) {
        3
    } else {
        0
    }
}

/// The number of bytes of the character of white space that `text` starts
/// with, or 0 where it starts with none.
pub open spec fn white_space_at_start(text: Seq<u8>) -> nat {
    if text.len() >= 1 && is_white_space_byte(text[0]) {
        1
    } else if text.len() >= 2 && is_white_space_pair(text[0], text[1]) {
        2
    } else if text.len() >= 3 && is_white_space_triple(text[0], text[1], text[2]) {
        3
    } else {
        0
    }
}

/// `text` without the white space at its end.
pub open spec fn trim_end(text: Seq<u8>) -> Seq<u8>
    decreases text.len(),
{
    if white_space_at_end(text) > 0 {
        trim_end(text.subrange(0, text.len() - white_space_at_end(text)))
    } else {
        text
    }
}

/// `text` without the white space at its start.
pub open spec fn trim_start(text: Seq<u8>) -> Seq<u8>
    decreases text.len(),
{
    if white_space_at_start(text) > 0 {
        trim_start(text.subrange(white_space_at_start(text) as int, text.len() as int))
    } else {
        text
    }
}

/// A piece as it counts as a path: between quotation marks, paths are
/// written with white space around them that does not belong to them.
pub open spec fn as_path(piece: Seq<u8>, separator: Separator) -> Seq<u8> {
    if separator == Separator::Quotes {
        trim_start(trim_end(piece))
    } else {
        piece
    }
}

/// The paths among the pieces: the pieces that are not empty.
pub open spec fn paths_among(all: Seq<Seq<u8>>, separator: Separator) -> Seq<Seq<u8>>
    decreases all.len(),
{
    if all.len() == 0 {
        Seq::empty()
    } else {
        let before = paths_among(all.drop_last(), separator);
        let path = as_path(all.last(), separator);
        if path.len() > 0 {
            before.push(path)
        } else {
            before
        }
    }
}

/// Whether `text` holds a byte that `separator` separates by.
pub open spec fn holds_separator(text: Seq<u8>, separator: Separator) -> bool {
    exists|i: int| 0 <= i < text.len() && separates(separator, #[trigger] text[i])
}

/// What the paths of `text` are separated by: newlines and zero bytes
/// where it holds any, else quotation marks where it holds any, else
/// blanks.
pub open spec fn separator_of(text: Seq<u8>) -> Separator {
    if holds_separator(text, Separator::Lines) {
        Separator::Lines
    } else if holds_separator(text, Separator::Quotes) {
        Separator::Quotes
    } else {
        Separator::Whitespace
    }
}

/// The paths that `text` names.
pub open spec fn input_paths(text: Seq<u8>) -> Seq<Seq<u8>> {
    paths_among(pieces(text, separator_of(text)), separator_of(text))
}

/// Tests whether the byte `b` separates paths.
pub fn is_separator(separator: Separator, b: u8) -> (r: bool)
    ensures
        r == separates(separator, b),
{
    match separator {
        Separator::Lines => b == 10 || b == 0,
        Separator::Quotes => b == 34,
        Separator::Whitespace => b == 32 || b == 9 || b == 10 || b == 12 || b == 13,
    }
}

/// Tests whether `text` holds a byte that `separator` separates by.
pub fn has_separator(text: &Vec<u8>, separator: Separator) -> (r: bool)
    ensures
        r == holds_separator(text@, separator),
{
    let mut i: usize = 0;
    while i < text.len()
        invariant
            i <= text.len(),
            forall|k: int| 0 <= k < i ==> !separates(separator, #[trigger] text@[k]),
        decreases text.len() - i,
    {
        if is_separator(separator, text[i]) {
            return true;
        }
        i += 1;
    }
    false
}

/// Tests whether a byte is a character of white space.
fn white_space_byte(b: u8) -> (r: bool)
    ensures
        r == is_white_space_byte(b),
{
    (9 <= b && b <= 13) || b == 32
}

/// Tests whether two bytes are a character of white space.
fn white_space_pair(a: u8, b: u8) -> (r: bool)
    ensures
        r == is_white_space_pair(a, b),
{
    a == 0xC2 && (b == 0x85 || b == 0xA0)
}

/// Tests whether three bytes are a character of white space.
fn white_space_triple(a: u8, b: u8, c: u8) -> (r: bool)
    ensures
        r == is_white_space_triple(a, b, c),
{
    (a == 0xE1 && b == 0x9A && c == 0x80) || (a == 0xE2 && b == 0x80 && ((0x80 <= c && c <= 0x8A)
        || c == 0xA8 || c == 0xA9 || c == 0xAF)) || (a == 0xE2 && b == 0x81 && c == 0x9F) || (a
        == 0xE3 && b == 0x80 && c == 0x80)
}

/// The bytes of the character of white space that stands before offset
/// `end` of `text`, with nothing before offset `start` counted.
fn white_space_before(text: &Vec<u8>, start: usize, end: usize) -> (r: usize)
    requires
        start <= end <= text.len(),
    ensures
        r == white_space_at_end(text@.subrange(start as int, end as int)),
        r <= end - start,
{
    let n: usize = end - start;
    if n >= 1 && white_space_byte(text[end - 1]) {
        1
    } else if n >= 2 && white_space_pair(text[end - 2], text[end - 1]) {
        2
    } else if n >= 3 && white_space_triple(text[end - 3], text[end - 2], text[end - 1]) {
        3
    } else {
        0
    }
}

/// The bytes of the character of white space that stands at offset `start`
/// of `text`, with nothing from offset `end` on counted.
fn white_space_after(text: &Vec<u8>, start: usize, end: usize) -> (r: usize)
    requires
        start <= end <= text.len(),
    ensures
        r == white_space_at_start(text@.subrange(start as int, end as int)),
        r <= end - start,
{
    let n: usize = end - start;
    if n >= 1 && white_space_byte(text[start]) {
        1
    } else if n >= 2 && white_space_pair(text[start], text[start + 1]) {
        2
    } else if n >= 3 && white_space_triple(text[start], text[start + 1], text[start + 2]) {
        3
    } else {
        0
    }
}

/// Takes the white space off both ends of `text`, which is in UTF-8.
pub fn trim(text: &Vec<u8>) -> (r: Vec<u8>)
    ensures
        r@ == trim_start(trim_end(text@)),
{
    let mut end: usize = text.len();
    assert(text@.subrange(0, end as int) =~= text@);
    let mut at_end = white_space_before(text, 0, end);
    while at_end > 0
        invariant
            end <= text.len(),
            at_end == white_space_at_end(text@.subrange(0, end as int)),
            at_end <= end,
            trim_end(text@) == trim_end(text@.subrange(0, end as int)),
        decreases end,
    {
        assert(text@.subrange(0, end as int).subrange(0, end - at_end) =~= text@.subrange(
            0,
            end - at_end,
        ));
        end -= at_end;
        at_end = white_space_before(text, 0, end);
    }
    let mut start: usize = 0;
    let mut at_start = white_space_after(text, start, end);
    while at_start > 0
        invariant
            start <= end <= text.len(),
            at_start == white_space_at_start(text@.subrange(start as int, end as int)),
            at_start <= end - start,
            trim_start(trim_end(text@)) == trim_start(text@.subrange(start as int, end as int)),
        decreases end - start,
    {
        assert(text@.subrange(start as int, end as int).subrange(
            at_start as int,
            end - start,
        ) =~= text@.subrange(start + at_start, end as int));
        start += at_start;
        at_start = white_space_after(text, start, end);
    }
    crate::path::slice_bytes(text, start, end)
}

/// Breaks the text that was read from standard input into the paths it
/// names.
pub fn split_input(text: &Vec<u8>) -> (r: Vec<Vec<u8>>)
    ensures
        crate::path::path_list(r@) == input_paths(text@),
{
    let separator = if has_separator(text, Separator::Lines) {
        Separator::Lines
    } else if has_separator(text, Separator::Quotes) {
        Separator::Quotes
    } else {
        Separator::Whitespace
    };
    let mut paths: Vec<Vec<u8>> = Vec::new();
    let mut piece: Vec<u8> = Vec::new();
    let mut i: usize = 0;
    assert(text@.subrange(0, 0) =~= Seq::<u8>::empty());
    assert(crate::path::path_list(paths@) =~= Seq::<Seq<u8>>::empty());
    assert(pieces(Seq::<u8>::empty(), separator).drop_last() =~= Seq::<Seq<u8>>::empty());
    while i < text.len()
        invariant
            i <= text.len(),
            separator == separator_of(text@),
            pieces(text@.subrange(0, i as int), separator).len() > 0,
            piece@ == pieces(text@.subrange(0, i as int), separator).last(),
            crate::path::path_list(paths@) == paths_among(
                pieces(text@.subrange(0, i as int), separator).drop_last(),
                separator,
            ),
        decreases text.len() - i,
    {
        let ghost before = pieces(text@.subrange(0, i as int), separator);
        let ghost found = crate::path::path_list(paths@);
        proof {
            let upto = text@.subrange(0, i + 1);
            assert(upto.drop_last() =~= text@.subrange(0, i as int));
            assert(upto.last() == text@[i as int]);
        }
        if is_separator(separator, text[i]) {
            let path = match separator {
                Separator::Quotes => trim(&piece),
                _ => piece,
            };
            if path.len() > 0 {
                paths.push(path);
                assert(crate::path::path_list(paths@) =~= found.push(path@));
            }
            piece = Vec::new();
            assert(before.push(Seq::<u8>::empty()).drop_last() =~= before);
        } else {
            piece.push(text[i]);
            assert(before.drop_last().push(before.last().push(text@[i as int])).drop_last()
                =~= before.drop_last());
        }
        i += 1;
    }
    assert(text@.subrange(0, text.len() as int) =~= text@);
    let ghost all = pieces(text@, separator);
    let ghost found = crate::path::path_list(paths@);
    let path = match separator {
        Separator::Quotes => trim(&piece),
        _ => piece,
    };
    if path.len() > 0 {
        paths.push(path);
        assert(crate::path::path_list(paths@) =~= found.push(path@));
    }
    paths
}

} // verus!
