//! Splitting text at a separator.

use vstd::prelude::*;

use super::text::{find, found_from, lemma_found};

verus! {

/// The end of a piece that begins at a place: the next separator, or the end of
/// the text.
pub open spec fn piece_end(text: Seq<u8>, separator: Seq<u8>, from: int) -> int {
    match found_from(text, separator, from) {
        Some(at) => at,
        None => text.len() as int,
    }
}

/// The piece that begins at a place, and those behind it, behind `before`.
pub open spec fn pieces_from(text: Seq<u8>, separator: Seq<u8>, from: int, before: Seq<Seq<u8>>) -> Seq<Seq<u8>>
    decreases text.len() - from,
    when separator.len() > 0
    via pieces_from_decreases
{
    let pieces = before.push(text.subrange(from, piece_end(text, separator, from)));
    match found_from(text, separator, from) {
        Some(at) => pieces_from(text, separator, at + separator.len(), pieces),
        None => pieces,
    }
}

#[via_fn]
proof fn pieces_from_decreases(text: Seq<u8>, separator: Seq<u8>, from: int, before: Seq<Seq<u8>>) {
    lemma_found(text, separator, from);
}

/// The pieces between the separators of a text.
pub open spec fn pieces(text: Seq<u8>, separator: Seq<u8>) -> Seq<Seq<u8>> {
    pieces_from(text, separator, 0, Seq::empty())
}

/// The views of slices.
pub open spec fn views(list: Seq<&[u8]>) -> Seq<Seq<u8>> {
    list.map_values(|piece: &[u8]| piece@)
}

/// Splits a text at a separator.
pub fn split<'a>(text: &'a [u8], separator: &[u8]) -> (list: Vec<&'a [u8]>)
    requires
        separator@.len() > 0,
    ensures
        views(list@) == pieces(text@, separator@),
        list@.len() > 0,
{
    let mut list: Vec<&'a [u8]> = Vec::new();
    let mut from: usize = 0;
    assert(text@.len() == text.len());
    assert(separator@.len() == separator.len());
    assert(views(list@) =~= Seq::<Seq<u8>>::empty());
    loop
        invariant
            separator@.len() == separator.len(),
            separator@.len() > 0,
            text@.len() == text.len(),
            from <= text@.len(),
            pieces(text@, separator@) == pieces_from(text@, separator@, from as int, views(list@)),
        decreases text@.len() - from,
    {
        let ghost before = views(list@);
        match find(text, separator, from) {
            Some(at) => {
                list.push(vstd::slice::slice_subrange(text, from, at));
                assert(views(list@) =~= before.push(text@.subrange(from as int, at as int)));
                from = at + separator.len();
            },
            None => {
                list.push(vstd::slice::slice_subrange(text, from, text.len()));
                assert(views(list@) =~= before.push(text@.subrange(from as int, text@.len() as int)));
                return list;
            },
        }
    }
}

/// Whether bytes are one white-space character, written in UTF-8.
pub open spec fn is_space(character: Seq<u8>) -> bool {
    ||| character.len() == 1 && (character[0] == 0x20 || 0x09 <= character[0] <= 0x0d)
    ||| character.len() == 2 && character[0] == 0xc2 && (character[1] == 0x85 || character[1] == 0xa0)
    ||| character.len() == 3 && is_wide_space(character[0], character[1], character[2])
}

/// Whether three bytes are one white-space character: the Ogham space mark, the
/// spaces and separators of general punctuation, or the ideographic space.
pub open spec fn is_wide_space(first: u8, second: u8, third: u8) -> bool {
    ||| first == 0xe1 && second == 0x9a && third == 0x80
    ||| first == 0xe2 && second == 0x80 && (0x80 <= third <= 0x8a || third == 0xa8 || third == 0xa9 || third == 0xaf)
    ||| first == 0xe2 && second == 0x81 && third == 0x9f
    ||| first == 0xe3 && second == 0x80 && third == 0x80
}

/// How many bytes the white-space character takes that a text begins with, or
/// none.
pub open spec fn lead_width(text: Seq<u8>) -> int {
    if text.len() >= 1 && is_space(text.take(1)) {
        1
    } else if text.len() >= 2 && is_space(text.take(2)) {
        2
    } else if text.len() >= 3 && is_space(text.take(3)) {
        3
    } else {
        0
    }
}

/// How many bytes the white-space character takes that a text ends with, or
/// none.
pub open spec fn trail_width(text: Seq<u8>) -> int {
    if text.len() >= 1 && is_space(text.skip(text.len() - 1)) {
        1
    } else if text.len() >= 2 && is_space(text.skip(text.len() - 2)) {
        2
    } else if text.len() >= 3 && is_space(text.skip(text.len() - 3)) {
        3
    } else {
        0
    }
}

/// A text without the white space that it begins with.
pub open spec fn without_lead(text: Seq<u8>) -> Seq<u8>
    decreases text.len(),
{
    if lead_width(text) > 0 {
        without_lead(text.skip(lead_width(text)))
    } else {
        text
    }
}

/// A text without the white space that it ends with.
pub open spec fn without_trail(text: Seq<u8>) -> Seq<u8>
    decreases text.len(),
{
    if trail_width(text) > 0 {
        without_trail(text.take(text.len() - trail_width(text)))
    } else {
        text
    }
}

/// A text without the white space around it.
pub open spec fn trimmed(text: Seq<u8>) -> Seq<u8> {
    without_trail(without_lead(text))
}

fn space(character: &[u8]) -> (result: bool)
    ensures
        result == is_space(character@),
{
    assert(character@.len() == character.len());
    if character.len() == 1 {
        character[0] == 0x20 || (0x09 <= character[0] && character[0] <= 0x0d)
    } else if character.len() == 2 {
        character[0] == 0xc2 && (character[1] == 0x85 || character[1] == 0xa0)
    } else if character.len() == 3 {
        wide_space(character[0], character[1], character[2])
    } else {
        false
    }
}

fn wide_space(first: u8, second: u8, third: u8) -> (result: bool)
    ensures
        result == is_wide_space(first, second, third),
{
    if first == 0xe2 && second == 0x80 {
        (0x80 <= third && third <= 0x8a) || third == 0xa8 || third == 0xa9 || third == 0xaf
    } else {
        (first == 0xe1 && second == 0x9a && third == 0x80) || (first == 0xe2 && second == 0x81 && third == 0x9f) || (
        first == 0xe3 && second == 0x80 && third == 0x80)
    }
}

/// How many bytes of white space a text begins with, in its first character.
fn lead(text: &[u8]) -> (width: usize)
    ensures
        width == lead_width(text@),
{
    assert(text@.len() == text.len());
    let mut width: usize = 1;
    while width <= 3 && width <= text.len()
        invariant
            text@.len() == text.len(),
            1 <= width <= 4,
            forall|shorter: int| 1 <= shorter < width ==> shorter <= text@.len() && !is_space(#[trigger] text@.take(shorter)),
        decreases 4 - width,
    {
        let character: &[u8] = vstd::slice::slice_subrange(text, 0, width);
        assert(character@ =~= text@.take(width as int));
        if space(character) {
            proof {
                lemma_lead_found(text@, width as int);
            }
            return width;
        }
        width = width + 1;
    }
    proof {
        lemma_no_lead(text@, width as int);
    }
    0
}

/// How many bytes of white space a text ends with, in its last character.
fn trail(text: &[u8]) -> (width: usize)
    ensures
        width == trail_width(text@),
{
    assert(text@.len() == text.len());
    let mut width: usize = 1;
    while width <= 3 && width <= text.len()
        invariant
            text@.len() == text.len(),
            1 <= width <= 4,
            forall|shorter: int|
                1 <= shorter < width ==> shorter <= text@.len() && !is_space(#[trigger] text@.skip(text@.len() - shorter)),
        decreases 4 - width,
    {
        let character: &[u8] = vstd::slice::slice_subrange(text, text.len() - width, text.len());
        assert(character@ =~= text@.skip(text@.len() - width));
        if space(character) {
            proof {
                lemma_trail_found(text@, width as int);
            }
            return width;
        }
        width = width + 1;
    }
    proof {
        lemma_no_trail(text@, width as int);
    }
    0
}

proof fn lemma_lead_found(text: Seq<u8>, width: int)
    requires
        1 <= width <= 3,
        width <= text.len(),
        is_space(text.take(width)),
        forall|shorter: int| 1 <= shorter < width ==> !is_space(#[trigger] text.take(shorter)),
    ensures
        lead_width(text) == width,
{
    if width > 1 {
        assert(!is_space(text.take(1)));
    }
    if width > 2 {
        assert(!is_space(text.take(2)));
    }
}

proof fn lemma_no_lead(text: Seq<u8>, width: int)
    requires
        1 <= width <= 4,
        width == 4 || text.len() < width,
        forall|shorter: int| 1 <= shorter < width ==> !is_space(#[trigger] text.take(shorter)),
    ensures
        lead_width(text) == 0,
{
    if text.len() >= 1 {
        assert(!is_space(text.take(1)));
    }
    if text.len() >= 2 {
        assert(!is_space(text.take(2)));
    }
    if text.len() >= 3 {
        assert(!is_space(text.take(3)));
    }
}

proof fn lemma_trail_found(text: Seq<u8>, width: int)
    requires
        1 <= width <= 3,
        width <= text.len(),
        is_space(text.skip(text.len() - width)),
        forall|shorter: int| 1 <= shorter < width ==> !is_space(#[trigger] text.skip(text.len() - shorter)),
    ensures
        trail_width(text) == width,
{
    if width > 1 {
        assert(!is_space(text.skip(text.len() - 1)));
    }
    if width > 2 {
        assert(!is_space(text.skip(text.len() - 2)));
    }
}

proof fn lemma_no_trail(text: Seq<u8>, width: int)
    requires
        1 <= width <= 4,
        width == 4 || text.len() < width,
        forall|shorter: int| 1 <= shorter < width ==> !is_space(#[trigger] text.skip(text.len() - shorter)),
    ensures
        trail_width(text) == 0,
{
    if text.len() >= 1 {
        assert(!is_space(text.skip(text.len() - 1)));
    }
    if text.len() >= 2 {
        assert(!is_space(text.skip(text.len() - 2)));
    }
    if text.len() >= 3 {
        assert(!is_space(text.skip(text.len() - 3)));
    }
}

/// Cuts off the white space around a text.
pub fn trim<'a>(text: &'a [u8]) -> (core: &'a [u8])
    ensures
        core@ == trimmed(text@),
{
    let mut core: &'a [u8] = text;
    let mut width: usize = lead(core);
    while width > 0
        invariant
            width == lead_width(core@),
            without_lead(text@) == without_lead(core@),
        decreases core@.len(),
    {
        assert(core@.len() == core.len());
        let rest: &'a [u8] = vstd::slice::slice_subrange(core, width, core.len());
        assert(rest@ =~= core@.skip(width as int));
        core = rest;
        width = lead(core);
    }
    width = trail(core);
    while width > 0
        invariant
            width == trail_width(core@),
            trimmed(text@) == without_trail(core@),
        decreases core@.len(),
    {
        assert(core@.len() == core.len());
        let rest: &'a [u8] = vstd::slice::slice_subrange(core, 0, core.len() - width);
        assert(rest@ =~= core@.take(core@.len() - width));
        core = rest;
        width = trail(core);
    }
    core
}

} // verus!
