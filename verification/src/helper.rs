//! Sizes: of aligned allocations, of grown chunks, of escaped text.

use vstd::prelude::*;
use crate::constants::memory::{ALIGNMENT, ALIGN_MASK, CHUNK_GROWTH_DIVISOR};
use crate::parser::decode_entity;
use crate::text::{chars_of, string_of};
use crate::utility::{
    entity_len, escape_char, escaped, lemma_escaped_push, lemma_unescaped_step, unescaped,
};

verus! {

/// The least multiple of the alignment that is not below `size`.
pub open spec fn aligned(size: int) -> int {
    (size + 7) / 8 * 8
}

/// `size` grown by half, rounded down.
pub open spec fn grown(size: int) -> int {
    size * 3 / 2
}

/// Rounds `size` up to the alignment.
pub fn align_size(size: usize) -> (rounded: usize)
    requires
        size + ALIGN_MASK <= usize::MAX,
    ensures
        rounded == aligned(size as int),
        rounded % ALIGNMENT == 0,
        size <= rounded < size + ALIGNMENT,
{
    let padded: usize = size + ALIGN_MASK;
    assert(padded & !7usize == padded / 8 * 8) by (bit_vector);
    padded & !ALIGN_MASK
}

/// The size that a chunk of `current_size` bytes grows to: half as much again,
/// rounded up to the alignment.
pub fn calculate_chunk_growth(current_size: usize) -> (size: usize)
    requires
        aligned(grown(current_size as int)) <= usize::MAX,
    ensures
        size == aligned(grown(current_size as int)),
{
    let half: usize = current_size / CHUNK_GROWTH_DIVISOR;
    let odd: usize = current_size % CHUNK_GROWTH_DIVISOR;
    assert(current_size * 3 / 2 == current_size + half) by {
        assert(current_size == 2 * half + odd);
    }
    align_size(current_size + half)
}

/// A count held at the largest number the machine can count to.
pub open spec fn held(n: int) -> int {
    if n <= usize::MAX {
        n
    } else {
        usize::MAX as int
    }
}

/// The sum of two counts, held at the largest number the machine can count to.
pub(crate) fn add_held(a: usize, b: usize) -> (sum: usize)
    ensures
        sum == held(a + b),
{
    if a <= usize::MAX - b {
        a + b
    } else {
        usize::MAX
    }
}

/// The number of characters that `s` has when escaped, held at the largest
/// number the machine can count to.
pub fn escape_size(s: &str) -> (size: usize)
    ensures
        size == held(escaped(s@).len() as int),
{
    let chars = chars_of(s);
    let mut size: usize = 0;
    let mut i: usize = 0;
    while i < chars.len()
        invariant
            i <= chars.len(),
            chars@ == s@,
            size == held(escaped(chars@.take(i as int)).len() as int),
        decreases chars.len() - i,
    {
        let c = chars[i];
        let width: usize = if c == '&' {
            5
        } else if c == '<' || c == '>' {
            4
        } else if c == '"' || c == '\'' {
            6
        } else {
            1
        };
        proof {
            lemma_escaped_push(chars@.take(i as int), c);
            assert(chars@.take(i as int).push(c) =~= chars@.take(i + 1));
            assert(escape_char(c).len() == width);
        }
        size = add_held(size, width);
        i = i + 1;
    }
    assert(chars@.take(i as int) =~= chars@);
    size
}

/// The number of characters that `s` has when unescaped, held at the largest
/// number the machine can count to.
pub fn unescape_size(s: &str) -> (size: usize)
    ensures
        size == held(unescaped(s@).len() as int),
{
    let chars = chars_of(s);
    let mut size: usize = 0;
    let mut i: usize = 0;
    assert(chars@.skip(0) =~= chars@);
    while i < chars.len()
        invariant
            i <= chars.len(),
            chars@ == s@,
            unescaped(chars@.skip(i as int)).len() <= unescaped(chars@).len(),
            size == held(unescaped(chars@).len() - unescaped(chars@.skip(i as int)).len()),
        decreases chars.len() - i,
    {
        proof {
            lemma_unescaped_step(chars@.skip(i as int));
        }
        if chars[i] != '&' {
            assert(chars@.skip(i as int).skip(1) =~= chars@.skip(i + 1));
            size = add_held(size, 1);
            i = i + 1;
        } else {
            let start: usize = i + 1;
            let mut end: usize = start;
            while end < chars.len() && chars[end] != ';'
                invariant
                    start <= end <= chars.len(),
                    entity_len(chars@.skip(end as int)) + (end - start) == entity_len(
                        chars@.skip(start as int),
                    ),
                decreases chars.len() - end,
            {
                assert(chars@.skip(end as int).skip(1) =~= chars@.skip(end + 1));
                end = end + 1;
            }
            let ghost rest = chars@.skip(start as int);
            assert(chars@.skip(i as int).skip(1) =~= rest);
            assert(entity_len(rest) == end - start);
            let name = string_of(&chars, start, end);
            assert(name@ =~= rest.take(entity_len(rest) as int));
            let next: usize = if end < chars.len() {
                end + 1
            } else {
                end
            };
            assert(rest.skip(next - start) =~= chars@.skip(next as int));
            size = match decode_entity(name.as_str()) {
                Some(_) => add_held(size, 1),
                None => add_held(add_held(size, end - start), 2),
            };
            i = next;
        }
    }
    assert(chars@.skip(i as int) =~= Seq::<char>::empty());
    size
}

} // verus!
