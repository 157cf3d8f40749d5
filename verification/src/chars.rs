//! The tokenizer seen character by character, and why text that is handed
//! over as bytes is read as the characters it was made of.

use vstd::prelude::*;
use vstd::utf8::{encode_scalar, encode_utf8};
use crate::sax::{
    between_chars, events_of, gather, lemma_run_split, run, step_byte, step_char, SaxEvent, State,
    Step, TokState,
};

verus! {

/// No character of several bytes is under way.
pub open spec fn idle(s: TokState) -> bool {
    s.utf8_bytes_left == 0 && s.utf8_sequence == 0 && s.utf8_len == 0
}

/// What one character does; nothing where the tokenizer has failed.
pub open spec fn step_scalar(s: TokState, c: char) -> Step {
    if s.state == State::Failed {
        (s, None)
    } else {
        step_char(s, c)
    }
}

/// What a run of characters does: the state after the last of them, and all
/// events in the order they arose.
pub open spec fn run_chars(s: TokState, input: Seq<char>) -> (TokState, Seq<SaxEvent>)
    decreases input.len(),
{
    if input.len() == 0 {
        (s, Seq::empty())
    } else {
        let before = run_chars(s, input.drop_last());
        let last = step_scalar(before.0, input.last());
        (last.0, before.1 + events_of(last))
    }
}

/// Characters may be fed in pieces: the pieces one after the other do what the
/// whole does.
pub proof fn lemma_run_chars_split(s: TokState, a: Seq<char>, b: Seq<char>)
    ensures
        run_chars(s, a + b).0 == run_chars(run_chars(s, a).0, b).0,
        run_chars(s, a + b).1 == run_chars(s, a).1 + run_chars(run_chars(s, a).0, b).1,
    decreases b.len(),
{
    if b.len() == 0 {
        assert(a + b =~= a);
    } else {
        lemma_run_chars_split(s, a, b.drop_last());
        assert((a + b).drop_last() =~= a + b.drop_last());
        assert((a + b).last() == b.last());
        let left = run_chars(s, a);
        let right = run_chars(left.0, b.drop_last());
        let last = step_scalar(right.0, b.last());
        assert(left.1 + (right.1 + events_of(last)) =~= (left.1 + right.1) + events_of(last));
    }
}

/// The first character of a run, then the rest.
pub proof fn lemma_run_chars_first(s: TokState, input: Seq<char>)
    requires
        input.len() > 0,
    ensures
        run_chars(s, input).0 == run_chars(step_scalar(s, input[0]).0, input.skip(1)).0,
        run_chars(s, input).1 == events_of(step_scalar(s, input[0])) + run_chars(
            step_scalar(s, input[0]).0,
            input.skip(1),
        ).1,
{
    let first = seq![input[0]];
    lemma_run_chars_split(s, first, input.skip(1));
    assert(first + input.skip(1) =~= input);
    assert(first.drop_last() =~= Seq::<char>::empty());
    assert(run_chars(s, first.drop_last()) == (s, Seq::<SaxEvent>::empty()));
    assert(run_chars(s, first).1 =~= events_of(step_scalar(s, input[0])));
}

/// The bytes of a character of two bytes carry its code.
proof fn lemma_width_2(v: u32, b1: u8, b2: u8)
    by (bit_vector)
    requires
        0x80 <= v <= 0x7FF,
        b1 == 0xC0u8 | ((v >> 6) & 0x1F) as u8,
        b2 == 0x80u8 | (v & 0x3F) as u8,
    ensures
        0xC0 <= b1 < 0xE0,
        0x80 <= b2 < 0xC0,
        (b1 - 0xC0) as u32 * 64 + (b2 - 0x80) as u32 == v,
{
}

/// The bytes of a character of three bytes carry its code.
proof fn lemma_width_3(v: u32, b1: u8, b2: u8, b3: u8)
    by (bit_vector)
    requires
        0x800 <= v <= 0xFFFF,
        b1 == 0xE0u8 | ((v >> 12) & 0x0F) as u8,
        b2 == 0x80u8 | ((v >> 6) & 0x3F) as u8,
        b3 == 0x80u8 | (v & 0x3F) as u8,
    ensures
        0xE0 <= b1 < 0xF0,
        0x80 <= b2 < 0xC0,
        0x80 <= b3 < 0xC0,
        ((b1 - 0xE0) as u32 * 64 + (b2 - 0x80) as u32) * 64 + (b3 - 0x80) as u32 == v,
{
}

/// The bytes of a character of four bytes carry its code.
proof fn lemma_width_4(v: u32, b1: u8, b2: u8, b3: u8, b4: u8)
    by (bit_vector)
    requires
        0x1_0000 <= v <= 0x10_FFFF,
        b1 == 0xF0u8 | ((v >> 18) & 0x7) as u8,
        b2 == 0x80u8 | ((v >> 12) & 0x3F) as u8,
        b3 == 0x80u8 | ((v >> 6) & 0x3F) as u8,
        b4 == 0x80u8 | (v & 0x3F) as u8,
    ensures
        0xF0 <= b1 < 0xF8,
        0x80 <= b2 < 0xC0,
        0x80 <= b3 < 0xC0,
        0x80 <= b4 < 0xC0,
        (((b1 - 0xF0) as u32 * 64 + (b2 - 0x80) as u32) * 64 + (b3 - 0x80) as u32) * 64 + (b4
            - 0x80) as u32 == v,
{
}

/// A character of one byte is its own code.
proof fn lemma_width_1(v: u32, b1: u8)
    by (bit_vector)
    requires
        v <= 0x7F,
        b1 == (v & 0x7F) as u8,
    ensures
        b1 as u32 == v,
{
}

/// A character leaves the decoder as it found it.
pub proof fn lemma_step_keeps_decoder(s: TokState, c: char)
    ensures
        step_scalar(s, c).0.utf8_bytes_left == s.utf8_bytes_left,
        step_scalar(s, c).0.utf8_sequence == s.utf8_sequence,
        step_scalar(s, c).0.utf8_len == s.utf8_len,
{
    reveal(crate::sax::dispatch);
}

proof fn lemma_char_bytes_1(s: TokState, c: char)
    requires
        idle(s),
        s.state != State::Failed,
        c as u32 <= 0x7F,
    ensures
        run(s, encode_scalar(c as u32)).0 == step_char(s, c).0,
        run(s, encode_scalar(c as u32)).1 == events_of(step_char(s, c)),
{
    let v = c as u32;
    let bytes = encode_scalar(v);
    lemma_width_1(v, bytes[0]);
    lemma_run_one(s, bytes[0]);
    assert(bytes =~= seq![bytes[0]]);
    assert(bytes[0] as char == c);
}

proof fn lemma_char_bytes_2(s: TokState, c: char)
    requires
        idle(s),
        s.state != State::Failed,
        0x7F < c as u32 <= 0x7FF,
    ensures
        run(s, encode_scalar(c as u32)).0 == step_char(s, c).0,
        run(s, encode_scalar(c as u32)).1 == events_of(step_char(s, c)),
{
    let v = c as u32;
    let bytes = encode_scalar(v);
    lemma_width_2(v, bytes[0], bytes[1]);
    lemma_run_one(s, bytes[0]);
    let s1 = step_byte(s, bytes[0]).0;
    lemma_run_one(s1, bytes[1]);
    lemma_run_split(s, seq![bytes[0]], seq![bytes[1]]);
    assert(seq![bytes[0]] + seq![bytes[1]] =~= bytes);
    assert(gather(s1.utf8_sequence, bytes[1]) == v);
    assert(between_chars(s1) == s);
    assert(Seq::<SaxEvent>::empty() + events_of(step_char(s, c)) =~= events_of(step_char(s, c)));
}

proof fn lemma_char_bytes_3(s: TokState, c: char)
    requires
        idle(s),
        s.state != State::Failed,
        0x7FF < c as u32 <= 0xFFFF,
    ensures
        run(s, encode_scalar(c as u32)).0 == step_char(s, c).0,
        run(s, encode_scalar(c as u32)).1 == events_of(step_char(s, c)),
{
    let v = c as u32;
    let bytes = encode_scalar(v);
    lemma_width_3(v, bytes[0], bytes[1], bytes[2]);
    lemma_run_one(s, bytes[0]);
    let s1 = step_byte(s, bytes[0]).0;
    lemma_run_one(s1, bytes[1]);
    let s2 = step_byte(s1, bytes[1]).0;
    lemma_run_one(s2, bytes[2]);
    lemma_run_split(s, seq![bytes[0]], seq![bytes[1]]);
    lemma_run_split(s, seq![bytes[0]] + seq![bytes[1]], seq![bytes[2]]);
    assert(seq![bytes[0]] + seq![bytes[1]] + seq![bytes[2]] =~= bytes);
    assert(gather(s2.utf8_sequence, bytes[2]) == v);
    assert(between_chars(s2) == s);
    assert(Seq::<SaxEvent>::empty() + Seq::<SaxEvent>::empty() + events_of(step_char(s, c))
        =~= events_of(step_char(s, c)));
}

proof fn lemma_char_bytes_4(s: TokState, c: char)
    requires
        idle(s),
        s.state != State::Failed,
        0xFFFF < c as u32,
    ensures
        run(s, encode_scalar(c as u32)).0 == step_char(s, c).0,
        run(s, encode_scalar(c as u32)).1 == events_of(step_char(s, c)),
{
    let v = c as u32;
    let bytes = encode_scalar(v);
    lemma_width_4(v, bytes[0], bytes[1], bytes[2], bytes[3]);
    lemma_run_one(s, bytes[0]);
    let s1 = step_byte(s, bytes[0]).0;
    lemma_run_one(s1, bytes[1]);
    let s2 = step_byte(s1, bytes[1]).0;
    lemma_run_one(s2, bytes[2]);
    let s3 = step_byte(s2, bytes[2]).0;
    lemma_run_one(s3, bytes[3]);
    lemma_run_split(s, seq![bytes[0]], seq![bytes[1]]);
    lemma_run_split(s, seq![bytes[0]] + seq![bytes[1]], seq![bytes[2]]);
    lemma_run_split(s, seq![bytes[0]] + seq![bytes[1]] + seq![bytes[2]], seq![bytes[3]]);
    assert(seq![bytes[0]] + seq![bytes[1]] + seq![bytes[2]] + seq![bytes[3]] =~= bytes);
    assert(gather(s3.utf8_sequence, bytes[3]) == v);
    assert(between_chars(s3) == s);
    assert(Seq::<SaxEvent>::empty() + Seq::<SaxEvent>::empty() + Seq::<SaxEvent>::empty()
        + events_of(step_char(s, c)) =~= events_of(step_char(s, c)));
}

/// The bytes of one character, fed between two characters, do what the
/// character does.
pub proof fn lemma_char_bytes(s: TokState, c: char)
    requires
        idle(s),
    ensures
        run(s, encode_scalar(c as u32)).0 == step_scalar(s, c).0,
        run(s, encode_scalar(c as u32)).1 == events_of(step_scalar(s, c)),
        idle(step_scalar(s, c).0),
{
    lemma_step_keeps_decoder(s, c);
    let v = c as u32;
    if s.state == State::Failed {
        crate::sax::lemma_run_failed(s, encode_scalar(v));
    } else if v <= 0x7F {
        lemma_char_bytes_1(s, c);
    } else if v <= 0x7FF {
        lemma_char_bytes_2(s, c);
    } else if v <= 0xFFFF {
        lemma_char_bytes_3(s, c);
    } else {
        lemma_char_bytes_4(s, c);
    }
}

/// A run of one byte is one step.
pub proof fn lemma_run_one(s: TokState, b: u8)
    ensures
        run(s, seq![b]).0 == step_byte(s, b).0,
        run(s, seq![b]).1 == events_of(step_byte(s, b)),
{
    let one = seq![b];
    assert(one.drop_last() =~= Seq::<u8>::empty());
    assert(run(s, one.drop_last()) == (s, Seq::<SaxEvent>::empty()));
    assert(Seq::<SaxEvent>::empty() + events_of(step_byte(s, b)) =~= events_of(step_byte(s, b)));
}

/// Text that is fed as bytes between two characters does what its characters
/// do.
pub proof fn lemma_text_bytes(s: TokState, text: Seq<char>)
    requires
        idle(s),
    ensures
        run(s, encode_utf8(text)).0 == run_chars(s, text).0,
        run(s, encode_utf8(text)).1 == run_chars(s, text).1,
        idle(run_chars(s, text).0),
    decreases text.len(),
{
    if text.len() == 0 {
        assert(encode_utf8(text) =~= Seq::<u8>::empty());
    } else {
        let first = step_scalar(s, text[0]);
        lemma_char_bytes(s, text[0]);
        lemma_text_bytes(first.0, text.skip(1));
        assert(text.drop_first() =~= text.skip(1));
        lemma_run_split(s, encode_scalar(text[0] as u32), encode_utf8(text.skip(1)));
        lemma_run_chars_first(s, text);
    }
}

} // verus!
