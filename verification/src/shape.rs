//! The tokenizer without its counters: what it holds of the markup, and what
//! runs of plain characters do to that.

use vstd::prelude::*;
use crate::chars::{run_chars, step_scalar};
use crate::sax::{
    dispatch, is_space, AttrModel, SaxEvent, State, TagType, TokState,
};

verus! {

/// What the tokenizer holds of the markup: its state without the place in
/// the input and without the decoder of characters.
pub struct Shape {
    pub state: State,
    pub buffer: Seq<char>,
    pub tag_name: Seq<char>,
    pub tag_type: TagType,
    pub attr_name: Seq<char>,
    pub attr_value: Seq<char>,
    pub attributes: Seq<AttrModel>,
    pub entity: Seq<char>,
}

/// The shape of a state.
pub open spec fn shape_of(s: TokState) -> Shape {
    Shape {
        state: s.state,
        buffer: s.buffer,
        tag_name: s.tag_name,
        tag_type: s.tag_type,
        attr_name: s.attr_name,
        attr_value: s.attr_value,
        attributes: s.attributes,
        entity: s.entity,
    }
}

/// A state of the given shape, at the start of the input.
pub open spec fn state_of(shape: Shape) -> TokState {
    TokState {
        state: shape.state,
        buffer: shape.buffer,
        tag_name: shape.tag_name,
        tag_type: shape.tag_type,
        attr_name: shape.attr_name,
        attr_value: shape.attr_value,
        attributes: shape.attributes,
        entity: shape.entity,
        utf8_sequence: 0,
        utf8_bytes_left: 0,
        utf8_len: 0,
        line: 1,
        column: 0,
    }
}

/// What one character does to a shape.
pub open spec fn shape_step(shape: Shape, c: char) -> (Shape, Option<SaxEvent>) {
    (shape_of(dispatch(state_of(shape), c).0), dispatch(state_of(shape), c).1)
}

/// The event of a step as a sequence: none or one.
pub open spec fn one(event: Option<SaxEvent>) -> Seq<SaxEvent> {
    match event {
        Some(e) => seq![e],
        None => Seq::empty(),
    }
}

/// What a run of characters does to a shape.
pub open spec fn run_shape(shape: Shape, input: Seq<char>) -> (Shape, Seq<SaxEvent>)
    decreases input.len(),
{
    if input.len() == 0 {
        (shape, Seq::empty())
    } else {
        let before = run_shape(shape, input.drop_last());
        let last = shape_step(before.0, input.last());
        (last.0, before.1 + one(last.1))
    }
}

/// A step of the tokenizer is the step of its shape.
pub proof fn lemma_shape_step(s: TokState, c: char)
    ensures
        shape_of(step_scalar(s, c).0) == shape_step(shape_of(s), c).0,
        step_scalar(s, c).1 == shape_step(shape_of(s), c).1,
{
    reveal(dispatch);
}

/// A run of the tokenizer is the run of its shape.
pub proof fn lemma_shape_run(s: TokState, input: Seq<char>)
    ensures
        shape_of(run_chars(s, input).0) == run_shape(shape_of(s), input).0,
        run_chars(s, input).1 == run_shape(shape_of(s), input).1,
    decreases input.len(),
{
    if input.len() > 0 {
        lemma_shape_run(s, input.drop_last());
        lemma_shape_step(run_chars(s, input.drop_last()).0, input.last());
    }
}

/// Runs of characters, one after the other, do what the whole does.
pub proof fn lemma_run_shape_split(shape: Shape, a: Seq<char>, b: Seq<char>)
    ensures
        run_shape(shape, a + b).0 == run_shape(run_shape(shape, a).0, b).0,
        run_shape(shape, a + b).1 == run_shape(shape, a).1 + run_shape(run_shape(shape, a).0, b).1,
    decreases b.len(),
{
    if b.len() == 0 {
        assert(a + b =~= a);
    } else {
        lemma_run_shape_split(shape, a, b.drop_last());
        assert((a + b).drop_last() =~= a + b.drop_last());
        assert((a + b).last() == b.last());
        let left = run_shape(shape, a);
        let right = run_shape(left.0, b.drop_last());
        let last = shape_step(right.0, b.last());
        assert(left.1 + (right.1 + one(last.1)) =~= (left.1 + right.1) + one(last.1));
    }
}

/// A run of one character is one step.
pub proof fn lemma_run_shape_one(shape: Shape, c: char)
    ensures
        run_shape(shape, seq![c]).0 == shape_step(shape, c).0,
        run_shape(shape, seq![c]).1 == one(shape_step(shape, c).1),
{
    let single = seq![c];
    assert(single.drop_last() =~= Seq::<char>::empty());
    assert(run_shape(shape, single.drop_last()) == (shape, Seq::<SaxEvent>::empty()));
    assert(Seq::<SaxEvent>::empty() + one(shape_step(shape, c).1) =~= one(
        shape_step(shape, c).1,
    ));
}

/// One character and then a run.
pub proof fn lemma_run_shape_first(shape: Shape, c: char, rest: Seq<char>)
    ensures
        run_shape(shape, seq![c] + rest).0 == run_shape(shape_step(shape, c).0, rest).0,
        run_shape(shape, seq![c] + rest).1 == one(shape_step(shape, c).1) + run_shape(
            shape_step(shape, c).0,
            rest,
        ).1,
{
    lemma_run_shape_split(shape, seq![c], rest);
    lemma_run_shape_one(shape, c);
}

/// A run and then one character.
pub proof fn lemma_run_shape_last(shape: Shape, front: Seq<char>, c: char)
    ensures
        run_shape(shape, front + seq![c]).0 == shape_step(run_shape(shape, front).0, c).0,
        run_shape(shape, front + seq![c]).1 == run_shape(shape, front).1 + one(
            shape_step(run_shape(shape, front).0, c).1,
        ),
{
    let all = front + seq![c];
    assert(all.drop_last() =~= front);
    assert(all.last() == c);
}

/// A character that may stand in a name: no blank, no `>` and no `/`.
pub open spec fn name_char(c: char) -> bool {
    !is_space(c) && c != '>' && c != '/'
}

/// In a tag name, characters that may stand in a name join the name.
pub proof fn lemma_tag_name(shape: Shape, more: Seq<char>)
    requires
        shape.state == State::Tag,
        forall|i: int| 0 <= i < more.len() ==> name_char(#[trigger] more[i]),
    ensures
        run_shape(shape, more) == (
            Shape { tag_name: shape.tag_name + more, ..shape },
            Seq::<SaxEvent>::empty(),
        ),
    decreases more.len(),
{
    reveal(dispatch);
    if more.len() == 0 {
        assert(shape.tag_name + more =~= shape.tag_name);
    } else {
        lemma_tag_name(shape, more.drop_last());
        assert(shape.tag_name + more =~= (shape.tag_name + more.drop_last()).push(more.last()));
        assert(name_char(more[more.len() - 1]));
    }
}

/// In an attribute name, characters other than `=` and blanks join the name.
pub proof fn lemma_attr_name(shape: Shape, more: Seq<char>)
    requires
        shape.state == State::AttributeName,
        forall|i: int| 0 <= i < more.len() ==> (#[trigger] more[i]) != '=' && !is_space(more[i]),
    ensures
        run_shape(shape, more) == (
            Shape { attr_name: shape.attr_name + more, ..shape },
            Seq::<SaxEvent>::empty(),
        ),
    decreases more.len(),
{
    reveal(dispatch);
    if more.len() == 0 {
        assert(shape.attr_name + more =~= shape.attr_name);
    } else {
        lemma_attr_name(shape, more.drop_last());
        assert(shape.attr_name + more =~= (shape.attr_name + more.drop_last()).push(more.last()));
        assert(more[more.len() - 1] != '=');
    }
}

/// In a value between double quotes, characters other than `"` join the
/// value.
pub proof fn lemma_attr_value(shape: Shape, more: Seq<char>)
    requires
        shape.state == State::ValueQuot,
        forall|i: int| 0 <= i < more.len() ==> (#[trigger] more[i]) != '"',
    ensures
        run_shape(shape, more) == (
            Shape { attr_value: shape.attr_value + more, ..shape },
            Seq::<SaxEvent>::empty(),
        ),
    decreases more.len(),
{
    reveal(dispatch);
    if more.len() == 0 {
        assert(shape.attr_value + more =~= shape.attr_value);
    } else {
        lemma_attr_value(shape, more.drop_last());
        assert(shape.attr_value + more =~= (shape.attr_value + more.drop_last()).push(
            more.last(),
        ));
        assert(more[more.len() - 1] != '"');
    }
}

/// In character data, characters other than `<` and `&` join the data.
pub proof fn lemma_text(shape: Shape, more: Seq<char>)
    requires
        shape.state == State::CData,
        forall|i: int| 0 <= i < more.len() ==> (#[trigger] more[i]) != '<' && more[i] != '&',
    ensures
        run_shape(shape, more) == (
            Shape { buffer: shape.buffer + more, ..shape },
            Seq::<SaxEvent>::empty(),
        ),
    decreases more.len(),
{
    reveal(dispatch);
    if more.len() == 0 {
        assert(shape.buffer + more =~= shape.buffer);
    } else {
        lemma_text(shape, more.drop_last());
        assert(shape.buffer + more =~= (shape.buffer + more.drop_last()).push(more.last()));
        assert(more[more.len() - 1] != '<');
    }
}

/// The event that hands out pending character data, if there is any.
pub open spec fn flushed(buffer: Seq<char>) -> Seq<SaxEvent> {
    if buffer.len() > 0 {
        seq![SaxEvent::CData { text: buffer }]
    } else {
        Seq::empty()
    }
}

/// The tokenizer is in character data and holds `buffer` and nothing else.
pub open spec fn is_clean(shape: Shape, buffer: Seq<char>) -> bool {
    &&& shape.state == State::CData
    &&& shape.buffer == buffer
    &&& shape.tag_name.len() == 0
    &&& shape.attr_name.len() == 0
    &&& shape.attr_value.len() == 0
    &&& shape.attributes.len() == 0
    &&& shape.entity.len() == 0
}

} // verus!
