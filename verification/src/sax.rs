//! The tokenizer as mathematics: its state, its events, and the function that
//! says what one more byte of input does.
//!
//! Nothing here runs. [`crate::parser::Parser`] is the executable tokenizer and
//! is proved to follow [`step_byte`] byte for byte.

use vstd::prelude::*;
use crate::constants::xml::MAX_ENTITY_LENGTH;

verus! {

/// How a tag was written.
#[derive(Debug, Clone, Copy, PartialEq, Eq, Structural)]
pub enum TagType {
    /// An opening tag, `<a>`.
    Open,
    /// A closing tag, `</a>`.
    Close,
    /// A self-closing tag, `<a/>`.
    Single,
}

/// Where the tokenizer stands inside the markup.
#[derive(Debug, Clone, Copy, PartialEq, Eq, Structural)]
pub enum State {
    /// In character data.
    CData,
    /// Just after `<`.
    TagStart,
    /// In a tag name.
    Tag,
    /// After the `/` that ends a self-closing tag.
    TagEnd,
    /// Between attributes.
    Attribute,
    /// In an attribute name.
    AttributeName,
    /// After an attribute name, before the opening quote.
    AttributeValue,
    /// In a value opened by `'`.
    ValueApos,
    /// In a value opened by `"`.
    ValueQuot,
    /// In an entity name, after `&`.
    Entity,
    /// After `<!`.
    Markup,
    /// After `<!-`.
    Comment,
    /// In a comment body.
    Comment1,
    /// In a comment body, after one `-`.
    Comment2,
    /// In a comment body, after `--`.
    Comment3,
    /// After `<![`.
    Sect,
    /// After `<![C`.
    SectCData,
    /// After `<![CD`.
    SectCData1,
    /// After `<![CDA`.
    SectCData2,
    /// After `<![CDAT`.
    SectCData3,
    /// After `<![CDATA`.
    SectCData4,
    /// In the body of a character-data section.
    SectCDataC,
    /// In a character-data section, after one `]`.
    SectCDataE,
    /// In a character-data section, after `]]`.
    SectCDataE2,
    /// In a processing instruction.
    Pi,
    /// The input was malformed or the handler refused an event. Nothing leads
    /// out of this state.
    Failed,
}

/// One attribute as mathematics: its name and its value.
pub type AttrModel = (Seq<char>, Seq<char>);

/// What the tokenizer tells its handler.
pub enum SaxEvent {
    /// A tag with its attributes in the order they were written.
    Tag { name: Seq<char>, attributes: Seq<AttrModel>, tag_type: TagType },
    /// A run of character data.
    CData { text: Seq<char> },
}

/// Everything the tokenizer remembers between two bytes of input.
pub struct TokState {
    pub state: State,
    /// Character data not yet handed out.
    pub buffer: Seq<char>,
    pub tag_name: Seq<char>,
    pub attr_name: Seq<char>,
    pub attr_value: Seq<char>,
    /// The attributes of the tag being read.
    pub attributes: Seq<AttrModel>,
    pub tag_type: TagType,
    pub entity: Seq<char>,
    /// The bits gathered so far of a character that takes several bytes.
    pub utf8_sequence: u32,
    /// How many continuation bytes of that character are still to come.
    pub utf8_bytes_left: u8,
    /// How many bytes that character takes in all; 0 between characters.
    pub utf8_len: u8,
    pub line: usize,
    pub column: usize,
}

/// A new state and the event, if any, that the step gives rise to.
pub type Step = (TokState, Option<SaxEvent>);

/// One past the largest code point.
pub open spec fn code_point_limit() -> u32 {
    0x11_0000
}

/// The state of a tokenizer that has read nothing.
pub open spec fn initial_state() -> TokState {
    TokState {
        state: State::CData,
        buffer: Seq::empty(),
        tag_name: Seq::empty(),
        attr_name: Seq::empty(),
        attr_value: Seq::empty(),
        attributes: Seq::empty(),
        tag_type: TagType::Open,
        entity: Seq::empty(),
        utf8_sequence: 0,
        utf8_bytes_left: 0,
        utf8_len: 0,
        line: 1,
        column: 0,
    }
}

/// The blanks that separate the parts of a tag.
pub open spec fn is_space(c: char) -> bool {
    c == ' ' || c == '\t' || c == '\n' || c == '\r'
}

/// A counter one higher, held at the largest value the machine can count to.
pub open spec fn bump(n: usize) -> usize {
    if n < usize::MAX {
        (n + 1) as usize
    } else {
        n
    }
}

/// The character that an entity name stands for.
pub open spec fn entity_char(name: Seq<char>) -> Option<char> {
    if name == seq!['a', 'm', 'p'] {
        Some('&')
    } else if name == seq!['l', 't'] {
        Some('<')
    } else if name == seq!['g', 't'] {
        Some('>')
    } else if name == seq!['a', 'p', 'o', 's'] {
        Some('\'')
    } else if name == seq!['q', 'u', 'o', 't'] {
        Some('"')
    } else {
        None
    }
}

/// The same state, marked as failed.
pub open spec fn fail(s: TokState) -> TokState {
    TokState { state: State::Failed, ..s }
}

/// The same state at another place in the markup.
pub open spec fn goto(s: TokState, state: State) -> TokState {
    TokState { state, ..s }
}

/// The position after `c` has been read.
pub open spec fn advance_position(s: TokState, c: char) -> TokState {
    if c == '\n' {
        TokState { line: bump(s.line), column: 0, ..s }
    } else {
        TokState { column: bump(s.column), ..s }
    }
}

/// Pending character data leaves as an event, if there is any, and the
/// tokenizer goes on in `state`.
pub open spec fn flush_text(s: TokState, state: State) -> Step {
    (
        TokState { state, buffer: Seq::empty(), ..s },
        if s.buffer.len() > 0 {
            Some(SaxEvent::CData { text: s.buffer })
        } else {
            None
        },
    )
}

/// The tag that was read leaves as an event and its buffers are emptied.
pub open spec fn emit_tag(s: TokState) -> Step {
    (
        TokState { state: State::CData, tag_name: Seq::empty(), attributes: Seq::empty(), ..s },
        Some(SaxEvent::Tag { name: s.tag_name, attributes: s.attributes, tag_type: s.tag_type }),
    )
}

/// The attribute that was read joins the others of its tag.
pub open spec fn close_value(s: TokState) -> TokState {
    TokState {
        state: State::Attribute,
        attributes: s.attributes.push((s.attr_name, s.attr_value)),
        attr_name: Seq::empty(),
        attr_value: Seq::empty(),
        ..s
    }
}

/// The next state where the input must be exactly `want`.
pub open spec fn expect(s: TokState, c: char, want: char, next: State) -> TokState {
    if c == want {
        goto(s, next)
    } else {
        fail(s)
    }
}

/// What the character `c` does in the state `s`, the position already advanced.
#[verifier::opaque]
pub open spec fn dispatch(s: TokState, c: char) -> Step {
    match s.state {
        State::CData => if c == '<' {
            flush_text(s, State::TagStart)
        } else if c == '&' {
            flush_text(s, State::Entity)
        } else {
            (TokState { buffer: s.buffer.push(c), ..s }, None)
        },
        State::TagStart => if c == '/' {
            (TokState { state: State::Tag, tag_type: TagType::Close, ..s }, None)
        } else if c == '?' {
            (goto(s, State::Pi), None)
        } else if c == '!' {
            (goto(s, State::Markup), None)
        } else {
            (
                TokState {
                    state: State::Tag,
                    tag_type: TagType::Open,
                    tag_name: s.tag_name.push(c),
                    ..s
                },
                None,
            )
        },
        State::Tag => if c == '>' {
            emit_tag(s)
        } else if c == '/' {
            (TokState { state: State::TagEnd, tag_type: TagType::Single, ..s }, None)
        } else if is_space(c) {
            (
                if s.tag_name.len() > 0 {
                    goto(s, State::Attribute)
                } else {
                    s
                },
                None,
            )
        } else {
            (TokState { tag_name: s.tag_name.push(c), ..s }, None)
        },
        State::TagEnd => if c == '>' {
            emit_tag(s)
        } else {
            (fail(s), None)
        },
        State::Attribute => if c == '>' {
            emit_tag(s)
        } else if c == '/' {
            (TokState { state: State::TagEnd, tag_type: TagType::Single, ..s }, None)
        } else if is_space(c) {
            (s, None)
        } else {
            (TokState { state: State::AttributeName, attr_name: s.attr_name.push(c), ..s }, None)
        },
        State::AttributeName => if c == '=' {
            (goto(s, State::AttributeValue), None)
        } else if is_space(c) {
            (
                if s.attr_name.len() > 0 {
                    goto(s, State::AttributeValue)
                } else {
                    s
                },
                None,
            )
        } else {
            (TokState { attr_name: s.attr_name.push(c), ..s }, None)
        },
        State::AttributeValue => if c == '\'' {
            (goto(s, State::ValueApos), None)
        } else if c == '"' {
            (goto(s, State::ValueQuot), None)
        } else if is_space(c) {
            (s, None)
        } else {
            (fail(s), None)
        },
        State::ValueApos => if c == '\'' {
            (close_value(s), None)
        } else {
            (TokState { attr_value: s.attr_value.push(c), ..s }, None)
        },
        State::ValueQuot => if c == '"' {
            (close_value(s), None)
        } else {
            (TokState { attr_value: s.attr_value.push(c), ..s }, None)
        },
        State::Entity => if c == ';' {
            match entity_char(s.entity) {
                Some(decoded) => (
                    TokState {
                        state: State::CData,
                        buffer: s.buffer.push(decoded),
                        entity: Seq::empty(),
                        ..s
                    },
                    None,
                ),
                None => (fail(s), None),
            }
        } else if s.entity.len() >= MAX_ENTITY_LENGTH {
            (fail(s), None)
        } else {
            (TokState { entity: s.entity.push(c), ..s }, None)
        },
        State::Markup => if c == '[' {
            (goto(s, State::Sect), None)
        } else if c == '-' {
            (goto(s, State::Comment), None)
        } else {
            (fail(s), None)
        },
        State::Comment => (expect(s, c, '-', State::Comment1), None),
        State::Comment1 => (
            if c == '-' {
                goto(s, State::Comment2)
            } else {
                s
            },
            None,
        ),
        State::Comment2 => (
            if c == '-' {
                goto(s, State::Comment3)
            } else {
                goto(s, State::Comment1)
            },
            None,
        ),
        State::Comment3 => (expect(s, c, '>', State::CData), None),
        State::Sect => (expect(s, c, 'C', State::SectCData), None),
        State::SectCData => (expect(s, c, 'D', State::SectCData1), None),
        State::SectCData1 => (expect(s, c, 'A', State::SectCData2), None),
        State::SectCData2 => (expect(s, c, 'T', State::SectCData3), None),
        State::SectCData3 => (expect(s, c, 'A', State::SectCData4), None),
        State::SectCData4 => (expect(s, c, '[', State::SectCDataC), None),
        State::SectCDataC => if c == ']' {
            (goto(s, State::SectCDataE), None)
        } else {
            (TokState { buffer: s.buffer.push(c), ..s }, None)
        },
        State::SectCDataE => if c == ']' {
            (goto(s, State::SectCDataE2), None)
        } else {
            (
                TokState { state: State::SectCDataC, buffer: s.buffer.push(']').push(c), ..s },
                None,
            )
        },
        State::SectCDataE2 => if c == '>' {
            (goto(s, State::CData), None)
        } else if c == ']' {
            (TokState { buffer: s.buffer.push(']'), ..s }, None)
        } else {
            (
                TokState {
                    state: State::SectCDataC,
                    buffer: s.buffer.push(']').push(']').push(c),
                    ..s
                },
                None,
            )
        },
        State::Pi => (
            if c == '>' {
                goto(s, State::CData)
            } else {
                s
            },
            None,
        ),
        State::Failed => (s, None),
    }
}

/// What one whole character does: the position moves on, then the state
/// machine takes the character.
pub open spec fn step_char(s: TokState, c: char) -> Step {
    dispatch(advance_position(s, c), c)
}

/// How many bytes the character that begins with `lead` takes, and the bits of
/// it that `lead` carries. `None` where `lead` cannot begin a character.
pub open spec fn lead_byte(lead: u8) -> Option<(u8, u32)> {
    if 0xC0 <= lead < 0xE0 {
        Some((2u8, (lead - 0xC0) as u32))
    } else if 0xE0 <= lead < 0xF0 {
        Some((3u8, (lead - 0xE0) as u32))
    } else if 0xF0 <= lead < 0xF8 {
        Some((4u8, (lead - 0xF0) as u32))
    } else if 0xF8 <= lead < 0xFC {
        Some((5u8, (lead - 0xF8) as u32))
    } else if 0xFC <= lead < 0xFE {
        Some((6u8, (lead - 0xFC) as u32))
    } else {
        None
    }
}

/// Whether `b` is a continuation byte, one whose two high bits are `10`.
pub open spec fn is_continuation(b: u8) -> bool {
    0x80 <= b < 0xC0
}

/// The gathered bits with the six bits of one more continuation byte. All that
/// lies beyond the code points is held at [`code_point_limit`].
pub open spec fn gather(bits: u32, b: u8) -> u32 {
    if bits * 64 + (b - 0x80) < code_point_limit() {
        (bits * 64 + (b - 0x80)) as u32
    } else {
        code_point_limit()
    }
}

/// The smallest code point that needs `len` bytes.
pub open spec fn shortest_for(len: u8) -> u32 {
    if len <= 2 {
        0x80
    } else if len == 3 {
        0x800
    } else {
        0x1_0000
    }
}

/// Whether `bits`, gathered from `len` bytes, is a character in its shortest
/// form: in range for its length, a code point, and no surrogate.
pub open spec fn well_encoded(bits: u32, len: u8) -> bool {
    &&& 2 <= len <= 4
    &&& shortest_for(len) <= bits < code_point_limit()
    &&& !(0xD800 <= bits < 0xE000)
}

/// The state with no character under way.
pub open spec fn between_chars(s: TokState) -> TokState {
    TokState { utf8_sequence: 0, utf8_bytes_left: 0, utf8_len: 0, ..s }
}

/// What the byte `b` does in the state `s`.
///
/// A byte below 0x80 is a character by itself. A lead byte opens a character of
/// several bytes; each further byte must be a continuation byte; with the last
/// of them the character is checked and, if it is well encoded, goes to the
/// state machine. Whatever breaks these rules leaves the tokenizer failed.
pub open spec fn step_byte(s: TokState, b: u8) -> Step {
    if s.state == State::Failed {
        (s, None)
    } else if s.utf8_bytes_left > 0 {
        if !is_continuation(b) {
            (fail(s), None)
        } else if s.utf8_bytes_left > 1 {
            (
                TokState {
                    utf8_sequence: gather(s.utf8_sequence, b),
                    utf8_bytes_left: (s.utf8_bytes_left - 1) as u8,
                    ..s
                },
                None,
            )
        } else if well_encoded(gather(s.utf8_sequence, b), s.utf8_len) {
            step_char(between_chars(s), gather(s.utf8_sequence, b) as char)
        } else {
            (fail(s), None)
        }
    } else if b < 0x80 {
        step_char(s, b as char)
    } else {
        match lead_byte(b) {
            Some((len, bits)) => (
                TokState {
                    utf8_sequence: bits,
                    utf8_bytes_left: (len - 1) as u8,
                    utf8_len: len,
                    ..s
                },
                None,
            ),
            None => (fail(s), None),
        }
    }
}

/// What the end of the input does: a character cut short is a failure, and
/// character data still pending leaves as an event.
pub open spec fn step_end(s: TokState) -> Step {
    if s.state == State::Failed {
        (s, None)
    } else if s.utf8_bytes_left > 0 {
        (fail(s), None)
    } else if s.state == State::CData {
        flush_text(s, State::CData)
    } else {
        (s, None)
    }
}

/// The events of a step as a sequence: none or one.
pub open spec fn events_of(step: Step) -> Seq<SaxEvent> {
    match step.1 {
        Some(event) => seq![event],
        None => Seq::empty(),
    }
}

/// What a run of bytes does: the state after the last of them, and all events
/// in the order they arose.
pub open spec fn run(s: TokState, input: Seq<u8>) -> (TokState, Seq<SaxEvent>)
    decreases input.len(),
{
    if input.len() == 0 {
        (s, Seq::empty())
    } else {
        let before = run(s, input.drop_last());
        let last = step_byte(before.0, input.last());
        (last.0, before.1 + events_of(last))
    }
}

/// Input may be cut anywhere, also inside a character of several bytes: the
/// pieces fed one after the other leave the tokenizer in the state, and give
/// the events, that the whole gives when fed at once.
pub proof fn lemma_run_split(s: TokState, a: Seq<u8>, b: Seq<u8>)
    ensures
        run(s, a + b).0 == run(run(s, a).0, b).0,
        run(s, a + b).1 == run(s, a).1 + run(run(s, a).0, b).1,
    decreases b.len(),
{
    if b.len() == 0 {
        assert(a + b =~= a);
    } else {
        lemma_run_split(s, a, b.drop_last());
        assert((a + b).drop_last() =~= a + b.drop_last());
        assert((a + b).last() == b.last());
        let whole = run(s, a + b.drop_last());
        let left = run(s, a);
        let right = run(left.0, b.drop_last());
        let last = step_byte(right.0, b.last());
        assert(left.1 + (right.1 + events_of(last)) =~= (left.1 + right.1) + events_of(last));
    }
}

/// The pieces of a document, joined.
pub open spec fn joined(pieces: Seq<Seq<u8>>) -> Seq<u8>
    decreases pieces.len(),
{
    if pieces.len() == 0 {
        Seq::empty()
    } else {
        joined(pieces.drop_last()) + pieces.last()
    }
}

/// What the pieces of a document do when they are fed one after the other.
pub open spec fn run_pieces(s: TokState, pieces: Seq<Seq<u8>>) -> (TokState, Seq<SaxEvent>)
    decreases pieces.len(),
{
    if pieces.len() == 0 {
        (s, Seq::empty())
    } else {
        let before = run_pieces(s, pieces.drop_last());
        let last = run(before.0, pieces.last());
        (last.0, before.1 + last.1)
    }
}

/// However a document is cut into pieces, and into however many, the pieces
/// fed one after the other leave the tokenizer in the state, and give the
/// events, that the document gives when fed at once.
pub proof fn lemma_run_pieces(s: TokState, pieces: Seq<Seq<u8>>)
    ensures
        run_pieces(s, pieces) == run(s, joined(pieces)),
    decreases pieces.len(),
{
    if pieces.len() > 0 {
        lemma_run_pieces(s, pieces.drop_last());
        lemma_run_split(s, joined(pieces.drop_last()), pieces.last());
    }
}

/// Once failed the tokenizer stays failed and gives no more events.
pub proof fn lemma_run_failed(s: TokState, input: Seq<u8>)
    requires
        s.state == State::Failed,
    ensures
        run(s, input) == (s, Seq::<SaxEvent>::empty()),
    decreases input.len(),
{
    if input.len() > 0 {
        lemma_run_failed(s, input.drop_last());
    }
}

} // verus!
