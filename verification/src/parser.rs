//! The tokenizer: bytes in, tag and character-data events out.

use vstd::prelude::*;
use vstd::string::{StrSliceExecFns, StringExecFns, StringSliceAdditionalSpecFns};
use crate::constants::xml::MAX_ENTITY_LENGTH;
use crate::error::IksError;
use crate::helper::{add_held, escape_size, held};
use crate::sax::{
    advance_position, close_value, dispatch, emit_tag, entity_char, events_of, expect, fail,
    flush_text, initial_state, joined, lemma_run_failed, lemma_run_split, run, step_byte,
    step_char, step_end, AttrModel, SaxEvent, State, Step, TagType, TokState,
};
use crate::text::{char_of, push_char, same_text};
use crate::utility::{escape, escaped};

verus! {

/// The attributes of a tag as mathematics.
pub open spec fn pairs_model(pairs: Seq<(String, String)>) -> Seq<AttrModel> {
    pairs.map_values(|pair: (String, String)| (pair.0@, pair.1@))
}

/// The error in a result, if it holds one.
pub open spec fn refusal_of(result: Result<(), IksError>) -> Option<IksError> {
    match result {
        Ok(_) => None,
        Err(error) => Some(error),
    }
}

/// The receiver of the tokenizer's events.
///
/// An implementation says with `tag_step` and `cdata_step` which new states and
/// replies an event may lead to; `on_tag` and `on_cdata` then keep to that. An
/// implementation that says nothing may answer an event in any way. A reply
/// of `Err` ends the parse.
pub trait SaxHandler: Sized {
    /// Whether a tag event may take the handler from `self` to `post`, the
    /// handler accepting it (`refusal` is `None`) or refusing it with an error.
    open spec fn tag_step(
        &self,
        name: Seq<char>,
        attributes: Seq<AttrModel>,
        tag_type: TagType,
        post: &Self,
        refusal: Option<IksError>,
    ) -> bool {
        true
    }

    /// Whether a character-data event may take the handler from `self` to
    /// `post`, the handler accepting it or refusing it with an error.
    open spec fn cdata_step(&self, data: Seq<char>, post: &Self, refusal: Option<IksError>) -> bool {
        true
    }

    /// Takes a tag with its attributes in the order they were written.
    fn on_tag(&mut self, name: &str, attributes: &[(String, String)], tag_type: TagType) -> (reply:
        Result<(), IksError>)
        ensures
            old(self).tag_step(
                name@,
                pairs_model(attributes@),
                tag_type,
                final(self),
                refusal_of(reply),
            ),
    ;

    /// Takes a run of character data.
    fn on_cdata(&mut self, data: &str) -> (reply: Result<(), IksError>)
        ensures
            old(self).cdata_step(data@, final(self), refusal_of(reply)),
    ;
}

/// Whether `event` may take the handler from `pre` to `post`, the handler
/// accepting it or refusing it with an error.
pub open spec fn event_step<H: SaxHandler>(
    pre: H,
    event: SaxEvent,
    post: H,
    refusal: Option<IksError>,
) -> bool {
    match event {
        SaxEvent::Tag { name, attributes, tag_type } => pre.tag_step(
            name,
            attributes,
            tag_type,
            &post,
            refusal,
        ),
        SaxEvent::CData { text } => pre.cdata_step(text, &post, refusal),
    }
}

/// Whether the handler may get from `pre` to `post` by taking `events` one
/// after the other and accepting each.
pub open spec fn delivers<H: SaxHandler>(pre: H, events: Seq<SaxEvent>, post: H) -> bool
    decreases events.len(),
{
    if events.len() == 0 {
        pre == post
    } else {
        exists|mid: H|
            delivers(pre, events.drop_last(), mid) && #[trigger] event_step(
                mid,
                events.last(),
                post,
                None,
            )
    }
}

/// What holds after one step of the tokenizer: the event of the step, if there
/// is one, went to the handler; the result is the handler's refusal, or
/// `BadXml` where the step failed; a refusal leaves the tokenizer failed.
pub open spec fn step_post<H: SaxHandler>(
    pre_tok: TokState,
    pre_sink: H,
    step: Step,
    post_tok: TokState,
    post_sink: H,
    result: Result<(), IksError>,
) -> bool {
    match step.1 {
        None => {
            &&& post_sink == pre_sink
            &&& post_tok == step.0
            &&& refusal_of(result) == if step.0.state == State::Failed {
                Some(IksError::BadXml)
            } else {
                None
            }
        },
        Some(event) => {
            &&& event_step(pre_sink, event, post_sink, refusal_of(result))
            &&& post_tok == if result is Ok {
                step.0
            } else {
                fail(step.0)
            }
        },
    }
}

/// The handler refused the event that byte `k` of `input` gave rise to, after
/// it had accepted all events before.
pub open spec fn refused_at<H: SaxHandler>(
    pre_tok: TokState,
    pre_sink: H,
    input: Seq<u8>,
    k: int,
    mid: H,
    post_tok: TokState,
    post_sink: H,
    result: Result<(), IksError>,
) -> bool {
    &&& 0 <= k < input.len()
    &&& result is Err
    &&& delivers(pre_sink, run(pre_tok, input.take(k)).1, mid)
    &&& step_byte(run(pre_tok, input.take(k)).0, input[k]).1 matches Some(event)
    &&& event_step(mid, event, post_sink, refusal_of(result))
    &&& post_tok == fail(step_byte(run(pre_tok, input.take(k)).0, input[k]).0)
}

/// What holds after `input`, which is not empty, was fed. One of three:
/// - the whole of it was well formed and the handler accepted every event;
/// - it was malformed: the handler accepted the events up to there, and the
///   result is `BadXml`;
/// - the handler refused an event: the result is its refusal.
pub open spec fn feed_post<H: SaxHandler>(
    pre_tok: TokState,
    pre_sink: H,
    input: Seq<u8>,
    post_tok: TokState,
    post_sink: H,
    result: Result<(), IksError>,
) -> bool {
    let whole = run(pre_tok, input);
    ||| {
        &&& result is Ok
        &&& whole.0.state != State::Failed
        &&& post_tok == whole.0
        &&& delivers(pre_sink, whole.1, post_sink)
    }
    ||| {
        &&& result == Err::<(), IksError>(IksError::BadXml)
        &&& whole.0.state == State::Failed
        &&& post_tok == whole.0
        &&& delivers(pre_sink, whole.1, post_sink)
    }
    ||| exists|k: int, mid: H| #[trigger]
        refused_at(pre_tok, pre_sink, input, k, mid, post_tok, post_sink, result)
}

/// What holds after a call of [`Parser::parse_bytes`]: empty input ends the
/// stream, any other is fed.
pub open spec fn parse_post<H: SaxHandler>(
    pre_tok: TokState,
    pre_sink: H,
    input: Seq<u8>,
    post_tok: TokState,
    post_sink: H,
    result: Result<(), IksError>,
) -> bool {
    if input.len() == 0 {
        step_post(pre_tok, pre_sink, step_end(pre_tok), post_tok, post_sink, result)
    } else {
        feed_post(pre_tok, pre_sink, input, post_tok, post_sink, result)
    }
}

/// An incremental tokenizer that reports to the handler `H`.
pub struct Parser<H: SaxHandler> {
    handler: H,
    state: State,
    buffer: String,
    tag_name: String,
    attr_name: String,
    attr_value: String,
    attributes: Vec<(String, String)>,
    tag_type: TagType,
    entity: String,
    utf8_sequence: u32,
    utf8_bytes_left: u8,
    utf8_len: u8,
    line: usize,
    column: usize,
}

/// A tokenizer as mathematics: what it holds of the input, and its handler.
pub struct ParserModel<H> {
    pub tok: TokState,
    pub sink: H,
}

impl<H: SaxHandler> View for Parser<H> {
    type V = ParserModel<H>;

    closed spec fn view(&self) -> ParserModel<H> {
        ParserModel {
            tok: TokState {
                state: self.state,
                buffer: self.buffer@,
                tag_name: self.tag_name@,
                attr_name: self.attr_name@,
                attr_value: self.attr_value@,
                attributes: pairs_model(self.attributes@),
                tag_type: self.tag_type,
                entity: self.entity@,
                utf8_sequence: self.utf8_sequence,
                utf8_bytes_left: self.utf8_bytes_left,
                utf8_len: self.utf8_len,
                line: self.line,
                column: self.column,
            },
            sink: self.handler,
        }
    }
}

impl<H: SaxHandler> Parser<H> {
    /// The tokenizer's state as mathematics.
    pub open spec fn tok(&self) -> TokState {
        self@.tok
    }

    /// The handler as it stands.
    pub open spec fn sink(&self) -> H {
        self@.sink
    }

    /// A tokenizer at the start of a stream, reporting to `handler`.
    pub fn new(handler: H) -> (parser: Self)
        ensures
            parser.tok() == initial_state(),
            parser.sink() == handler,
    {
        let parser = Parser {
            handler,
            state: State::CData,
            buffer: String::new(),
            tag_name: String::new(),
            attr_name: String::new(),
            attr_value: String::new(),
            attributes: Vec::new(),
            tag_type: TagType::Open,
            entity: String::new(),
            utf8_sequence: 0,
            utf8_bytes_left: 0,
            utf8_len: 0,
            line: 1,
            column: 0,
        };
        assert(pairs_model(parser.attributes@) =~= Seq::empty());
        parser
    }

    /// The handler.
    pub fn handler(&self) -> (handler: &H)
        ensures
            *handler == self.sink(),
    {
        &self.handler
    }

    /// The handler, to be changed in place.
    pub fn handler_mut(&mut self) -> (handler: &mut H)
        ensures
            *handler == old(self).sink(),
            final(self).sink() == *final(handler),
            final(self).tok() == old(self).tok(),
    {
        &mut self.handler
    }

    /// Gives up the tokenizer and hands out the handler.
    pub fn into_handler(self) -> (handler: H)
        ensures
            handler == self.sink(),
    {
        self.handler
    }

    /// The line of the input that the tokenizer is reading, counted from 1.
    pub fn line(&self) -> (line: usize)
        ensures
            line == self.tok().line,
    {
        self.line
    }

    /// How many characters of that line have been read.
    pub fn column(&self) -> (column: usize)
        ensures
            column == self.tok().column,
    {
        self.column
    }

    /// Feeds text to the tokenizer; the empty text ends the stream.
    ///
    /// The same as [`Parser::parse_bytes`] on the bytes of `data`.
    pub fn parse(&mut self, data: &str) -> (result: Result<(), IksError>)
        ensures
            parse_post(
                old(self).tok(),
                old(self).sink(),
                data.spec_bytes(),
                final(self).tok(),
                final(self).sink(),
                result,
            ),
    {
        self.parse_bytes(data.as_bytes())
    }

    /// Feeds a piece of the input to the tokenizer.
    ///
    /// The pieces of one document may be cut anywhere, also inside a character
    /// of several bytes. Every event that the piece completes goes to the
    /// handler before the call returns. Character data at the end of the piece
    /// stays in the tokenizer, since more of it may follow; a call with no
    /// input says that the stream has ended, hands that data out, and fails if
    /// the stream ended inside a character.
    ///
    /// Once a call has failed, every later call fails with `BadXml`.
    pub fn parse_bytes(&mut self, data: &[u8]) -> (result: Result<(), IksError>)
        ensures
            parse_post(
                old(self).tok(),
                old(self).sink(),
                data@,
                final(self).tok(),
                final(self).sink(),
                result,
            ),
    {
        if data.len() == 0 {
            return self.finish();
        }
        let ghost tok0 = self.tok();
        let ghost sink0 = self.sink();
        let mut i: usize = 0;
        while i < data.len()
            invariant
                i <= data.len(),
                tok0 == old(self).tok(),
                sink0 == old(self).sink(),
                self.tok() == run(tok0, data@.take(i as int)).0,
                i > 0 ==> self.tok().state != State::Failed,
                delivers(sink0, run(tok0, data@.take(i as int)).1, self.sink()),
            decreases data.len() - i,
        {
            let ghost before = run(tok0, data@.take(i as int));
            let ghost mid = self.sink();
            let ghost step = step_byte(before.0, data@[i as int]);
            let result = self.feed_byte(data[i]);
            proof {
                assert(data@.take(i + 1).drop_last() =~= data@.take(i as int));
                assert(data@.take(i + 1).last() == data@[i as int]);
                assert(run(tok0, data@.take(i + 1)) == (step.0, before.1 + events_of(step)));
                lemma_event_keeps_going(before.0, data@[i as int]);
            }
            if result.is_err() {
                proof {
                    if step.1 is None {
                        assert(before.1 + events_of(step) =~= before.1);
                        lemma_run_split(tok0, data@.take(i + 1), data@.skip(i + 1));
                        lemma_run_failed(step.0, data@.skip(i + 1));
                        assert(data@.take(i + 1) + data@.skip(i + 1) =~= data@);
                        assert(run(tok0, data@).1 =~= before.1);
                    } else {
                        assert(refused_at(
                            tok0,
                            sink0,
                            data@,
                            i as int,
                            mid,
                            self.tok(),
                            self.sink(),
                            result,
                        ));
                    }
                }
                return result;
            }
            proof {
                if step.1 is None {
                    assert(before.1 + events_of(step) =~= before.1);
                } else {
                    let events = before.1 + events_of(step);
                    assert(events.drop_last() =~= before.1);
                    lemma_delivers_push(sink0, before.1, mid, step.1->0, self.sink());
                    assert(before.1.push(step.1->0) =~= events);
                }
            }
            i = i + 1;
        }
        assert(data@.take(i as int) =~= data@);
        Ok(())
    }

    /// Ends the stream: character data still pending goes to the handler, and a
    /// character that was cut short is a failure.
    fn finish(&mut self) -> (result: Result<(), IksError>)
        ensures
            step_post(
                old(self).tok(),
                old(self).sink(),
                step_end(old(self).tok()),
                final(self).tok(),
                final(self).sink(),
                result,
            ),
    {
        if self.state == State::Failed {
            Err(IksError::BadXml)
        } else if self.utf8_bytes_left > 0 {
            self.give_up()
        } else if self.state == State::CData {
            self.flush_text(State::CData)
        } else {
            Ok(())
        }
    }

    /// What the tokenizer holds, written out as markup.
    pub fn to_string(&self) -> (text: String)
        ensures
            text@ == pending_markup(self.tok()),
    {
        let mut text = String::new();
        if !self.buffer.as_str().is_empty() {
            text = escape(self.buffer.as_str());
        }
        if !self.tag_name.as_str().is_empty() {
            let ghost start = text@;
            push_char(&mut text, '<');
            if self.tag_type == TagType::Close {
                push_char(&mut text, '/');
            }
            let name = escape(self.tag_name.as_str());
            text.append(name.as_str());
            let ghost head = text@;
            let ghost all = pairs_model(self.attributes@);
            let mut i: usize = 0;
            assert(head + pending_attributes(all.take(0)) =~= head);
            while i < self.attributes.len()
                invariant
                    i <= self.attributes.len(),
                    all == pairs_model(self.attributes@),
                    text@ == head + pending_attributes(all.take(i as int)),
                decreases self.attributes.len() - i,
            {
                let name = escape(self.attributes[i].0.as_str());
                let value = escape(self.attributes[i].1.as_str());
                push_char(&mut text, ' ');
                text.append(name.as_str());
                push_char(&mut text, '=');
                push_char(&mut text, '"');
                text.append(value.as_str());
                push_char(&mut text, '"');
                proof {
                    assert(all.take(i + 1).drop_last() =~= all.take(i as int));
                    assert(all.take(i + 1).last() == all[i as int]);
                    assert(text@ =~= head + (pending_attributes(all.take(i as int)) + seq![' ']
                        + escaped(all[i as int].0) + seq!['=', '"'] + escaped(all[i as int].1)
                        + seq!['"']));
                }
                i = i + 1;
            }
            assert(all.take(i as int) =~= all);
            if self.tag_type == TagType::Single {
                push_char(&mut text, '/');
            }
            push_char(&mut text, '>');
            assert(text@ =~= start + pending_tag(self.tok()));
        } else {
            assert(text@ + Seq::<char>::empty() =~= text@);
        }
        assert(escaped(Seq::<char>::empty()) =~= Seq::<char>::empty());
        text
    }

    /// The number of characters of [`Parser::to_string`], held at the largest
    /// number the machine can count to.
    pub fn serialized_size(&self) -> (size: usize)
        ensures
            size == held(pending_markup(self.tok()).len() as int),
    {
        let mut size: usize = 0;
        if !self.buffer.as_str().is_empty() {
            size = escape_size(self.buffer.as_str());
        }
        assert(escaped(Seq::<char>::empty()) =~= Seq::<char>::empty());
        if !self.tag_name.as_str().is_empty() {
            size = add_held(size, 1);
            if self.tag_type == TagType::Close {
                size = add_held(size, 1);
            }
            size = add_held(size, escape_size(self.tag_name.as_str()));
            let ghost head = pending_markup(self.tok()).len() - pending_attributes(
                pairs_model(self.attributes@),
            ).len() - if self.tag_type == TagType::Single {
                2int
            } else {
                1int
            };
            let ghost all = pairs_model(self.attributes@);
            let mut i: usize = 0;
            assert(all.take(0) =~= Seq::empty());
            while i < self.attributes.len()
                invariant
                    i <= self.attributes.len(),
                    all == pairs_model(self.attributes@),
                    head >= 0,
                    size == held(head + pending_attributes(all.take(i as int)).len()),
                decreases self.attributes.len() - i,
            {
                proof {
                    assert(all.take(i + 1).drop_last() =~= all.take(i as int));
                    assert(all.take(i + 1).last() == all[i as int]);
                }
                size = add_held(size, 1);
                size = add_held(size, escape_size(self.attributes[i].0.as_str()));
                size = add_held(size, 2);
                size = add_held(size, escape_size(self.attributes[i].1.as_str()));
                size = add_held(size, 1);
                i = i + 1;
            }
            assert(all.take(i as int) =~= all);
            if self.tag_type == TagType::Single {
                size = add_held(size, 1);
            }
            size = add_held(size, 1);
        }
        size
    }

    fn give_up(&mut self) -> (result: Result<(), IksError>)
        ensures
            final(self).tok() == fail(old(self).tok()),
            final(self).sink() == old(self).sink(),
            result == Err::<(), IksError>(IksError::BadXml),
    {
        self.state = State::Failed;
        Err(IksError::BadXml)
    }

    fn flush_text(&mut self, next: State) -> (result: Result<(), IksError>)
        requires
            next != State::Failed,
        ensures
            step_post(
                old(self).tok(),
                old(self).sink(),
                flush_text(old(self).tok(), next),
                final(self).tok(),
                final(self).sink(),
                result,
            ),
    {
        let reply = if self.buffer.as_str().is_empty() {
            Ok(())
        } else {
            self.handler.on_cdata(self.buffer.as_str())
        };
        self.buffer = String::new();
        self.state = if reply.is_ok() {
            next
        } else {
            State::Failed
        };
        reply
    }

    fn emit_tag(&mut self) -> (result: Result<(), IksError>)
        ensures
            step_post(
                old(self).tok(),
                old(self).sink(),
                emit_tag(old(self).tok()),
                final(self).tok(),
                final(self).sink(),
                result,
            ),
    {
        let reply = self.handler.on_tag(
            self.tag_name.as_str(),
            self.attributes.as_slice(),
            self.tag_type,
        );
        self.tag_name = String::new();
        self.attributes = Vec::new();
        assert(pairs_model(self.attributes@) =~= Seq::empty());
        self.state = if reply.is_ok() {
            State::CData
        } else {
            State::Failed
        };
        reply
    }

    fn close_value(&mut self)
        ensures
            final(self).tok() == close_value(old(self).tok()),
            final(self).sink() == old(self).sink(),
    {
        let mut name = String::new();
        let mut value = String::new();
        std::mem::swap(&mut self.attr_name, &mut name);
        std::mem::swap(&mut self.attr_value, &mut value);
        self.attributes.push((name, value));
        self.state = State::Attribute;
        assert(pairs_model(self.attributes@) =~= pairs_model(old(self).attributes@).push(
            (name@, value@),
        ));
    }

    fn expect(&mut self, c: char, want: char, next: State) -> (result: Result<(), IksError>)
        requires
            next != State::Failed,
        ensures
            final(self).tok() == expect(old(self).tok(), c, want, next),
            final(self).sink() == old(self).sink(),
            refusal_of(result) == if c == want {
                None
            } else {
                Some(IksError::BadXml)
            },
    {
        if c == want {
            self.state = next;
            Ok(())
        } else {
            self.give_up()
        }
    }

    fn advance_position(&mut self, c: char)
        ensures
            final(self).tok() == advance_position(old(self).tok(), c),
            final(self).sink() == old(self).sink(),
    {
        if c == '\n' {
            if self.line < usize::MAX {
                self.line = self.line + 1;
            }
            self.column = 0;
        } else if self.column < usize::MAX {
            self.column = self.column + 1;
        }
    }

    /// Takes one character that is part of a tag, from `<` to `>`.
    fn feed_tag(&mut self, c: char) -> (result: Result<(), IksError>)
        requires
            in_tag(old(self).tok().state),
        ensures
            step_post(
                old(self).tok(),
                old(self).sink(),
                dispatch(old(self).tok(), c),
                final(self).tok(),
                final(self).sink(),
                result,
            ),
    {
        proof {
            reveal(dispatch);
        }
        let blank = c == ' ' || c == '\t' || c == '\n' || c == '\r';
        match self.state {
            State::TagStart => {
                if c == '/' {
                    self.tag_type = TagType::Close;
                    self.state = State::Tag;
                } else if c == '?' {
                    self.state = State::Pi;
                } else if c == '!' {
                    self.state = State::Markup;
                } else {
                    self.tag_type = TagType::Open;
                    push_char(&mut self.tag_name, c);
                    self.state = State::Tag;
                }
                Ok(())
            },
            State::Tag => {
                if c == '>' {
                    self.emit_tag()
                } else {
                    if c == '/' {
                        self.tag_type = TagType::Single;
                        self.state = State::TagEnd;
                    } else if blank {
                        if !self.tag_name.as_str().is_empty() {
                            self.state = State::Attribute;
                        }
                    } else {
                        push_char(&mut self.tag_name, c);
                    }
                    Ok(())
                }
            },
            State::TagEnd => {
                if c == '>' {
                    self.emit_tag()
                } else {
                    self.give_up()
                }
            },
            State::Attribute => {
                if c == '>' {
                    self.emit_tag()
                } else {
                    if c == '/' {
                        self.tag_type = TagType::Single;
                        self.state = State::TagEnd;
                    } else if !blank {
                        push_char(&mut self.attr_name, c);
                        self.state = State::AttributeName;
                    }
                    Ok(())
                }
            },
            State::AttributeName => {
                if c == '=' {
                    self.state = State::AttributeValue;
                } else if blank {
                    if !self.attr_name.as_str().is_empty() {
                        self.state = State::AttributeValue;
                    }
                } else {
                    push_char(&mut self.attr_name, c);
                }
                Ok(())
            },
            State::AttributeValue => {
                if c == '\'' {
                    self.state = State::ValueApos;
                    Ok(())
                } else if c == '"' {
                    self.state = State::ValueQuot;
                    Ok(())
                } else if blank {
                    Ok(())
                } else {
                    self.give_up()
                }
            },
            State::ValueApos => {
                if c == '\'' {
                    self.close_value();
                } else {
                    push_char(&mut self.attr_value, c);
                }
                Ok(())
            },
            _ => {
                if c == '"' {
                    self.close_value();
                } else {
                    push_char(&mut self.attr_value, c);
                }
                Ok(())
            },
        }
    }

    /// Takes one character of a comment, a character-data section or a
    /// processing instruction.
    fn feed_markup(&mut self, c: char) -> (result: Result<(), IksError>)
        requires
            in_markup(old(self).tok().state),
        ensures
            step_post(
                old(self).tok(),
                old(self).sink(),
                dispatch(old(self).tok(), c),
                final(self).tok(),
                final(self).sink(),
                result,
            ),
    {
        proof {
            reveal(dispatch);
        }
        match self.state {
            State::Markup => {
                if c == '[' {
                    self.state = State::Sect;
                    Ok(())
                } else if c == '-' {
                    self.state = State::Comment;
                    Ok(())
                } else {
                    self.give_up()
                }
            },
            State::Comment => self.expect(c, '-', State::Comment1),
            State::Comment1 => {
                if c == '-' {
                    self.state = State::Comment2;
                }
                Ok(())
            },
            State::Comment2 => {
                self.state = if c == '-' {
                    State::Comment3
                } else {
                    State::Comment1
                };
                Ok(())
            },
            State::Comment3 => self.expect(c, '>', State::CData),
            State::Sect => self.expect(c, 'C', State::SectCData),
            State::SectCData => self.expect(c, 'D', State::SectCData1),
            State::SectCData1 => self.expect(c, 'A', State::SectCData2),
            State::SectCData2 => self.expect(c, 'T', State::SectCData3),
            State::SectCData3 => self.expect(c, 'A', State::SectCData4),
            State::SectCData4 => self.expect(c, '[', State::SectCDataC),
            State::SectCDataC => {
                if c == ']' {
                    self.state = State::SectCDataE;
                } else {
                    push_char(&mut self.buffer, c);
                }
                Ok(())
            },
            State::SectCDataE => {
                if c == ']' {
                    self.state = State::SectCDataE2;
                } else {
                    push_char(&mut self.buffer, ']');
                    push_char(&mut self.buffer, c);
                    self.state = State::SectCDataC;
                }
                Ok(())
            },
            State::SectCDataE2 => {
                if c == '>' {
                    self.state = State::CData;
                } else if c == ']' {
                    push_char(&mut self.buffer, ']');
                } else {
                    push_char(&mut self.buffer, ']');
                    push_char(&mut self.buffer, ']');
                    push_char(&mut self.buffer, c);
                    self.state = State::SectCDataC;
                }
                Ok(())
            },
            _ => {
                if c == '>' {
                    self.state = State::CData;
                }
                Ok(())
            },
        }
    }

    /// Takes one character of character data or of an entity.
    fn feed_text(&mut self, c: char) -> (result: Result<(), IksError>)
        requires
            old(self).tok().state == State::CData || old(self).tok().state == State::Entity,
        ensures
            step_post(
                old(self).tok(),
                old(self).sink(),
                dispatch(old(self).tok(), c),
                final(self).tok(),
                final(self).sink(),
                result,
            ),
    {
        proof {
            reveal(dispatch);
        }
        match self.state {
            State::CData => {
                if c == '<' {
                    self.flush_text(State::TagStart)
                } else if c == '&' {
                    self.flush_text(State::Entity)
                } else {
                    push_char(&mut self.buffer, c);
                    Ok(())
                }
            },
            _ => {
                if c == ';' {
                    match decode_entity(self.entity.as_str()) {
                        Some(decoded) => {
                            push_char(&mut self.buffer, decoded);
                            self.entity = String::new();
                            self.state = State::CData;
                            Ok(())
                        },
                        None => self.give_up(),
                    }
                } else if self.entity.as_str().unicode_len() >= MAX_ENTITY_LENGTH {
                    self.give_up()
                } else {
                    push_char(&mut self.entity, c);
                    Ok(())
                }
            },
        }
    }

    /// Takes one whole character.
    fn feed_char(&mut self, c: char) -> (result: Result<(), IksError>)
        requires
            old(self).tok().state != State::Failed,
        ensures
            step_post(
                old(self).tok(),
                old(self).sink(),
                step_char(old(self).tok(), c),
                final(self).tok(),
                final(self).sink(),
                result,
            ),
    {
        self.advance_position(c);
        match self.state {
            State::CData | State::Entity => self.feed_text(c),
            State::TagStart
            | State::Tag
            | State::TagEnd
            | State::Attribute
            | State::AttributeName
            | State::AttributeValue
            | State::ValueApos
            | State::ValueQuot => self.feed_tag(c),
            _ => self.feed_markup(c),
        }
    }

    /// Takes one byte.
    fn feed_byte(&mut self, b: u8) -> (result: Result<(), IksError>)
        ensures
            step_post(
                old(self).tok(),
                old(self).sink(),
                step_byte(old(self).tok(), b),
                final(self).tok(),
                final(self).sink(),
                result,
            ),
    {
        if self.state == State::Failed {
            Err(IksError::BadXml)
        } else if self.utf8_bytes_left > 0 {
            if b < 0x80 || b >= 0xC0 {
                return self.give_up();
            }
            let wide: u64 = self.utf8_sequence as u64 * 64 + (b - 0x80) as u64;
            let bits: u32 = if wide < 0x11_0000 {
                wide as u32
            } else {
                0x11_0000
            };
            if self.utf8_bytes_left > 1 {
                self.utf8_sequence = bits;
                self.utf8_bytes_left = self.utf8_bytes_left - 1;
                return Ok(());
            }
            let len = self.utf8_len;
            let shortest: u32 = if len <= 2 {
                0x80
            } else if len == 3 {
                0x800
            } else {
                0x1_0000
            };
            if 2 <= len && len <= 4 && shortest <= bits {
                match char_of(bits) {
                    Some(c) => {
                        self.utf8_sequence = 0;
                        self.utf8_bytes_left = 0;
                        self.utf8_len = 0;
                        self.feed_char(c)
                    },
                    None => self.give_up(),
                }
            } else {
                self.give_up()
            }
        } else if b < 0x80 {
            self.feed_char(b as char)
        } else {
            let (len, bits): (u8, u8) = if b < 0xC0 {
                (0, 0)
            } else if b < 0xE0 {
                (2, b - 0xC0)
            } else if b < 0xF0 {
                (3, b - 0xE0)
            } else if b < 0xF8 {
                (4, b - 0xF0)
            } else if b < 0xFC {
                (5, b - 0xF8)
            } else if b < 0xFE {
                (6, b - 0xFC)
            } else {
                (0, 0)
            };
            if len == 0 {
                self.give_up()
            } else {
                self.utf8_sequence = bits as u32;
                self.utf8_bytes_left = len - 1;
                self.utf8_len = len;
                Ok(())
            }
        }
    }
}

/// A handler that took `events` and then accepts `event` has taken them all.
pub proof fn lemma_delivers_push<H: SaxHandler>(
    pre: H,
    events: Seq<SaxEvent>,
    mid: H,
    event: SaxEvent,
    post: H,
)
    requires
        delivers(pre, events, mid),
        event_step(mid, event, post, None),
    ensures
        delivers(pre, events.push(event), post),
{
    let all = events.push(event);
    assert(all.drop_last() =~= events);
    assert(all.last() == event);
    assert(delivers(pre, all.drop_last(), mid) && event_step(mid, all.last(), post, None));
}

/// A handler that took one row of events and then another has taken both.
pub proof fn lemma_delivers_concat<H: SaxHandler>(
    pre: H,
    first: Seq<SaxEvent>,
    mid: H,
    second: Seq<SaxEvent>,
    post: H,
)
    requires
        delivers(pre, first, mid),
        delivers(mid, second, post),
    ensures
        delivers(pre, first + second, post),
    decreases second.len(),
{
    if second.len() == 0 {
        assert(first + second =~= first);
    } else {
        let before = choose|before: H|
            delivers(mid, second.drop_last(), before) && #[trigger] event_step(
                before,
                second.last(),
                post,
                None,
            );
        lemma_delivers_concat(pre, first, mid, second.drop_last(), before);
        assert((first + second).drop_last() =~= first + second.drop_last());
        assert((first + second).last() == second.last());
    }
}

/// A piece that was fed with success and the piece fed after it come to what
/// feeding both as one comes to.
pub proof fn lemma_feed_then_feed<H: SaxHandler>(
    tok0: TokState,
    sink0: H,
    a: Seq<u8>,
    tok1: TokState,
    sink1: H,
    first: Result<(), IksError>,
    b: Seq<u8>,
    tok2: TokState,
    sink2: H,
    second: Result<(), IksError>,
)
    requires
        a.len() > 0,
        b.len() > 0,
        feed_post(tok0, sink0, a, tok1, sink1, first),
        first is Ok,
        feed_post(tok1, sink1, b, tok2, sink2, second),
    ensures
        feed_post(tok0, sink0, a + b, tok2, sink2, second),
{
    lemma_run_split(tok0, a, b);
    let head = run(tok0, a);
    let tail = run(tok1, b);
    if (second is Ok || second == Err::<(), IksError>(IksError::BadXml)) && tok2 == tail.0
        && delivers(sink1, tail.1, sink2) {
        lemma_delivers_concat(sink0, head.1, sink1, tail.1, sink2);
    } else {
        let (k, mid) = choose|k: int, mid: H| #[trigger]
            refused_at(tok1, sink1, b, k, mid, tok2, sink2, second);
        let at = a.len() + k;
        assert((a + b).take(at) =~= a + b.take(k));
        assert((a + b)[at] == b[k]);
        lemma_run_split(tok0, a, b.take(k));
        lemma_delivers_concat(sink0, head.1, sink1, run(tok1, b.take(k)).1, mid);
        assert(refused_at(tok0, sink0, a + b, at, mid, tok2, sink2, second));
    }
}

/// A piece that failed comes to what the piece with anything after it comes
/// to: nothing after a failure is looked at.
pub proof fn lemma_feed_failed<H: SaxHandler>(
    tok0: TokState,
    sink0: H,
    a: Seq<u8>,
    tok1: TokState,
    sink1: H,
    first: Result<(), IksError>,
    b: Seq<u8>,
)
    requires
        a.len() > 0,
        feed_post(tok0, sink0, a, tok1, sink1, first),
        first is Err,
    ensures
        feed_post(tok0, sink0, a + b, tok1, sink1, first),
{
    lemma_run_split(tok0, a, b);
    let head = run(tok0, a);
    if first == Err::<(), IksError>(IksError::BadXml) && head.0.state == State::Failed && tok1
        == head.0 && delivers(sink0, head.1, sink1) {
        lemma_run_failed(head.0, b);
        assert(head.1 + Seq::<SaxEvent>::empty() =~= head.1);
    } else {
        let (k, mid) = choose|k: int, mid: H| #[trigger]
            refused_at(tok0, sink0, a, k, mid, tok1, sink1, first);
        assert((a + b).take(k) =~= a.take(k));
        assert((a + b)[k] == a[k]);
        assert(refused_at(tok0, sink0, a + b, k, mid, tok1, sink1, first));
    }
}

/// One more piece after the pieces before: it is fed where those went well,
/// and not looked at where they failed.
pub open spec fn piece_post<H: SaxHandler>(
    mid_tok: TokState,
    mid_sink: H,
    mid_result: Result<(), IksError>,
    piece: Seq<u8>,
    post_tok: TokState,
    post_sink: H,
    result: Result<(), IksError>,
) -> bool {
    if mid_result is Ok {
        feed_post(mid_tok, mid_sink, piece, post_tok, post_sink, result)
    } else {
        post_tok == mid_tok && post_sink == mid_sink && result == mid_result
    }
}

/// What holds after the pieces of a document were fed one after the other,
/// each by a call of [`Parser::parse_bytes`], up to the first call that
/// failed.
pub open spec fn pieces_post<H: SaxHandler>(
    pre_tok: TokState,
    pre_sink: H,
    pieces: Seq<Seq<u8>>,
    post_tok: TokState,
    post_sink: H,
    result: Result<(), IksError>,
) -> bool
    decreases pieces.len(),
{
    if pieces.len() == 0 {
        false
    } else if pieces.len() == 1 {
        feed_post(pre_tok, pre_sink, pieces[0], post_tok, post_sink, result)
    } else {
        exists|mid_tok: TokState, mid_sink: H, mid_result: Result<(), IksError>|
            pieces_post(pre_tok, pre_sink, pieces.drop_last(), mid_tok, mid_sink, mid_result)
                && #[trigger] piece_post(
                mid_tok,
                mid_sink,
                mid_result,
                pieces.last(),
                post_tok,
                post_sink,
                result,
            )
    }
}

/// Into however many pieces a document is cut, and wherever, also inside a
/// character: what holds after the pieces were fed one after the other is
/// what holds after the document was fed at once. The result is the same,
/// the tokenizer is in the same state, and the handler was given the same
/// events in the same order.
pub proof fn lemma_pieces<H: SaxHandler>(
    pre_tok: TokState,
    pre_sink: H,
    pieces: Seq<Seq<u8>>,
    post_tok: TokState,
    post_sink: H,
    result: Result<(), IksError>,
)
    requires
        pieces.len() > 0,
        forall|i: int| 0 <= i < pieces.len() ==> (#[trigger] pieces[i]).len() > 0,
        pieces_post(pre_tok, pre_sink, pieces, post_tok, post_sink, result),
    ensures
        feed_post(pre_tok, pre_sink, joined(pieces), post_tok, post_sink, result),
    decreases pieces.len(),
{
    if pieces.len() == 1 {
        assert(pieces.drop_last() =~= Seq::<Seq<u8>>::empty());
        assert(joined(pieces.drop_last()) =~= Seq::<u8>::empty());
        assert(joined(pieces) =~= pieces[0]);
    } else {
        let front = pieces.drop_last();
        let (mid_tok, mid_sink, mid_result) = choose|
            mid_tok: TokState,
            mid_sink: H,
            mid_result: Result<(), IksError>,
        |
            pieces_post(pre_tok, pre_sink, front, mid_tok, mid_sink, mid_result)
                && #[trigger] piece_post(
                mid_tok,
                mid_sink,
                mid_result,
                pieces.last(),
                post_tok,
                post_sink,
                result,
            );
        assert forall|i: int| 0 <= i < front.len() implies (#[trigger] front[i]).len() > 0 by {
            assert(front[i] == pieces[i]);
        }
        lemma_pieces(pre_tok, pre_sink, front, mid_tok, mid_sink, mid_result);
        lemma_joined_len(front);
        assert(pieces[pieces.len() - 1].len() > 0);
        if mid_result is Ok {
            lemma_feed_then_feed(
                pre_tok,
                pre_sink,
                joined(front),
                mid_tok,
                mid_sink,
                mid_result,
                pieces.last(),
                post_tok,
                post_sink,
                result,
            );
        } else {
            lemma_feed_failed(
                pre_tok,
                pre_sink,
                joined(front),
                mid_tok,
                mid_sink,
                mid_result,
                pieces.last(),
            );
        }
    }
}

/// Pieces that are not empty join to a document that is not empty.
pub proof fn lemma_joined_len(pieces: Seq<Seq<u8>>)
    requires
        pieces.len() > 0,
        forall|i: int| 0 <= i < pieces.len() ==> (#[trigger] pieces[i]).len() > 0,
    ensures
        joined(pieces).len() > 0,
{
    assert(pieces[pieces.len() - 1].len() > 0);
}

/// A step that gives an event does not fail.
pub proof fn lemma_event_keeps_going(s: TokState, b: u8)
    ensures
        step_byte(s, b).1 is Some ==> step_byte(s, b).0.state != State::Failed,
{
    reveal(dispatch);
}

/// The attributes that the tokenizer holds, written out: each after a blank,
/// name and value escaped, the value between double quotes.
pub open spec fn pending_attributes(attributes: Seq<AttrModel>) -> Seq<char>
    decreases attributes.len(),
{
    if attributes.len() == 0 {
        Seq::empty()
    } else {
        pending_attributes(attributes.drop_last()) + seq![' '] + escaped(attributes.last().0)
            + seq!['=', '"'] + escaped(attributes.last().1) + seq!['"']
    }
}

/// The tag that the tokenizer holds, written out.
pub open spec fn pending_tag(s: TokState) -> Seq<char> {
    seq!['<'] + (if s.tag_type == TagType::Close {
        seq!['/']
    } else {
        Seq::empty()
    }) + escaped(s.tag_name) + pending_attributes(s.attributes) + (if s.tag_type
        == TagType::Single {
        seq!['/', '>']
    } else {
        seq!['>']
    })
}

/// What the tokenizer holds, written out: the character data that is pending,
/// escaped, and then the tag that is being read, if its name has begun.
pub open spec fn pending_markup(s: TokState) -> Seq<char> {
    escaped(s.buffer) + if s.tag_name.len() > 0 {
        pending_tag(s)
    } else {
        Seq::empty()
    }
}

/// The states inside a tag.
pub open spec fn in_tag(state: State) -> bool {
    state == State::TagStart || state == State::Tag || state == State::TagEnd || state
        == State::Attribute || state == State::AttributeName || state == State::AttributeValue
        || state == State::ValueApos || state == State::ValueQuot
}

/// The states inside a comment, a character-data section or a processing
/// instruction.
pub open spec fn in_markup(state: State) -> bool {
    !in_tag(state) && state != State::CData && state != State::Entity && state != State::Failed
}

/// The character that the entity `name` stands for, if it is one of the five
/// that exist.
pub fn decode_entity(name: &str) -> (decoded: Option<char>)
    ensures
        decoded == entity_char(name@),
{
    proof {
        reveal_strlit("amp");
        reveal_strlit("lt");
        reveal_strlit("gt");
        reveal_strlit("apos");
        reveal_strlit("quot");
    }
    let amp = "amp";
    let lt = "lt";
    let gt = "gt";
    let apos = "apos";
    let quot = "quot";
    assert(amp@ =~= seq!['a', 'm', 'p']);
    assert(lt@ =~= seq!['l', 't']);
    assert(gt@ =~= seq!['g', 't']);
    assert(apos@ =~= seq!['a', 'p', 'o', 's']);
    assert(quot@ =~= seq!['q', 'u', 'o', 't']);
    if same_text(name, amp) {
        Some('&')
    } else if same_text(name, lt) {
        Some('<')
    } else if same_text(name, gt) {
        Some('>')
    } else if same_text(name, apos) {
        Some('\'')
    } else if same_text(name, quot) {
        Some('"')
    } else {
        None
    }
}

} // verus!
