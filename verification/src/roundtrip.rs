//! Why a tree that was written out as markup is read back as the same tree.

use vstd::prelude::*;
use vstd::utf8::encode_utf8;
use crate::chars::lemma_text_bytes;
use crate::dom::{
    document_of, dom_event, dom_run, empty_dom, innermost, place, sound, DomModel,
};
use crate::error::IksError;
use crate::node::{
    attached, attributes_markup, cdata_model, descend, escape_text_char, escaped_text,
    lemma_attached_is_put, lemma_descend_put, lemma_put_push, lemma_put_put, lemma_put_same,
    markup, markup_all, put, tag_model, text_or_empty, with_child, IksType, NodeModel,
};
use crate::sax::{
    dispatch, events_of, initial_state, is_space, run, step_end, AttrModel, SaxEvent, State,
    TagType,
};
use crate::shape::{
    flushed, is_clean, lemma_attr_name, lemma_attr_value, lemma_run_shape_first,
    lemma_run_shape_last, lemma_run_shape_one, lemma_run_shape_split, lemma_shape_run,
    lemma_tag_name, lemma_text, name_char, one, run_shape, shape_of, shape_step, Shape,
};
use crate::utility::escaped;

verus! {

/// A character that is written as an entity in attribute values.
pub open spec fn is_reserved(c: char) -> bool {
    c == '&' || c == '<' || c == '>' || c == '"' || c == '\''
}

/// A character that is written as an entity in character data.
pub open spec fn is_special(c: char) -> bool {
    c == '&' || c == '<' || c == '>'
}

/// A tag name that is read back as it was written. A tag that is closed by a
/// closing tag is named there once more; `closed` says that it is.
pub open spec fn plain_name(name: Seq<char>, closed: bool) -> bool {
    &&& name.len() > 0
    &&& name[0] != '/' && name[0] != '?' && name[0] != '!'
    &&& closed ==> name_char(name[0])
    &&& forall|i: int| 1 <= i < name.len() ==> name_char(#[trigger] name[i])
}

/// An attribute that is read back as it was written: its name begins with a
/// character that may stand in a name and goes on without `=` and blanks; its
/// value holds none of the characters that are written as entities.
pub open spec fn plain_attr(attr: AttrModel) -> bool {
    &&& attr.0.len() > 0
    &&& name_char(attr.0[0])
    &&& forall|i: int| 1 <= i < attr.0.len() ==> (#[trigger] attr.0[i]) != '=' && !is_space(attr.0[i])
    &&& forall|i: int| 0 <= i < attr.1.len() ==> !is_reserved(#[trigger] attr.1[i])
}

/// Every attribute of the row is read back as it was written.
pub open spec fn plain_attrs(attrs: Seq<AttrModel>) -> bool {
    forall|i: int| 0 <= i < attrs.len() ==> plain_attr(#[trigger] attrs[i])
}

/// A value without reserved characters is written as it is.
pub proof fn lemma_plain_value(value: Seq<char>)
    requires
        forall|i: int| 0 <= i < value.len() ==> !is_reserved(#[trigger] value[i]),
    ensures
        escaped(value) == value,
    decreases value.len(),
{
    if value.len() > 0 {
        lemma_plain_value(value.skip(1));
        assert(!is_reserved(value[0]));
        assert(seq![value[0]] + value.skip(1) =~= value);
    }
}

/// Character data that begins with `first` and goes on with `rest` is written
/// as what `first` becomes and then what `rest` becomes.
pub proof fn lemma_escaped_text_first(first: char, rest: Seq<char>)
    ensures
        escaped_text(seq![first] + rest) == escape_text_char(first) + escaped_text(rest),
    decreases rest.len(),
{
    let all = seq![first] + rest;
    if rest.len() == 0 {
        assert(all.drop_last() =~= Seq::<char>::empty());
        assert(escaped_text(all.drop_last()) =~= Seq::<char>::empty());
        assert(escaped_text(rest) =~= Seq::<char>::empty());
        assert(Seq::<char>::empty() + escape_text_char(first) =~= escape_text_char(first)
            + Seq::<char>::empty());
    } else {
        lemma_escaped_text_first(first, rest.drop_last());
        assert(all.drop_last() =~= seq![first] + rest.drop_last());
        assert(all.last() == rest.last());
        assert((escape_text_char(first) + escaped_text(rest.drop_last())) + escape_text_char(
            rest.last(),
        ) =~= escape_text_char(first) + (escaped_text(rest.drop_last()) + escape_text_char(
            rest.last(),
        )));
    }
}

/// Character data without special characters is written as it is.
pub proof fn lemma_plain_text(text: Seq<char>)
    requires
        forall|i: int| 0 <= i < text.len() ==> !is_special(#[trigger] text[i]),
    ensures
        escaped_text(text) == text,
    decreases text.len(),
{
    if text.len() > 0 {
        lemma_plain_text(text.drop_last());
        assert(!is_special(text[text.len() - 1]));
        assert(text.drop_last() + seq![text.last()] =~= text);
    }
}

/// One attribute, as it stands in a tag, joins the attributes of the tag.
pub proof fn lemma_read_attribute(shape: Shape, attr: AttrModel)
    requires
        (shape.state == State::Tag && shape.tag_name.len() > 0) || shape.state
            == State::Attribute,
        shape.attr_name.len() == 0,
        shape.attr_value.len() == 0,
        plain_attr(attr),
    ensures
        run_shape(shape, seq![' '] + attr.0 + seq!['=', '"'] + escaped(attr.1) + seq!['"']) == (
            Shape { state: State::Attribute, attributes: shape.attributes.push(attr), ..shape },
            Seq::<SaxEvent>::empty(),
        ),
{
    let name = attr.0;
    let value = attr.1;
    lemma_plain_value(value);
    let blank = seq![' '];
    let named = blank + name;
    let opened = named + seq!['=', '"'];
    let valued = opened + value;
    let whole = valued + seq!['"'];
    // the blank
    lemma_run_shape_one(shape, ' ');
    let s1 = Shape { state: State::Attribute, ..shape };
    assert(shape_step(shape, ' ') == (s1, None::<SaxEvent>)) by {
        reveal(dispatch);
    }
    // the name
    lemma_run_shape_split(shape, blank, name);
    lemma_run_shape_first(s1, name[0], name.skip(1));
    assert(seq![name[0]] + name.skip(1) =~= name);
    let s2 = Shape { state: State::AttributeName, attr_name: seq![name[0]], ..s1 };
    assert(shape_step(s1, name[0]) == (s2, None::<SaxEvent>)) by {
        reveal(dispatch);
        assert(s1.attr_name.push(name[0]) =~= seq![name[0]]);
    }
    assert forall|i: int| 0 <= i < name.skip(1).len() implies (#[trigger] name.skip(1)[i]) != '='
        && !is_space(name.skip(1)[i]) by {
        assert(name.skip(1)[i] == name[i + 1]);
    }
    lemma_attr_name(s2, name.skip(1));
    let s3 = Shape { attr_name: name, ..s2 };
    assert(seq![name[0]] + name.skip(1) =~= name);
    assert(run_shape(shape, named).0 == s3);
    assert(run_shape(shape, named).1 =~= Seq::<SaxEvent>::empty());
    // the equals sign and the quote
    lemma_run_shape_split(shape, named, seq!['=', '"']);
    lemma_run_shape_first(s3, '=', seq!['"']);
    assert(seq!['='] + seq!['"'] =~= seq!['=', '"']);
    lemma_run_shape_one(shape_step(s3, '=').0, '"');
    let s4 = Shape { state: State::ValueQuot, ..s3 };
    assert(shape_step(s3, '=').0 == (Shape { state: State::AttributeValue, ..s3 })
        && shape_step(s3, '=').1 is None && shape_step(shape_step(s3, '=').0, '"') == (
        s4,
        None::<SaxEvent>,
    )) by {
        reveal(dispatch);
    }
    assert(run_shape(shape, opened).0 == s4);
    assert(run_shape(shape, opened).1 =~= Seq::<SaxEvent>::empty());
    // the value
    lemma_run_shape_split(shape, opened, value);
    assert forall|i: int| 0 <= i < value.len() implies (#[trigger] value[i]) != '"' by {
        assert(!is_reserved(value[i]));
    }
    lemma_attr_value(s4, value);
    let s5 = Shape { attr_value: value, ..s4 };
    assert(s4.attr_value + value =~= value);
    assert(run_shape(shape, valued).0 == s5);
    assert(run_shape(shape, valued).1 =~= Seq::<SaxEvent>::empty());
    // the closing quote
    lemma_run_shape_last(shape, valued, '"');
    assert(shape_step(s5, '"') == (
        Shape { state: State::Attribute, attributes: shape.attributes.push(attr), ..shape },
        None::<SaxEvent>,
    )) by {
        reveal(dispatch);
        assert(shape.attr_name =~= Seq::<char>::empty());
        assert(shape.attr_value =~= Seq::<char>::empty());
    }
    assert(run_shape(shape, whole).1 =~= Seq::<SaxEvent>::empty());
}

/// The attributes, as they stand in a tag, become the attributes of the tag.
pub proof fn lemma_read_attributes(shape: Shape, attrs: Seq<AttrModel>)
    requires
        (shape.state == State::Tag && shape.tag_name.len() > 0) || shape.state
            == State::Attribute,
        shape.attr_name.len() == 0,
        shape.attr_value.len() == 0,
        plain_attrs(attrs),
    ensures
        run_shape(shape, attributes_markup(attrs)) == (
            Shape {
                state: if attrs.len() > 0 {
                    State::Attribute
                } else {
                    shape.state
                },
                attributes: shape.attributes + attrs,
                ..shape
            },
            Seq::<SaxEvent>::empty(),
        ),
    decreases attrs.len(),
{
    if attrs.len() == 0 {
        assert(shape.attributes + attrs =~= shape.attributes);
    } else {
        let front = attrs.drop_last();
        let last = attrs.last();
        assert(plain_attrs(front)) by {
            assert forall|i: int| 0 <= i < front.len() implies plain_attr(#[trigger] front[i]) by {
                assert(front[i] == attrs[i]);
            }
        }
        assert(plain_attr(attrs[attrs.len() - 1]));
        lemma_read_attributes(shape, front);
        let mid = run_shape(shape, attributes_markup(front)).0;
        lemma_read_attribute(mid, last);
        let piece = seq![' '] + last.0 + seq!['=', '"'] + escaped(last.1) + seq!['"'];
        lemma_run_shape_split(shape, attributes_markup(front), piece);
        assert(attributes_markup(attrs) =~= attributes_markup(front) + piece);
        assert((shape.attributes + front).push(last) =~= shape.attributes + attrs);
        assert(run_shape(shape, attributes_markup(attrs)).1 =~= Seq::<SaxEvent>::empty());
    }
}

/// The shape after the head of a tag: its name and its attributes are read.
pub open spec fn head_read(shape: Shape, name: Seq<char>, attrs: Seq<AttrModel>) -> bool {
    &&& shape.state == if attrs.len() > 0 {
        State::Attribute
    } else {
        State::Tag
    }
    &&& shape.tag_name == name
    &&& shape.tag_type == TagType::Open
    &&& shape.attributes == attrs
    &&& shape.buffer.len() == 0
    &&& shape.attr_name.len() == 0
    &&& shape.attr_value.len() == 0
    &&& shape.entity.len() == 0
}

/// The head of a tag: pending character data is handed out, then the name
/// and the attributes are read.
pub proof fn lemma_read_head(
    shape: Shape,
    buffer: Seq<char>,
    name: Seq<char>,
    closed: bool,
    attrs: Seq<AttrModel>,
)
    requires
        is_clean(shape, buffer),
        plain_name(name, closed),
        plain_attrs(attrs),
    ensures
        head_read(run_shape(shape, seq!['<'] + name + attributes_markup(attrs)).0, name, attrs),
        run_shape(shape, seq!['<'] + name + attributes_markup(attrs)).1 == flushed(buffer),
{
    let lead = seq!['<'];
    let named = lead + name;
    lemma_run_shape_one(shape, '<');
    let s1 = Shape { state: State::TagStart, buffer: Seq::empty(), ..shape };
    assert(shape_step(shape, '<').0 == s1 && one(shape_step(shape, '<').1) == flushed(buffer)) by {
        reveal(dispatch);
    }
    lemma_run_shape_split(shape, lead, name);
    lemma_run_shape_first(s1, name[0], name.skip(1));
    assert(seq![name[0]] + name.skip(1) =~= name);
    let s2 = Shape { state: State::Tag, tag_type: TagType::Open, tag_name: seq![name[0]], ..s1 };
    assert(shape_step(s1, name[0]) == (s2, None::<SaxEvent>)) by {
        reveal(dispatch);
        assert(s1.tag_name.push(name[0]) =~= seq![name[0]]);
    }
    assert forall|i: int| 0 <= i < name.skip(1).len() implies name_char(
        #[trigger] name.skip(1)[i],
    ) by {
        assert(name.skip(1)[i] == name[i + 1]);
    }
    lemma_tag_name(s2, name.skip(1));
    let s3 = Shape { tag_name: name, ..s2 };
    assert(run_shape(shape, named).0 == s3);
    assert(run_shape(shape, named).1 =~= flushed(buffer));
    lemma_run_shape_split(shape, named, attributes_markup(attrs));
    lemma_read_attributes(s3, attrs);
    assert(s3.attributes + attrs =~= attrs);
    assert(flushed(buffer) + Seq::<SaxEvent>::empty() =~= flushed(buffer));
}

/// The end of a tag hands out the tag.
pub proof fn lemma_read_tag_end(shape: Shape, name: Seq<char>, attrs: Seq<AttrModel>, single: bool)
    requires
        head_read(shape, name, attrs),
        name.len() > 0,
    ensures
        is_clean(
            run_shape(
                shape,
                if single {
                    seq!['/', '>']
                } else {
                    seq!['>']
                },
            ).0,
            Seq::empty(),
        ),
        run_shape(
            shape,
            if single {
                seq!['/', '>']
            } else {
                seq!['>']
            },
        ).1 == seq![
            SaxEvent::Tag {
                name,
                attributes: attrs,
                tag_type: if single {
                    TagType::Single
                } else {
                    TagType::Open
                },
            },
        ],
{
    reveal(dispatch);
    assert(shape.buffer =~= Seq::<char>::empty());
    if single {
        lemma_run_shape_first(shape, '/', seq!['>']);
        assert(seq!['/'] + seq!['>'] =~= seq!['/', '>']);
        lemma_run_shape_one(shape_step(shape, '/').0, '>');
        assert(run_shape(shape, seq!['/', '>']).1 =~= seq![
            SaxEvent::Tag { name, attributes: attrs, tag_type: TagType::Single },
        ]);
    } else {
        lemma_run_shape_one(shape, '>');
    }
}

/// A closing tag: pending character data is handed out, then the tag.
pub proof fn lemma_read_close(shape: Shape, buffer: Seq<char>, name: Seq<char>)
    requires
        is_clean(shape, buffer),
        forall|i: int| 0 <= i < name.len() ==> name_char(#[trigger] name[i]),
    ensures
        is_clean(run_shape(shape, seq!['<', '/'] + name + seq!['>']).0, Seq::empty()),
        run_shape(shape, seq!['<', '/'] + name + seq!['>']).1 == flushed(buffer) + seq![
            SaxEvent::Tag { name, attributes: Seq::empty(), tag_type: TagType::Close },
        ],
{
    let lead = seq!['<', '/'];
    let named = lead + name;
    lemma_run_shape_first(shape, '<', seq!['/']);
    assert(seq!['<'] + seq!['/'] =~= lead);
    let s1 = Shape { state: State::TagStart, buffer: Seq::empty(), ..shape };
    lemma_run_shape_one(s1, '/');
    let s2 = Shape { state: State::Tag, tag_type: TagType::Close, ..s1 };
    assert(shape_step(shape, '<').0 == s1 && one(shape_step(shape, '<').1) == flushed(buffer)
        && shape_step(s1, '/') == (s2, None::<SaxEvent>)) by {
        reveal(dispatch);
    }
    assert(run_shape(shape, lead).0 == s2);
    assert(run_shape(shape, lead).1 =~= flushed(buffer));
    lemma_run_shape_split(shape, lead, name);
    lemma_tag_name(s2, name);
    let s3 = Shape { tag_name: name, ..s2 };
    assert(s2.tag_name + name =~= name);
    assert(run_shape(shape, named).0 == s3);
    assert(run_shape(shape, named).1 =~= flushed(buffer));
    lemma_run_shape_last(shape, named, '>');
    assert(is_clean(shape_step(s3, '>').0, Seq::empty()) && one(shape_step(s3, '>').1) == seq![
        SaxEvent::Tag { name, attributes: Seq::<AttrModel>::empty(), tag_type: TagType::Close },
    ]) by {
        reveal(dispatch);
        assert(s3.attributes =~= Seq::<AttrModel>::empty());
    }
}

/// An entity of one of the three special characters: pending character data
/// is handed out, and the character begins the data that follows.
pub proof fn lemma_read_entity(shape: Shape, buffer: Seq<char>, c: char)
    requires
        is_clean(shape, buffer),
        is_special(c),
    ensures
        is_clean(run_shape(shape, escape_text_char(c)).0, seq![c]),
        run_shape(shape, escape_text_char(c)).1 == flushed(buffer),
        run_shape(shape, escape_text_char(c)).0.tag_type == shape.tag_type,
{
    reveal(dispatch);
    let text = escape_text_char(c);
    let s1 = shape_step(shape, text[0]).0;
    lemma_run_shape_first(shape, text[0], text.skip(1));
    assert(seq![text[0]] + text.skip(1) =~= text);
    assert(one(shape_step(shape, '&').1) == flushed(buffer));
    let s2 = shape_step(s1, text[1]).0;
    lemma_run_shape_first(s1, text[1], text.skip(1).skip(1));
    assert(seq![text[1]] + text.skip(1).skip(1) =~= text.skip(1));
    let s3 = shape_step(s2, text[2]).0;
    lemma_run_shape_first(s2, text[2], text.skip(1).skip(1).skip(1));
    assert(seq![text[2]] + text.skip(1).skip(1).skip(1) =~= text.skip(1).skip(1));
    assert(s1.entity =~= Seq::<char>::empty());
    if c == '&' {
        let s4 = shape_step(s3, text[3]).0;
        lemma_run_shape_first(s3, text[3], text.skip(1).skip(1).skip(1).skip(1));
        assert(seq![text[3]] + text.skip(1).skip(1).skip(1).skip(1) =~= text.skip(1).skip(1).skip(
            1,
        ));
        lemma_run_shape_one(s4, ';');
        assert(text.skip(1).skip(1).skip(1).skip(1) =~= seq![';']);
        assert(s4.entity =~= seq!['a', 'm', 'p']);
        assert(shape_step(s4, ';').0.buffer =~= seq![c]);
        assert(run_shape(shape, text).1 =~= flushed(buffer));
    } else {
        lemma_run_shape_one(s3, ';');
        assert(text.skip(1).skip(1).skip(1) =~= seq![';']);
        assert(s3.entity =~= if c == '<' {
            seq!['l', 't']
        } else {
            seq!['g', 't']
        });
        assert(seq!['l', 't'].len() == 2 && seq!['a', 'm', 'p'].len() == 3);
        assert(seq!['l', 't'][0] == 'l' && seq!['g', 't'][0] == 'g');
        assert(shape_step(s3, ';').0.buffer =~= seq![c]);
        assert(run_shape(shape, text).1 =~= flushed(buffer));
    }
}

/// Character data that is read back as it was written: it is not blank, and
/// special characters stand at its start only.
pub open spec fn plain_text(text: Seq<char>) -> bool {
    &&& text.len() > 0
    &&& !crate::text::is_blank(text)
    &&& forall|i: int| 1 <= i < text.len() ==> !is_special(#[trigger] text[i])
}

/// Character data, as it is written out, is read into the buffer. Data that
/// is pending is handed out first; it stays only where the new data begins
/// with no special character, and then there must be none.
pub proof fn lemma_read_text(shape: Shape, buffer: Seq<char>, text: Seq<char>)
    requires
        is_clean(shape, buffer),
        plain_text(text),
        is_special(text[0]) || buffer.len() == 0,
    ensures
        is_clean(run_shape(shape, escaped_text(text)).0, text),
        run_shape(shape, escaped_text(text)).1 == flushed(buffer),
        run_shape(shape, escaped_text(text)).0.tag_type == shape.tag_type,
{
    let rest = text.skip(1);
    assert(seq![text[0]] + rest =~= text);
    lemma_escaped_text_first(text[0], rest);
    assert forall|i: int| 0 <= i < rest.len() implies !is_special(#[trigger] rest[i]) by {
        assert(rest[i] == text[i + 1]);
    }
    lemma_plain_text(rest);
    assert forall|i: int| 0 <= i < rest.len() implies (#[trigger] rest[i]) != '<' && rest[i]
        != '&' by {
        assert(!is_special(rest[i]));
    }
    if is_special(text[0]) {
        lemma_read_entity(shape, buffer, text[0]);
        let mid = run_shape(shape, escape_text_char(text[0])).0;
        lemma_run_shape_split(shape, escape_text_char(text[0]), rest);
        lemma_text(mid, rest);
        assert(flushed(buffer) + Seq::<SaxEvent>::empty() =~= flushed(buffer));
    } else {
        assert(escape_text_char(text[0]) =~= seq![text[0]]);
        assert forall|i: int| 0 <= i < text.len() implies (#[trigger] text[i]) != '<' && text[i]
            != '&' by {
            if i > 0 {
                assert(!is_special(text[i]));
            }
        }
        lemma_text(shape, text);
        assert(shape.buffer + text =~= text);
    }
}

/// A tree that is read back as it was written: a tag without content of its
/// own, with a name and attributes that are read back as they were written,
/// and below it only trees of this kind and character data.
pub open spec fn plain(node: NodeModel) -> bool
    decreases node,
{
    &&& node.node_type == IksType::Tag
    &&& node.name is Some
    &&& plain_name(node.name->0, node.children.len() > 0)
    &&& node.content is None
    &&& plain_attrs(node.attributes)
    &&& plain_children(node.children)
}

/// The children are trees that are read back as they were written, or
/// character data that is: not blank, with special characters at its start
/// only, and beginning with one where it follows other character data.
pub open spec fn plain_children(nodes: Seq<NodeModel>) -> bool
    decreases nodes,
{
    nodes.len() > 0 ==> {
        &&& plain_children(nodes.drop_last())
        &&& if nodes.last().node_type == IksType::CData {
            &&& nodes.last().content is Some
            &&& nodes.last() == cdata_model(nodes.last().content->0)
            &&& plain_text(nodes.last().content->0)
            &&& pending(nodes.drop_last()).len() > 0 ==> is_special(nodes.last().content->0[0])
        } else {
            plain(nodes.last())
        }
    }
}

/// The character data that the tokenizer still holds after the children:
/// that of the last child, if the last child is character data.
pub open spec fn pending(nodes: Seq<NodeModel>) -> Seq<char> {
    if nodes.len() > 0 && nodes.last().node_type == IksType::CData {
        text_or_empty(nodes.last().content)
    } else {
        Seq::empty()
    }
}

/// The events that a tree gives when it is written out and read.
pub open spec fn node_events(node: NodeModel) -> Seq<SaxEvent>
    decreases node,
{
    if node.node_type == IksType::CData {
        seq![SaxEvent::CData { text: text_or_empty(node.content) }]
    } else if node.children.len() == 0 {
        seq![
            SaxEvent::Tag {
                name: text_or_empty(node.name),
                attributes: node.attributes,
                tag_type: TagType::Single,
            },
        ]
    } else {
        seq![
            SaxEvent::Tag {
                name: text_or_empty(node.name),
                attributes: node.attributes,
                tag_type: TagType::Open,
            },
        ] + children_events(node.children) + seq![
            SaxEvent::Tag {
                name: text_or_empty(node.name),
                attributes: Seq::empty(),
                tag_type: TagType::Close,
            },
        ]
    }
}

/// The events of children, one child after the other.
pub open spec fn children_events(nodes: Seq<NodeModel>) -> Seq<SaxEvent>
    decreases nodes,
{
    if nodes.len() == 0 {
        Seq::empty()
    } else {
        children_events(nodes.drop_last()) + node_events(nodes.last())
    }
}

/// The events of the children that have arisen when the last character of
/// the children is read: all but that of character data at the end.
pub open spec fn settled(nodes: Seq<NodeModel>) -> Seq<SaxEvent> {
    if nodes.len() > 0 && nodes.last().node_type == IksType::CData {
        children_events(nodes.drop_last())
    } else {
        children_events(nodes)
    }
}

/// The events of the children are those that have arisen and that of the
/// character data that is pending.
pub proof fn lemma_settled(nodes: Seq<NodeModel>)
    requires
        plain_children(nodes),
    ensures
        children_events(nodes) == settled(nodes) + flushed(pending(nodes)),
{
    if nodes.len() > 0 && nodes.last().node_type == IksType::CData {
        let text = nodes.last().content->0;
        assert(plain_text(text));
        assert(pending(nodes) == text);
        assert(node_events(nodes.last()) == seq![SaxEvent::CData { text }]);
        assert(flushed(text) == seq![SaxEvent::CData { text }]);
    } else {
        assert(children_events(nodes) + Seq::<SaxEvent>::empty() =~= children_events(nodes));
    }
}

/// Reading a tree that was written out hands out what was pending and then
/// the events of the tree, and leaves the tokenizer with nothing in hand.
pub proof fn lemma_read_node(shape: Shape, buffer: Seq<char>, node: NodeModel)
    requires
        is_clean(shape, buffer),
        plain(node),
    ensures
        is_clean(run_shape(shape, markup(node)).0, Seq::empty()),
        run_shape(shape, markup(node)).1 == flushed(buffer) + node_events(node),
    decreases node, 1nat,
{
    let name = node.name->0;
    let attrs = node.attributes;
    let head = seq!['<'] + name + attributes_markup(attrs);
    lemma_read_head(shape, buffer, name, node.children.len() > 0, attrs);
    let s1 = run_shape(shape, head).0;
    if node.children.len() == 0 {
        lemma_read_tag_end(s1, name, attrs, true);
        lemma_run_shape_split(shape, head, seq!['/', '>']);
    } else {
        let children = node.children;
        let opened = head + seq!['>'];
        let filled = opened + markup_all(children);
        let tail = seq!['<', '/'] + name + seq!['>'];
        lemma_read_tag_end(s1, name, attrs, false);
        lemma_run_shape_split(shape, head, seq!['>']);
        let s2 = run_shape(shape, opened).0;
        lemma_read_children(s2, children);
        lemma_run_shape_split(shape, opened, markup_all(children));
        let s3 = run_shape(shape, filled).0;
        assert forall|i: int| 0 <= i < name.len() implies name_char(#[trigger] name[i]) by {}
        lemma_read_close(s3, pending(children), name);
        lemma_run_shape_split(shape, filled, tail);
        lemma_settled(children);
        assert(escaped_text(Seq::<char>::empty()) =~= Seq::<char>::empty());
        assert(markup(node) =~= filled + tail);
        let open = seq![SaxEvent::Tag { name, attributes: attrs, tag_type: TagType::Open }];
        let close = seq![
            SaxEvent::Tag { name, attributes: Seq::empty(), tag_type: TagType::Close },
        ];
        assert(run_shape(shape, markup(node)).1 =~= flushed(buffer) + (open + (settled(children)
            + flushed(pending(children))) + close));
    }
}

/// Reading children that were written out hands out the events of the
/// children, but for character data at the end, which the tokenizer holds.
pub proof fn lemma_read_children(shape: Shape, nodes: Seq<NodeModel>)
    requires
        is_clean(shape, Seq::empty()),
        plain_children(nodes),
    ensures
        is_clean(run_shape(shape, markup_all(nodes)).0, pending(nodes)),
        run_shape(shape, markup_all(nodes)).1 == settled(nodes),
    decreases nodes, 0nat,
{
    if nodes.len() > 0 {
        let front = nodes.drop_last();
        let last = nodes.last();
        lemma_read_children(shape, front);
        lemma_settled(front);
        let mid = run_shape(shape, markup_all(front)).0;
        lemma_run_shape_split(shape, markup_all(front), markup(last));
        if last.node_type == IksType::CData {
            lemma_read_text(mid, pending(front), last.content->0);
        } else {
            lemma_read_node(mid, pending(front), last);
            assert(settled(front) + (flushed(pending(front)) + node_events(last)) =~= (settled(
                front,
            ) + flushed(pending(front))) + node_events(last));
        }
    }
}

/// The node with `more` children after those it has.
pub open spec fn with_children(node: NodeModel, more: Seq<NodeModel>) -> NodeModel {
    NodeModel { children: node.children + more, ..node }
}

/// The builder takes events in rows: one row after the other does what the
/// whole does, as long as nothing is refused.
pub proof fn lemma_dom_run_split(dom: DomModel, a: Seq<SaxEvent>, b: Seq<SaxEvent>)
    requires
        dom_run(dom, a).1 is None,
    ensures
        dom_run(dom, a + b) == dom_run(dom_run(dom, a).0, b),
    decreases b.len(),
{
    if b.len() == 0 {
        assert(a + b =~= a);
    } else {
        lemma_dom_run_split(dom, a, b.drop_last());
        assert((a + b).drop_last() =~= a + b.drop_last());
        assert((a + b).last() == b.last());
    }
}

/// A row of one event is that event.
pub proof fn lemma_dom_run_one(dom: DomModel, event: SaxEvent)
    ensures
        dom_run(dom, seq![event]) == dom_event(dom, event),
{
    let row = seq![event];
    assert(row.drop_last() =~= Seq::<SaxEvent>::empty());
    assert(dom_run(dom, row.drop_last()) == (dom, None::<IksError>));
}

/// The events of a tree build the tree and put it in its place, and leave
/// open what was open.
pub proof fn lemma_build_node(dom: DomModel, node: NodeModel)
    requires
        plain(node),
        sound(dom),
    ensures
        dom_run(dom, node_events(node)) == (place(dom, node), None::<IksError>),
    decreases node, 1nat,
{
    let name = node.name->0;
    let attrs = node.attributes;
    let tag = tag_model(name, attrs);
    if node.children.len() == 0 {
        lemma_dom_run_one(
            dom,
            SaxEvent::Tag { name, attributes: attrs, tag_type: TagType::Single },
        );
        assert(node.children =~= Seq::<NodeModel>::empty());
        assert(tag == node);
    } else {
        let open = SaxEvent::Tag { name, attributes: attrs, tag_type: TagType::Open };
        let close = SaxEvent::Tag { name, attributes: Seq::empty(), tag_type: TagType::Close };
        let inner = children_events(node.children);
        lemma_dom_run_one(dom, open);
        let d1 = dom_event(dom, open).0;
        assert(with_children(tag, node.children) == node) by {
            assert(tag.children + node.children =~= node.children);
        }
        match dom.open {
            None => {
                assert(d1.root == Some(tag) && d1.open == Some(Seq::<int>::empty()));
                lemma_build_children(d1, node.children);
                let d2 = dom_run(d1, inner).0;
                assert(d2.root == Some(node));
                lemma_dom_run_split(dom, seq![open], inner);
                lemma_dom_run_one(d2, close);
                lemma_dom_run_split(dom, seq![open] + inner, seq![close]);
            },
            Some(path) => {
                let root = dom.root->0;
                let top = descend(root, path)->0;
                let place = top.children.len() as int;
                let longer = path.push(place);
                let top1 = with_child(top, tag);
                let root1 = put(root, path, top1);
                lemma_attached_is_put(root, path, tag);
                lemma_descend_put(root, path, top1);
                lemma_put_push(root1, path, place, node);
                assert(d1.root == Some(root1) && d1.open == Some(longer));
                assert(descend(root1, longer) == Some(tag));
                lemma_build_children(d1, node.children);
                let d2 = dom_run(d1, inner).0;
                let root2 = put(root1, longer, node);
                assert(d2.root == Some(root2) && d2.open == Some(longer));
                lemma_descend_put(root1, longer, node);
                assert(top1.children.update(place, node) =~= top.children.push(node));
                lemma_put_put(root, path, top1, with_child(top, node));
                lemma_attached_is_put(root, path, node);
                assert(root2 == attached(root, path, node));
                assert(longer.drop_last() =~= path);
                lemma_dom_run_split(dom, seq![open], inner);
                lemma_dom_run_one(d2, close);
                lemma_dom_run_split(dom, seq![open] + inner, seq![close]);
            },
        }
    }
}

/// The events of children build the children under the innermost open
/// element.
pub proof fn lemma_build_children(dom: DomModel, nodes: Seq<NodeModel>)
    requires
        dom.open is Some,
        innermost(dom) is Some,
        plain_children(nodes),
    ensures
        dom_run(dom, children_events(nodes)) == (
            DomModel {
                root: Some(
                    put(dom.root->0, dom.open->0, with_children(innermost(dom)->0, nodes)),
                ),
                ..dom
            },
            None::<IksError>,
        ),
    decreases nodes, 0nat,
{
    let root = dom.root->0;
    let path = dom.open->0;
    let top = innermost(dom)->0;
    if nodes.len() == 0 {
        assert(top.children + nodes =~= top.children);
        lemma_put_same(root, path);
    } else {
        let front = nodes.drop_last();
        let last = nodes.last();
        lemma_build_children(dom, front);
        let top1 = with_children(top, front);
        let root1 = put(root, path, top1);
        let d1 = DomModel { root: Some(root1), ..dom };
        lemma_descend_put(root, path, top1);
        lemma_dom_run_split(dom, children_events(front), node_events(last));
        if last.node_type == IksType::CData {
            lemma_dom_run_one(d1, SaxEvent::CData { text: last.content->0 });
        } else {
            lemma_build_node(d1, last);
        }
        lemma_attached_is_put(root1, path, last);
        lemma_put_put(root, path, top1, with_child(top1, last));
        assert((top.children + front).push(last) =~= top.children + nodes);
    }
}

/// A tree that is written out and read again is the tree that it was: for a
/// tree that is [`plain`], the text that [`IksNode::to_string`] gives is a
/// document of which [`DomParser::parse_str`] builds that tree.
///
/// [`IksNode::to_string`]: crate::node::IksNode::to_string
/// [`DomParser::parse_str`]: crate::dom::DomParser::parse_str
pub proof fn lemma_round_trip(node: NodeModel)
    requires
        plain(node),
    ensures
        document_of(encode_utf8(markup(node))) == Some(node),
{
    let text = markup(node);
    let start = initial_state();
    lemma_text_bytes(start, text);
    lemma_shape_run(start, text);
    lemma_read_node(shape_of(start), Seq::empty(), node);
    lemma_build_node(empty_dom(), node);
    let fed = run(start, encode_utf8(text));
    assert(fed.1 =~= node_events(node));
    assert(shape_of(fed.0).buffer =~= Seq::<char>::empty());
    assert(step_end(fed.0).1 is None);
    assert(fed.1 + events_of(step_end(fed.0)) =~= node_events(node));
}

/// An element without children, written as an opening and a closing tag.
pub open spec fn pair_markup(node: NodeModel) -> Seq<char> {
    seq!['<'] + text_or_empty(node.name) + attributes_markup(node.attributes) + seq!['>'] + (seq![
        '<',
        '/',
    ] + text_or_empty(node.name) + seq!['>'])
}

/// An element without children is read as the same tree, whether it closes
/// itself or is written as an opening and a closing tag.
pub proof fn lemma_empty_pair(node: NodeModel)
    requires
        plain(node),
        node.children.len() == 0,
        name_char(node.name->0[0]),
    ensures
        document_of(encode_utf8(pair_markup(node))) == Some(node),
        document_of(encode_utf8(pair_markup(node))) == document_of(encode_utf8(markup(node))),
{
    lemma_round_trip(node);
    let name = node.name->0;
    let attrs = node.attributes;
    let head = seq!['<'] + name + attributes_markup(attrs);
    let opened = head + seq!['>'];
    let tail = seq!['<', '/'] + name + seq!['>'];
    let text = pair_markup(node);
    let start = initial_state();
    let shape = shape_of(start);
    lemma_text_bytes(start, text);
    lemma_shape_run(start, text);
    lemma_read_head(shape, Seq::empty(), name, true, attrs);
    lemma_read_tag_end(run_shape(shape, head).0, name, attrs, false);
    lemma_run_shape_split(shape, head, seq!['>']);
    assert forall|i: int| 0 <= i < name.len() implies name_char(#[trigger] name[i]) by {}
    lemma_read_close(run_shape(shape, opened).0, Seq::empty(), name);
    lemma_run_shape_split(shape, opened, tail);
    let open = SaxEvent::Tag { name, attributes: attrs, tag_type: TagType::Open };
    let close = SaxEvent::Tag { name, attributes: Seq::empty(), tag_type: TagType::Close };
    let fed = run(start, encode_utf8(text));
    assert(fed.1 =~= seq![open] + seq![close]);
    assert(shape_of(fed.0).buffer =~= Seq::<char>::empty());
    assert(step_end(fed.0).1 is None);
    assert(fed.1 + events_of(step_end(fed.0)) =~= seq![open] + seq![close]);
    lemma_dom_run_one(empty_dom(), open);
    let d1 = dom_event(empty_dom(), open).0;
    lemma_dom_run_one(d1, close);
    lemma_dom_run_split(empty_dom(), seq![open], seq![close]);
    assert(node.children =~= Seq::<NodeModel>::empty());
    assert(tag_model(name, attrs) == node);
}

} // verus!
