//! The tree builder: a handler that turns the tokenizer's events into a tree.

use vstd::prelude::*;
use vstd::string::StringSliceAdditionalSpecFns;
use crate::constants::memory::DEFAULT_IKS_CHUNK_SIZE;
use crate::error::IksError;
use crate::node::{
    attached, cdata_model, descend, found, lemma_all_well_formed, lemma_attached_is_put,
    lemma_descend_put, lemma_models_of, lemma_put_push, places, tag_model, well_formed,
    with_child, IksNode, IksType, NodeModel,
};
use crate::parser::{
    delivers, event_step, feed_post, pairs_model, refusal_of, refused_at, Parser, SaxHandler,
};
use crate::sax::{
    events_of, initial_state, lemma_run_split, run, step_byte, step_end, AttrModel, SaxEvent,
    State, TagType,
};
use crate::text::{blank_text, is_blank};

verus! {

/// The builder as mathematics.
pub struct DomModel {
    /// The document: the element at the top level that was opened last, with
    /// all that has been added below it so far.
    pub root: Option<NodeModel>,
    /// `None` while no element is open. Otherwise the path from the document
    /// to the innermost open element; the open elements are the nodes along
    /// it, the document first.
    pub open: Option<Seq<int>>,
    pub chunk_size: usize,
}

/// A handler that builds a tree.
///
/// A tag becomes a node at once: the last child of the innermost open
/// element, or the document where no element is open, in place of any
/// document that was there. An opening tag leaves its node open, until the
/// closing tag comes.
///
/// A closing tag must name the innermost open element: another name is
/// refused with `BadXml`. A closing tag that comes when no element is open is
/// passed over.
pub struct DomParser {
    root: Option<IksNode>,
    /// The places of the open elements, the outermost first. The document
    /// has the place 0; every other place is that of a child in the element
    /// before.
    node_stack: Vec<usize>,
    chunk_size: usize,
}

impl View for DomParser {
    type V = DomModel;

    closed spec fn view(&self) -> DomModel {
        DomModel {
            root: match self.root {
                Some(node) => Some(node@),
                None => None,
            },
            open: if self.node_stack@.len() > 0 {
                Some(places(self.node_stack@).skip(1))
            } else {
                None
            },
            chunk_size: self.chunk_size,
        }
    }
}

/// A builder that has seen nothing.
pub open spec fn empty_dom() -> DomModel {
    DomModel { root: None, open: None, chunk_size: DEFAULT_IKS_CHUNK_SIZE }
}

/// The chunk size for a document of about `approx_size` bytes: a tenth of it,
/// and at least the smallest size.
pub open spec fn chunk_size_for(approx_size: usize) -> usize {
    if approx_size / 10 > DEFAULT_IKS_CHUNK_SIZE {
        approx_size / 10
    } else {
        DEFAULT_IKS_CHUNK_SIZE
    }
}

/// The innermost open element.
pub open spec fn innermost(dom: DomModel) -> Option<NodeModel> {
    match (dom.root, dom.open) {
        (Some(root), Some(path)) => descend(root, path),
        _ => None,
    }
}

/// How many elements are open.
pub open spec fn depth_of(dom: DomModel) -> nat {
    match dom.open {
        Some(path) => path.len() + 1,
        None => 0,
    }
}

/// A new node finds its place: it becomes the last child of the innermost
/// open element, or the document where no element is open.
pub open spec fn place(dom: DomModel, node: NodeModel) -> DomModel {
    match dom.open {
        None => DomModel { root: Some(node), ..dom },
        Some(path) => match dom.root {
            Some(root) => DomModel { root: Some(attached(root, path, node)), ..dom },
            None => dom,
        },
    }
}

/// What a tag does to the builder, and the error where the builder refuses it.
///
/// An opening or self-closing tag puts a new node in its place; after an
/// opening tag that node is the innermost open element. A closing tag that
/// names the innermost open element closes it.
pub open spec fn dom_tag(
    dom: DomModel,
    name: Seq<char>,
    attributes: Seq<AttrModel>,
    tag_type: TagType,
) -> (DomModel, Option<IksError>) {
    match tag_type {
        TagType::Open => match dom.open {
            None => (
                DomModel { open: Some(Seq::empty()), ..place(dom, tag_model(name, attributes)) },
                None,
            ),
            Some(path) => match innermost(dom) {
                Some(top) => (
                    DomModel {
                        open: Some(path.push(top.children.len() as int)),
                        ..place(dom, tag_model(name, attributes))
                    },
                    None,
                ),
                None => (dom, Some(IksError::BadXml)),
            },
        },
        TagType::Single => (place(dom, tag_model(name, attributes)), None),
        TagType::Close => match dom.open {
            None => (dom, None),
            Some(path) => match innermost(dom) {
                Some(top) => if top.name == Some(name) {
                    (
                        DomModel {
                            open: if path.len() == 0 {
                                None
                            } else {
                                Some(path.drop_last())
                            },
                            ..dom
                        },
                        None,
                    )
                } else {
                    (dom, Some(IksError::BadXml))
                },
                None => (dom, Some(IksError::BadXml)),
            },
        },
    }
}

/// What character data does to the builder: it becomes the last child of the
/// innermost open element, unless it is blank or no element is open.
pub open spec fn dom_cdata(dom: DomModel, text: Seq<char>) -> DomModel {
    if dom.open is Some && !is_blank(text) {
        place(dom, cdata_model(text))
    } else {
        dom
    }
}

/// What an event does to the builder.
pub open spec fn dom_event(dom: DomModel, event: SaxEvent) -> (DomModel, Option<IksError>) {
    match event {
        SaxEvent::Tag { name, attributes, tag_type } => dom_tag(dom, name, attributes, tag_type),
        SaxEvent::CData { text } => (dom_cdata(dom, text), None),
    }
}

/// What a row of events does to the builder. It stops at the first event that
/// the builder refuses.
pub open spec fn dom_run(dom: DomModel, events: Seq<SaxEvent>) -> (DomModel, Option<IksError>)
    decreases events.len(),
{
    if events.len() == 0 {
        (dom, None)
    } else {
        let before = dom_run(dom, events.drop_last());
        if before.1 is Some {
            before
        } else {
            dom_event(before.0, events.last())
        }
    }
}

/// The tree that the document `input` stands for; `None` where the input is
/// malformed, ends inside a character or with an element still open, names in
/// a closing tag another element than the innermost open one, or holds no
/// element at all.
pub open spec fn document_of(input: Seq<u8>) -> Option<NodeModel> {
    let fed = run(initial_state(), input);
    let end = step_end(fed.0);
    let built = dom_run(empty_dom(), fed.1 + events_of(end));
    if end.0.state == State::Failed || built.1 is Some || built.0.open is Some {
        None
    } else {
        built.0.root
    }
}

impl SaxHandler for DomParser {
    open spec fn tag_step(
        &self,
        name: Seq<char>,
        attributes: Seq<AttrModel>,
        tag_type: TagType,
        post: &Self,
        refusal: Option<IksError>,
    ) -> bool {
        post@ == dom_tag(self@, name, attributes, tag_type).0 && refusal == dom_tag(
            self@,
            name,
            attributes,
            tag_type,
        ).1
    }

    open spec fn cdata_step(&self, data: Seq<char>, post: &Self, refusal: Option<IksError>) -> bool {
        post@ == dom_cdata(self@, data) && refusal is None
    }

    fn on_tag(&mut self, name: &str, attributes: &[(String, String)], tag_type: TagType) -> (reply:
        Result<(), IksError>) {
        match tag_type {
            TagType::Close => {
                if self.node_stack.len() == 0 {
                    return Ok(());
                }
                let named = match self.innermost() {
                    Some(top) => top.is_named(name),
                    None => false,
                };
                if !named {
                    return Err(IksError::BadXml);
                }
                let ghost path = places(self.node_stack@).skip(1);
                self.node_stack.pop();
                assert(self.node_stack@.len() > 0 ==> places(self.node_stack@).skip(1)
                    =~= path.drop_last());
                Ok(())
            },
            _ => {
                let mut node = IksNode::new_tag(name);
                let mut i: usize = 0;
                assert(pairs_model(attributes@).take(0) =~= Seq::empty());
                while i < attributes.len()
                    invariant
                        i <= attributes.len(),
                        node@ == tag_model(name@, pairs_model(attributes@).take(i as int)),
                    decreases attributes.len() - i,
                {
                    node.add_attribute(attributes[i].0.as_str(), attributes[i].1.as_str());
                    assert(pairs_model(attributes@).take(i + 1) =~= pairs_model(attributes@).take(
                        i as int,
                    ).push((attributes@[i as int].0@, attributes@[i as int].1@)));
                    i = i + 1;
                }
                assert(pairs_model(attributes@).take(i as int) =~= pairs_model(attributes@));
                if tag_type == TagType::Single {
                    self.place(node);
                } else if self.node_stack.len() == 0 {
                    self.place(node);
                    self.node_stack.push(0);
                    assert(places(self.node_stack@).skip(1) =~= Seq::<int>::empty());
                } else {
                    let count = match self.innermost() {
                        Some(top) => {
                            let children = top.children();
                            proof {
                                lemma_models_of(children@);
                            }
                            children.len()
                        },
                        None => {
                            return Err(IksError::BadXml);
                        },
                    };
                    let ghost path = places(self.node_stack@).skip(1);
                    self.place(node);
                    self.node_stack.push(count);
                    assert(places(self.node_stack@).skip(1) =~= path.push(count as int));
                }
                Ok(())
            },
        }
    }

    fn on_cdata(&mut self, data: &str) -> (reply: Result<(), IksError>) {
        if self.node_stack.len() > 0 && !blank_text(data) {
            let mut cdata = IksNode::new(IksType::CData);
            cdata.set_content(data);
            self.place(cdata);
        }
        Ok(())
    }
}

impl DomParser {
    /// A builder that has seen nothing.
    pub fn new() -> (made: Result<Self, IksError>)
        ensures
            made matches Ok(dom) && dom@ == empty_dom(),
    {
        Ok(DomParser { root: None, node_stack: Vec::new(), chunk_size: DEFAULT_IKS_CHUNK_SIZE })
    }

    /// Tells the builder how large the document is going to be, about. Only
    /// the size of the chunks that the builder works with comes of it, see
    /// [`chunk_size_for`]; the tree that is built does not depend on it.
    pub fn set_size_hint(&mut self, approx_size: usize)
        ensures
            final(self)@ == (DomModel { chunk_size: chunk_size_for(approx_size), ..old(self)@ }),
    {
        let tenth = approx_size / 10;
        self.chunk_size = if tenth > DEFAULT_IKS_CHUNK_SIZE {
            tenth
        } else {
            DEFAULT_IKS_CHUNK_SIZE
        };
    }

    /// The size of the chunks that the builder works with.
    pub fn chunk_size(&self) -> (size: usize)
        ensures
            size == self@.chunk_size,
    {
        self.chunk_size
    }

    /// The document: the element at the top level that was opened last, with
    /// all that has been added below it so far.
    pub fn document(&self) -> (root: Option<&IksNode>)
        ensures
            found(root) == self@.root,
    {
        match &self.root {
            Some(node) => Some(node),
            None => None,
        }
    }

    /// How many elements are open.
    pub fn depth(&self) -> (depth: usize)
        ensures
            depth == depth_of(self@),
    {
        self.node_stack.len()
    }

    /// The innermost open element.
    fn innermost(&self) -> (top: Option<&IksNode>)
        ensures
            found(top) == innermost(self@),
    {
        let open = self.node_stack.len();
        if open == 0 {
            return None;
        }
        let path = vstd::slice::slice_subrange(self.node_stack.as_slice(), 1, open);
        assert(places(path@) =~= places(self.node_stack@).skip(1));
        match &self.root {
            Some(root) => root.node_at(path),
            None => None,
        }
    }

    /// Reads a whole document and builds its tree.
    ///
    /// Fails with `BadXml` wherever [`document_of`] has no tree: where the
    /// input is malformed, ends inside a character or with an element still
    /// open, closes another element than the innermost open one, or holds no
    /// element.
    pub fn parse_str(xml: &str) -> (document: Result<IksNode, IksError>)
        ensures
            match document {
                Ok(root) => document_of(xml.spec_bytes()) == Some(root@) && well_formed(root@),
                Err(error) => error == IksError::BadXml && document_of(xml.spec_bytes()) is None,
            },
    {
        proof {
            lemma_document_well_formed(xml.spec_bytes());
        }
        let dom = DomParser { root: None, node_stack: Vec::new(), chunk_size: DEFAULT_IKS_CHUNK_SIZE };
        let ghost dom0 = dom;
        assert(dom0@ == empty_dom());
        let mut sax = Parser::new(dom);
        let input = xml.as_bytes();
        let ghost fed = run(initial_state(), input@);
        if input.len() > 0 {
            let result = sax.parse_bytes(input);
            proof {
                lemma_fed(dom0, input@, sax.tok(), sax.sink(), result);
            }
            if result.is_err() {
                return Err(IksError::BadXml);
            }
        }
        let ghost mid = sax.sink();
        let ghost end = step_end(fed.0);
        assert(dom_run(dom0@, fed.1) == (mid@, None::<IksError>)) by {
            if input@.len() == 0 {
                assert(fed.1 =~= Seq::<SaxEvent>::empty());
            }
        }
        let result = sax.parse_bytes(vstd::slice::slice_subrange(input, 0, 0));
        proof {
            let all = fed.1 + events_of(end);
            match end.1 {
                Some(event) => {
                    assert(all.drop_last() =~= fed.1);
                    assert(all.last() == event);
                },
                None => {
                    assert(all =~= fed.1);
                },
            }
        }
        if result.is_err() {
            return Err(IksError::BadXml);
        }
        let dom = sax.into_handler();
        if dom.node_stack.len() > 0 {
            return Err(IksError::BadXml);
        }
        match dom.root {
            Some(root) => Ok(root),
            None => Err(IksError::BadXml),
        }
    }

    /// Puts a new node in its place.
    fn place(&mut self, node: IksNode)
        ensures
            final(self)@ == place(old(self)@, node@),
            final(self).node_stack == old(self).node_stack,
    {
        if self.node_stack.len() == 0 {
            self.root = Some(node);
        } else {
            let mut root: Option<IksNode> = None;
            std::mem::swap(&mut self.root, &mut root);
            match root {
                Some(mut tree) => {
                    tree.attach_at(&self.node_stack, 1, node);
                    self.root = Some(tree);
                },
                None => {},
            }
        }
    }
}

/// A builder that took `events`, accepting each, is where [`dom_run`] says.
pub proof fn lemma_dom_delivers(pre: DomParser, events: Seq<SaxEvent>, post: DomParser)
    requires
        delivers(pre, events, post),
    ensures
        dom_run(pre@, events) == (post@, None::<IksError>),
    decreases events.len(),
{
    if events.len() > 0 {
        let mid = choose|mid: DomParser|
            delivers(pre, events.drop_last(), mid) && #[trigger] event_step(
                mid,
                events.last(),
                post,
                None,
            );
        lemma_dom_delivers(pre, events.drop_last(), mid);
    }
}

/// After a refusal the builder takes nothing more.
pub proof fn lemma_dom_run_refused(dom: DomModel, events: Seq<SaxEvent>, more: Seq<SaxEvent>)
    requires
        dom_run(dom, events).1 is Some,
    ensures
        dom_run(dom, events + more) == dom_run(dom, events),
    decreases more.len(),
{
    if more.len() == 0 {
        assert(events + more =~= events);
    } else {
        lemma_dom_run_refused(dom, events, more.drop_last());
        assert((events + more).drop_last() =~= events + more.drop_last());
    }
}

/// Where the builder refuses an event after it took those before, the whole
/// row of events ends in that refusal.
pub proof fn lemma_dom_refuses(
    pre: DomParser,
    head: Seq<SaxEvent>,
    mid: DomParser,
    event: SaxEvent,
    post: DomParser,
    refusal: Option<IksError>,
    more: Seq<SaxEvent>,
)
    requires
        delivers(pre, head, mid),
        event_step(mid, event, post, refusal),
        refusal is Some,
    ensures
        dom_run(pre@, head.push(event) + more).1 is Some,
{
    lemma_dom_delivers(pre, head, mid);
    assert(head.push(event).drop_last() =~= head);
    assert(dom_run(pre@, head.push(event)).1 is Some);
    lemma_dom_run_refused(pre@, head.push(event), more);
}

/// The events of a document up to and after the byte at `k`.
pub proof fn lemma_run_around(s: crate::sax::TokState, input: Seq<u8>, k: int)
    requires
        0 <= k < input.len(),
    ensures
        run(s, input).1 == run(s, input.take(k)).1 + events_of(
            step_byte(run(s, input.take(k)).0, input[k]),
        ) + run(step_byte(run(s, input.take(k)).0, input[k]).0, input.skip(k + 1)).1,
{
    lemma_run_split(s, input.take(k + 1), input.skip(k + 1));
    assert(input.take(k + 1) + input.skip(k + 1) =~= input);
    assert(input.take(k + 1).drop_last() =~= input.take(k));
    assert(input.take(k + 1).last() == input[k]);
}

/// What feeding a document that is not empty to a fresh tokenizer with a
/// fresh builder comes to: the builder has taken all events, or the result is
/// an error and the document has no tree.
pub proof fn lemma_fed(
    dom0: DomParser,
    input: Seq<u8>,
    post_tok: crate::sax::TokState,
    post: DomParser,
    result: Result<(), IksError>,
)
    requires
        input.len() > 0,
        dom0@ == empty_dom(),
        feed_post(initial_state(), dom0, input, post_tok, post, result),
    ensures
        result is Ok ==> {
            &&& post_tok == run(initial_state(), input).0
            &&& post_tok.state != State::Failed
            &&& dom_run(dom0@, run(initial_state(), input).1) == (post@, None::<IksError>)
        },
        result is Err ==> document_of(input) is None,
{
    let fed = run(initial_state(), input);
    let end = step_end(fed.0);
    if result is Ok {
        lemma_dom_delivers(dom0, fed.1, post);
    } else if fed.0.state == State::Failed && delivers(dom0, fed.1, post) {
    } else {
        let (k, mid) = choose|k: int, mid: DomParser| #[trigger]
            refused_at(initial_state(), dom0, input, k, mid, post_tok, post, result);
        let head = run(initial_state(), input.take(k));
        let step = step_byte(head.0, input[k]);
        let rest = run(step.0, input.skip(k + 1)).1;
        lemma_run_around(initial_state(), input, k);
        lemma_dom_refuses(
            dom0,
            head.1,
            mid,
            step.1->0,
            post,
            refusal_of(result),
            rest + events_of(end),
        );
        assert(head.1.push(step.1->0) + (rest + events_of(end)) =~= fed.1 + events_of(end));
    }
}

/// The builder has an innermost open element, or none is open.
pub open spec fn sound(dom: DomModel) -> bool {
    dom.open is Some ==> innermost(dom) is Some
}

/// A tag that opens or closes itself while an element is open becomes the
/// last child of that element at once. After an opening tag it is the
/// innermost open element; after a self-closing tag the open elements are
/// those that were.
pub proof fn lemma_tag_attaches(
    dom: DomModel,
    name: Seq<char>,
    attributes: Seq<AttrModel>,
    tag_type: TagType,
)
    requires
        dom.open is Some,
        innermost(dom) is Some,
        tag_type != TagType::Close,
    ensures
        ({
            let after = dom_tag(dom, name, attributes, tag_type);
            let top = innermost(dom)->0;
            let tag = tag_model(name, attributes);
            &&& after.1 is None
            &&& after.0.root is Some
            &&& descend(after.0.root->0, dom.open->0) == Some(with_child(top, tag))
            &&& tag_type == TagType::Open ==> innermost(after.0) == Some(tag) && depth_of(after.0)
                == depth_of(dom) + 1
            &&& tag_type == TagType::Single ==> after.0.open == dom.open
        }),
{
    let root = dom.root->0;
    let path = dom.open->0;
    let top = innermost(dom)->0;
    let tag = tag_model(name, attributes);
    lemma_attached_is_put(root, path, tag);
    lemma_descend_put(root, path, with_child(top, tag));
    lemma_put_push(attached(root, path, tag), path, top.children.len() as int, tag);
}

/// A tag that comes while no element is open becomes the document, with
/// nothing below it.
pub proof fn lemma_tag_is_document(
    dom: DomModel,
    name: Seq<char>,
    attributes: Seq<AttrModel>,
    tag_type: TagType,
)
    requires
        dom.open is None,
        tag_type != TagType::Close,
    ensures
        dom_tag(dom, name, attributes, tag_type).1 is None,
        dom_tag(dom, name, attributes, tag_type).0.root == Some(tag_model(name, attributes)),
        depth_of(dom_tag(dom, name, attributes, tag_type).0) == if tag_type == TagType::Open {
            1nat
        } else {
            0nat
        },
{
}

/// Character data that is not blank and comes while an element is open
/// becomes the last child of that element, as it was written.
pub proof fn lemma_cdata_attaches(dom: DomModel, text: Seq<char>)
    requires
        dom.open is Some,
        innermost(dom) is Some,
        !is_blank(text),
    ensures
        dom_cdata(dom, text).root is Some,
        innermost(dom_cdata(dom, text)) == Some(with_child(innermost(dom)->0, cdata_model(text))),
        dom_cdata(dom, text).open == dom.open,
{
    let root = dom.root->0;
    let path = dom.open->0;
    lemma_attached_is_put(root, path, cdata_model(text));
    lemma_descend_put(root, path, with_child(innermost(dom)->0, cdata_model(text)));
}

/// Every node along the path is a tag.
pub open spec fn open_path(node: NodeModel, path: Seq<int>) -> bool
    decreases path.len(),
{
    &&& node.node_type == IksType::Tag
    &&& path.len() > 0 ==> 0 <= path[0] < node.children.len() && open_path(
        node.children[path[0]],
        path.skip(1),
    )
}

/// The document is a well-formed tag, and the open elements are tags along a
/// path in it.
pub open spec fn dom_well_formed(dom: DomModel) -> bool {
    &&& dom.root matches Some(root) ==> well_formed(root) && root.node_type == IksType::Tag
    &&& dom.open matches Some(path) ==> dom.root is Some && open_path(dom.root->0, path)
}

/// A well-formed node added under an open element leaves the tree well
/// formed and the path a path of tags; a tag that was added may be the next
/// open element.
pub proof fn lemma_attached_well_formed(root: NodeModel, path: Seq<int>, child: NodeModel)
    requires
        well_formed(root),
        open_path(root, path),
        well_formed(child),
    ensures
        descend(root, path) is Some,
        well_formed(attached(root, path, child)),
        open_path(attached(root, path, child), path),
        child.node_type == IksType::Tag ==> open_path(
            attached(root, path, child),
            path.push(descend(root, path)->0.children.len() as int),
        ),
    decreases path.len(),
{
    let after = attached(root, path, child);
    let longer = path.push(descend(root, path)->0.children.len() as int);
    lemma_all_well_formed(root.children);
    lemma_all_well_formed(after.children);
    if path.len() == 0 {
        assert(longer.skip(1) =~= Seq::<int>::empty());
        assert(longer[0] == root.children.len());
        if child.node_type == IksType::Tag {
            assert(after.children[longer[0]] == child);
            assert(open_path(child, longer.skip(1)));
            assert(open_path(after, longer));
        }
    } else {
        lemma_attached_well_formed(root.children[path[0]], path.skip(1), child);
        assert(longer.skip(1) =~= path.skip(1).push(
            descend(root, path)->0.children.len() as int,
        ));
        assert(longer[0] == path[0]);
        if child.node_type == IksType::Tag {
            assert(after.children[longer[0]] == attached(
                root.children[path[0]],
                path.skip(1),
                child,
            ));
            assert(open_path(after.children[longer[0]], longer.skip(1)));
            assert(open_path(after, longer));
        }
    }
}

/// A path of tags, one step shorter, is a path of tags.
pub proof fn lemma_open_path_shorter(root: NodeModel, path: Seq<int>)
    requires
        open_path(root, path),
        path.len() > 0,
    ensures
        open_path(root, path.drop_last()),
    decreases path.len(),
{
    if path.len() > 1 {
        lemma_open_path_shorter(root.children[path[0]], path.skip(1));
        assert(path.drop_last().skip(1) =~= path.skip(1).drop_last());
        assert(path.drop_last()[0] == path[0]);
    }
}

/// No event takes the builder out of being well formed.
pub proof fn lemma_dom_event_well_formed(dom: DomModel, event: SaxEvent)
    requires
        dom_well_formed(dom),
    ensures
        dom_well_formed(dom_event(dom, event).0),
{
    match event {
        SaxEvent::Tag { name, attributes, tag_type } => {
            let node = tag_model(name, attributes);
            assert(well_formed(node));
            match dom.open {
                Some(path) => {
                    lemma_attached_well_formed(dom.root->0, path, node);
                    if path.len() > 0 {
                        lemma_open_path_shorter(dom.root->0, path);
                    }
                },
                None => {},
            }
        },
        SaxEvent::CData { text } => {
            match dom.open {
                Some(path) => {
                    assert(well_formed(cdata_model(text)));
                    lemma_attached_well_formed(dom.root->0, path, cdata_model(text));
                },
                None => {},
            }
        },
    }
}

/// No row of events takes the builder out of being well formed.
pub proof fn lemma_dom_run_well_formed(dom: DomModel, events: Seq<SaxEvent>)
    requires
        dom_well_formed(dom),
    ensures
        dom_well_formed(dom_run(dom, events).0),
    decreases events.len(),
{
    if events.len() > 0 {
        lemma_dom_run_well_formed(dom, events.drop_last());
        let before = dom_run(dom, events.drop_last());
        if before.1 is None {
            lemma_dom_event_well_formed(before.0, events.last());
        }
    }
}

/// The tree of a document is a tag, and nowhere in it has character data
/// children.
pub proof fn lemma_document_well_formed(input: Seq<u8>)
    ensures
        document_of(input) matches Some(root) ==> well_formed(root) && root.node_type
            == IksType::Tag,
{
    let fed = run(initial_state(), input);
    lemma_dom_run_well_formed(empty_dom(), fed.1 + events_of(step_end(fed.0)));
}

} // verus!
