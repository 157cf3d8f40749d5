//! The tree: nodes that own their children, how to look through them, and how
//! to write them out as markup.

use vstd::prelude::*;
use vstd::string::StringExecFns;
use crate::parser::pairs_model;
use crate::sax::AttrModel;
use crate::text::{chars_of, push_char, same_text};
use crate::utility::{escape, escaped};

verus! {

/// What a node is.
#[derive(Debug, Clone, Copy, PartialEq, Eq, Structural)]
pub enum IksType {
    /// A placeholder of no kind.
    Untyped,
    /// An element.
    Tag,
    /// An attribute.
    Attribute,
    /// Character data.
    CData,
}

/// A node and all that is below it, as mathematics.
pub struct NodeModel {
    pub node_type: IksType,
    pub name: Option<Seq<char>>,
    pub content: Option<Seq<char>>,
    /// In the order they were added. A name may occur more than once.
    pub attributes: Seq<AttrModel>,
    /// In document order.
    pub children: Seq<NodeModel>,
}

/// A node of the tree. It owns its children, and with them all that is below
/// it: a node is let go together with its parent.
///
/// The links that lead backwards, from a node to its parent and to the sibling
/// before it, own nothing and are not stored. They are looked up from a node
/// above by the path that leads down to the node, see [`IksNode::parent`].
#[derive(Debug)]
pub struct IksNode {
    node_type: IksType,
    name: Option<String>,
    content: Option<String>,
    attributes: Vec<(String, String)>,
    children: Vec<IksNode>,
}

/// The text of an optional string.
pub open spec fn text_model(text: Option<String>) -> Option<Seq<char>> {
    match text {
        Some(s) => Some(s@),
        None => None,
    }
}

/// The model of one node.
pub closed spec fn model_of(node: IksNode) -> NodeModel
    decreases node,
{
    NodeModel {
        node_type: node.node_type,
        name: text_model(node.name),
        content: text_model(node.content),
        attributes: pairs_model(node.attributes@),
        children: models_of(node.children@),
    }
}

/// The models of nodes in a row.
pub open spec fn models_of(nodes: Seq<IksNode>) -> Seq<NodeModel>
    decreases nodes,
{
    if nodes.len() == 0 {
        Seq::empty()
    } else {
        models_of(nodes.drop_last()).push(model_of(nodes.last()))
    }
}

/// The models of nodes in a row are the models of each, in the same order.
pub proof fn lemma_models_of(nodes: Seq<IksNode>)
    ensures
        models_of(nodes).len() == nodes.len(),
        forall|i: int| 0 <= i < nodes.len() ==> #[trigger] models_of(nodes)[i] == model_of(nodes[i]),
    decreases nodes.len(),
{
    if nodes.len() > 0 {
        lemma_models_of(nodes.drop_last());
    }
}

impl View for IksNode {
    type V = NodeModel;

    open spec fn view(&self) -> NodeModel {
        model_of(*self)
    }
}

/// A tag named `name` with the attributes `attributes` and nothing in it.
pub open spec fn tag_model(name: Seq<char>, attributes: Seq<AttrModel>) -> NodeModel {
    NodeModel {
        node_type: IksType::Tag,
        name: Some(name),
        content: None,
        attributes,
        children: Seq::empty(),
    }
}

/// Character data that reads `text`.
pub open spec fn cdata_model(text: Seq<char>) -> NodeModel {
    NodeModel {
        node_type: IksType::CData,
        name: None,
        content: Some(text),
        attributes: Seq::empty(),
        children: Seq::empty(),
    }
}

/// The node with one more child at the end.
pub open spec fn with_child(node: NodeModel, child: NodeModel) -> NodeModel {
    NodeModel { children: node.children.push(child), ..node }
}

/// Character data has no children, here and everywhere below.
pub open spec fn well_formed(node: NodeModel) -> bool
    decreases node,
{
    &&& node.node_type == IksType::CData ==> node.children.len() == 0
    &&& all_well_formed(node.children)
}

/// Every node of the row is well formed.
pub open spec fn all_well_formed(nodes: Seq<NodeModel>) -> bool
    decreases nodes,
{
    nodes.len() > 0 ==> all_well_formed(nodes.drop_last()) && well_formed(nodes.last())
}

/// A row is well formed where each of its nodes is.
pub proof fn lemma_all_well_formed(nodes: Seq<NodeModel>)
    ensures
        all_well_formed(nodes) <==> forall|i: int|
            0 <= i < nodes.len() ==> well_formed(#[trigger] nodes[i]),
    decreases nodes.len(),
{
    if nodes.len() > 0 {
        lemma_all_well_formed(nodes.drop_last());
        if all_well_formed(nodes) {
            assert forall|i: int| 0 <= i < nodes.len() implies well_formed(
                #[trigger] nodes[i],
            ) by {
                if i < nodes.len() - 1 {
                    assert(nodes.drop_last()[i] == nodes[i]);
                }
            }
        }
        if forall|i: int| 0 <= i < nodes.len() ==> well_formed(#[trigger] nodes[i]) {
            assert forall|i: int| 0 <= i < nodes.drop_last().len() implies well_formed(
                #[trigger] nodes.drop_last()[i],
            ) by {
                assert(nodes.drop_last()[i] == nodes[i]);
            }
            assert(well_formed(nodes[nodes.len() - 1]));
        }
    }
}

/// What `c` becomes in character data that is written out.
pub open spec fn escape_text_char(c: char) -> Seq<char> {
    if c == '&' {
        seq!['&', 'a', 'm', 'p', ';']
    } else if c == '<' {
        seq!['&', 'l', 't', ';']
    } else if c == '>' {
        seq!['&', 'g', 't', ';']
    } else {
        seq![c]
    }
}

/// Character data as it is written out: `&`, `<` and `>` as entities.
pub open spec fn escaped_text(s: Seq<char>) -> Seq<char>
    decreases s.len(),
{
    if s.len() == 0 {
        Seq::empty()
    } else {
        escaped_text(s.drop_last()) + escape_text_char(s.last())
    }
}

/// Optional text; none counts as empty.
pub open spec fn text_or_empty(text: Option<Seq<char>>) -> Seq<char> {
    match text {
        Some(s) => s,
        None => Seq::empty(),
    }
}

/// The attributes as they stand in a tag: each after a blank, its value
/// escaped and between double quotes.
pub open spec fn attributes_markup(attributes: Seq<AttrModel>) -> Seq<char>
    decreases attributes.len(),
{
    if attributes.len() == 0 {
        Seq::empty()
    } else {
        attributes_markup(attributes.drop_last()) + seq![' '] + attributes.last().0 + seq![
            '=',
            '"',
        ] + escaped(attributes.last().1) + seq!['"']
    }
}

/// The node as markup. A tag with neither content nor children closes itself;
/// any other tag holds its content, then its children. Character data is its
/// escaped content. A node of another kind is nothing.
pub open spec fn markup(node: NodeModel) -> Seq<char>
    decreases node,
{
    match node.node_type {
        IksType::Tag => {
            let head = seq!['<'] + text_or_empty(node.name) + attributes_markup(node.attributes);
            if node.children.len() == 0 && node.content is None {
                head + seq!['/', '>']
            } else {
                head + seq!['>'] + escaped_text(text_or_empty(node.content)) + markup_all(
                    node.children,
                ) + seq!['<', '/'] + text_or_empty(node.name) + seq!['>']
            }
        },
        IksType::CData => escaped_text(text_or_empty(node.content)),
        _ => Seq::empty(),
    }
}

/// The nodes of a row as markup, one after the other.
pub open spec fn markup_all(nodes: Seq<NodeModel>) -> Seq<char>
    decreases nodes,
{
    if nodes.len() == 0 {
        Seq::empty()
    } else {
        markup_all(nodes.drop_last()) + markup(nodes.last())
    }
}

/// Whether the node is a tag named `name`.
pub open spec fn is_tag_named(node: NodeModel, name: Seq<char>) -> bool {
    node.node_type == IksType::Tag && node.name == Some(name)
}

/// The value of the first attribute named `name`.
pub open spec fn attribute_of(attributes: Seq<AttrModel>, name: Seq<char>) -> Option<Seq<char>>
    decreases attributes.len(),
{
    if attributes.len() == 0 {
        None
    } else if attributes[0].0 == name {
        Some(attributes[0].1)
    } else {
        attribute_of(attributes.skip(1), name)
    }
}

/// What is looked for among the children of a node.
pub enum Wanted {
    /// Any tag.
    AnyTag,
    /// Any character data.
    AnyCData,
    /// A tag of this name.
    TagNamed(Seq<char>),
    /// A tag, of the name given where one is given, whose attribute of the
    /// second name reads the third.
    TagWith(Option<Seq<char>>, Seq<char>, Seq<char>),
}

/// Whether `node` is what is looked for.
pub open spec fn is_wanted(wanted: Wanted, node: NodeModel) -> bool {
    match wanted {
        Wanted::AnyTag => node.node_type == IksType::Tag,
        Wanted::AnyCData => node.node_type == IksType::CData,
        Wanted::TagNamed(name) => is_tag_named(node, name),
        Wanted::TagWith(tag_name, attr_name, value) => {
            &&& node.node_type == IksType::Tag
            &&& tag_name matches Some(name) ==> node.name == Some(name)
            &&& attribute_of(node.attributes, attr_name) == Some(value)
        },
    }
}

/// The place of the first node of the row that is wanted; the length of the
/// row where none is.
pub open spec fn first_index(nodes: Seq<NodeModel>, wanted: Wanted) -> int
    decreases nodes.len(),
{
    if nodes.len() == 0 {
        0
    } else if is_wanted(wanted, nodes[0]) {
        0
    } else {
        1 + first_index(nodes.skip(1), wanted)
    }
}

/// [`first_index`] is the place of the first node that is wanted.
pub proof fn lemma_first_index(nodes: Seq<NodeModel>, wanted: Wanted)
    ensures
        0 <= first_index(nodes, wanted) <= nodes.len(),
        first_index(nodes, wanted) < nodes.len() ==> is_wanted(
            wanted,
            nodes[first_index(nodes, wanted)],
        ),
        forall|i: int| 0 <= i < first_index(nodes, wanted) ==> !is_wanted(wanted, #[trigger] nodes[i]),
    decreases nodes.len(),
{
    if nodes.len() > 0 && !is_wanted(wanted, nodes[0]) {
        lemma_first_index(nodes.skip(1), wanted);
        assert forall|i: int| 0 <= i < first_index(nodes, wanted) implies !is_wanted(
            wanted,
            #[trigger] nodes[i],
        ) by {
            if i > 0 {
                assert(nodes.skip(1)[i - 1] == nodes[i]);
            }
        }
    }
}

/// The node at `place` of the row, if the row is that long.
pub open spec fn node_at_place(nodes: Seq<NodeModel>, place: int) -> Option<NodeModel> {
    if 0 <= place < nodes.len() {
        Some(nodes[place])
    } else {
        None
    }
}

/// The first child of `node` that is wanted.
pub open spec fn first_child(node: NodeModel, wanted: Wanted) -> Option<NodeModel> {
    node_at_place(node.children, first_index(node.children, wanted))
}

/// The model of an optional node.
pub open spec fn found(node: Option<&IksNode>) -> Option<NodeModel> {
    match node {
        Some(n) => Some(n@),
        None => None,
    }
}

/// The text of an optional piece of text.
pub open spec fn found_text(text: Option<&str>) -> Option<Seq<char>> {
    match text {
        Some(s) => Some(s@),
        None => None,
    }
}

/// A path as the places it names.
pub open spec fn places(path: Seq<usize>) -> Seq<int> {
    path.map_values(|place: usize| place as int)
}

/// The node that `path` leads to from `node`: each step of the path is the
/// place of a child.
pub open spec fn descend(node: NodeModel, path: Seq<int>) -> Option<NodeModel>
    decreases path.len(),
{
    if path.len() == 0 {
        Some(node)
    } else if 0 <= path[0] < node.children.len() {
        descend(node.children[path[0]], path.skip(1))
    } else {
        None
    }
}

/// The tree with `child` after the children of the node that `path` leads
/// to; the tree as it is where the path leads nowhere.
pub open spec fn attached(node: NodeModel, path: Seq<int>, child: NodeModel) -> NodeModel
    decreases path.len(),
{
    if path.len() == 0 {
        with_child(node, child)
    } else if 0 <= path[0] < node.children.len() {
        NodeModel {
            children: node.children.update(
                path[0],
                attached(node.children[path[0]], path.skip(1), child),
            ),
            ..node
        }
    } else {
        node
    }
}

/// The parent of the node that `path` leads to: the node one step up, if the
/// last step of the path is the place of one of its children.
pub open spec fn parent_of(node: NodeModel, path: Seq<int>) -> Option<NodeModel> {
    if path.len() == 0 {
        None
    } else {
        match descend(node, path.drop_last()) {
            Some(parent) => if 0 <= path.last() < parent.children.len() {
                Some(parent)
            } else {
                None
            },
            None => None,
        }
    }
}

/// The sibling next after the node that `path` leads to.
pub open spec fn next_of(node: NodeModel, path: Seq<int>) -> Option<NodeModel> {
    match parent_of(node, path) {
        Some(parent) => node_at_place(parent.children, path.last() + 1),
        None => None,
    }
}

/// The sibling just before the node that `path` leads to.
pub open spec fn prev_of(node: NodeModel, path: Seq<int>) -> Option<NodeModel> {
    match parent_of(node, path) {
        Some(parent) => node_at_place(parent.children, path.last() - 1),
        None => None,
    }
}

/// The first tag among the siblings after the node that `path` leads to.
pub open spec fn next_tag_of(node: NodeModel, path: Seq<int>) -> Option<NodeModel> {
    match parent_of(node, path) {
        Some(parent) => {
            let later = parent.children.skip(path.last() + 1);
            node_at_place(later, first_index(later, Wanted::AnyTag))
        },
        None => None,
    }
}

/// The tree with `new` in place of the node that `path` leads to; the tree
/// as it is where the path leads nowhere.
pub open spec fn put(node: NodeModel, path: Seq<int>, new: NodeModel) -> NodeModel
    decreases path.len(),
{
    if path.len() == 0 {
        new
    } else if 0 <= path[0] < node.children.len() {
        NodeModel {
            children: node.children.update(path[0], put(node.children[path[0]], path.skip(1), new)),
            ..node
        }
    } else {
        node
    }
}

/// To add a child under a node is to put the node with that child in its
/// place.
pub proof fn lemma_attached_is_put(root: NodeModel, path: Seq<int>, child: NodeModel)
    requires
        descend(root, path) is Some,
    ensures
        attached(root, path, child) == put(root, path, with_child(descend(root, path)->0, child)),
    decreases path.len(),
{
    if path.len() > 0 {
        lemma_attached_is_put(root.children[path[0]], path.skip(1), child);
    }
}

/// What was put at a path is what the path leads to.
pub proof fn lemma_descend_put(root: NodeModel, path: Seq<int>, new: NodeModel)
    requires
        descend(root, path) is Some,
    ensures
        descend(put(root, path, new), path) == Some(new),
    decreases path.len(),
{
    if path.len() > 0 {
        lemma_descend_put(root.children[path[0]], path.skip(1), new);
    }
}

/// Of two nodes put at the same path, the second stays.
pub proof fn lemma_put_put(root: NodeModel, path: Seq<int>, first: NodeModel, second: NodeModel)
    requires
        descend(root, path) is Some,
    ensures
        put(put(root, path, first), path, second) == put(root, path, second),
    decreases path.len(),
{
    if path.len() > 0 {
        lemma_put_put(root.children[path[0]], path.skip(1), first, second);
        assert(put(put(root, path, first), path, second).children =~= put(
            root,
            path,
            second,
        ).children);
    }
}

/// One step further down: the path with one more place leads to the child at
/// that place, and to put a node there is to put its parent with that child
/// replaced.
pub proof fn lemma_put_push(root: NodeModel, path: Seq<int>, place: int, new: NodeModel)
    requires
        descend(root, path) is Some,
        0 <= place < descend(root, path)->0.children.len(),
    ensures
        descend(root, path.push(place)) == Some(descend(root, path)->0.children[place]),
        put(root, path.push(place), new) == put(
            root,
            path,
            NodeModel {
                children: descend(root, path)->0.children.update(place, new),
                ..descend(root, path)->0
            },
        ),
    decreases path.len(),
{
    let longer = path.push(place);
    if path.len() == 0 {
        assert(longer.skip(1) =~= Seq::<int>::empty());
        assert(longer[0] == place);
        assert(put(root.children[place], longer.skip(1), new) == new);
        assert(descend(root.children[place], longer.skip(1)) == Some(root.children[place]));
    } else {
        assert(longer.skip(1) =~= path.skip(1).push(place));
        assert(longer[0] == path[0]);
        lemma_put_push(root.children[path[0]], path.skip(1), place, new);
        let child = root.children[path[0]];
        let top = descend(root, path)->0;
        assert(put(child, longer.skip(1), new) == put(
            child,
            path.skip(1),
            NodeModel { children: top.children.update(place, new), ..top },
        ));
    }
}

/// To put at a path what the path leads to changes nothing.
pub proof fn lemma_put_same(root: NodeModel, path: Seq<int>)
    requires
        descend(root, path) is Some,
    ensures
        put(root, path, descend(root, path)->0) == root,
    decreases path.len(),
{
    if path.len() > 0 {
        lemma_put_same(root.children[path[0]], path.skip(1));
        assert(put(root, path, descend(root, path)->0).children =~= root.children);
    }
}

/// The models of a row in which one node was replaced.
pub proof fn lemma_models_update(nodes: Seq<IksNode>, place: int, node: IksNode)
    requires
        0 <= place < nodes.len(),
    ensures
        models_of(nodes.update(place, node)) == models_of(nodes).update(place, model_of(node)),
{
    lemma_models_of(nodes);
    lemma_models_of(nodes.update(place, node));
    assert(models_of(nodes.update(place, node)) =~= models_of(nodes).update(
        place,
        model_of(node),
    ));
}

/// What is looked for, as the executable code holds it.
enum Query<'a> {
    AnyTag,
    AnyCData,
    TagNamed(&'a str),
    TagWith(Option<&'a str>, &'a str, &'a str),
}

impl<'a> Query<'a> {
    spec fn wanted(self) -> Wanted {
        match self {
            Query::AnyTag => Wanted::AnyTag,
            Query::AnyCData => Wanted::AnyCData,
            Query::TagNamed(name) => Wanted::TagNamed(name@),
            Query::TagWith(tag_name, attr_name, value) => Wanted::TagWith(
                found_text(tag_name),
                attr_name@,
                value@,
            ),
        }
    }
}

impl IksNode {
    /// A node of the kind `node_type` with nothing in it.
    pub fn new(node_type: IksType) -> (node: Self)
        ensures
            node@ == (NodeModel {
                node_type,
                name: None,
                content: None,
                attributes: Seq::empty(),
                children: Seq::empty(),
            }),
            well_formed(node@),
    {
        let node = IksNode {
            node_type,
            name: None,
            content: None,
            attributes: Vec::new(),
            children: Vec::new(),
        };
        assert(pairs_model(node.attributes@) =~= Seq::empty());
        node
    }

    /// A tag named `name` with nothing in it.
    pub fn new_tag(name: &str) -> (node: Self)
        ensures
            node@ == tag_model(name@, Seq::empty()),
            well_formed(node@),
    {
        let node = IksNode {
            node_type: IksType::Tag,
            name: Some(name.to_owned()),
            content: None,
            attributes: Vec::new(),
            children: Vec::new(),
        };
        assert(pairs_model(node.attributes@) =~= Seq::empty());
        node
    }

    /// What the node is.
    pub fn node_type(&self) -> (node_type: IksType)
        ensures
            node_type == self@.node_type,
    {
        self.node_type
    }

    /// The name of the node, if it has one.
    pub fn name(&self) -> (name: Option<&str>)
        ensures
            found_text(name) == self@.name,
    {
        match &self.name {
            Some(name) => Some(name.as_str()),
            None => None,
        }
    }

    /// The content of the node, if it has any.
    pub fn content(&self) -> (content: Option<&str>)
        ensures
            found_text(content) == self@.content,
    {
        match &self.content {
            Some(content) => Some(content.as_str()),
            None => None,
        }
    }

    /// The attributes in the order they were added.
    pub fn attributes(&self) -> (attributes: &Vec<(String, String)>)
        ensures
            pairs_model(attributes@) == self@.attributes,
    {
        &self.attributes
    }

    /// The children in document order.
    pub fn children(&self) -> (children: &Vec<IksNode>)
        ensures
            models_of(children@) == self@.children,
    {
        &self.children
    }

    /// Whether the node has a child.
    pub fn has_children(&self) -> (any: bool)
        ensures
            any == (self@.children.len() > 0),
    {
        proof {
            lemma_models_of(self.children@);
        }
        self.children.len() > 0
    }

    /// Whether the node has an attribute.
    pub fn has_attributes(&self) -> (any: bool)
        ensures
            any == (self@.attributes.len() > 0),
    {
        self.attributes.len() > 0
    }

    /// Adds an attribute after those that the node has. A name that is there
    /// already stays, and stays the one that is found.
    pub fn add_attribute(&mut self, name: &str, value: &str)
        ensures
            final(self)@ == (NodeModel {
                attributes: old(self)@.attributes.push((name@, value@)),
                ..old(self)@
            }),
    {
        self.attributes.push((name.to_owned(), value.to_owned()));
        assert(pairs_model(self.attributes@) =~= pairs_model(old(self).attributes@).push(
            (name@, value@),
        ));
    }

    /// Gives the node the content `content` in place of what it had.
    pub fn set_content(&mut self, content: &str)
        ensures
            final(self)@ == (NodeModel { content: Some(content@), ..old(self)@ }),
    {
        self.content = Some(content.to_owned());
    }

    /// Adds `child` after the children that the node has.
    pub(crate) fn attach(&mut self, child: IksNode)
        ensures
            final(self)@ == with_child(old(self)@, child@),
    {
        self.children.push(child);
        assert(self.children@.drop_last() =~= old(self).children@);
    }

    /// Adds `child`, with all that is below it, after the children that the
    /// node has, and tells its place among them. Character data takes no
    /// children: it stays as it is, and the answer is `None`.
    pub fn add_child(&mut self, child: IksNode) -> (place: Option<usize>)
        ensures
            old(self)@.node_type == IksType::CData ==> place is None && final(self)@ == old(self)@,
            old(self)@.node_type != IksType::CData ==> place == Some(
                old(self)@.children.len() as usize,
            ) && final(self)@ == with_child(old(self)@, child@),
            well_formed(old(self)@) && well_formed(child@) ==> well_formed(final(self)@),
    {
        if self.node_type == IksType::CData {
            None
        } else {
            proof {
                lemma_models_of(self.children@);
            }
            let place = self.children.len();
            self.attach(child);
            assert(self@.children.drop_last() =~= old(self)@.children);
            Some(place)
        }
    }

    /// Adds character data that reads `data` after the children that the node
    /// has, and tells its place among them. Character data takes no children:
    /// it stays as it is, and the answer is `None`.
    pub fn insert_cdata(&mut self, data: &str) -> (place: Option<usize>)
        ensures
            old(self)@.node_type == IksType::CData ==> place is None && final(self)@ == old(self)@,
            old(self)@.node_type != IksType::CData ==> place == Some(
                old(self)@.children.len() as usize,
            ) && final(self)@ == with_child(old(self)@, cdata_model(data@)),
            well_formed(old(self)@) ==> well_formed(final(self)@),
    {
        let mut cdata = IksNode::new(IksType::CData);
        cdata.set_content(data);
        self.add_child(cdata)
    }

    /// A tag named `name` that stands alone. It is meant as a sibling of this
    /// node; it is in no tree until it is added to a parent.
    pub fn insert_sibling(&self, name: &str) -> (node: IksNode)
        ensures
            node@ == tag_model(name@, Seq::empty()),
            well_formed(node@),
    {
        IksNode::new_tag(name)
    }

    /// A tag named `name` that stands alone. It is meant to go before this
    /// node; it is in no tree until it is added to a parent.
    pub fn insert_before(&self, name: &str) -> (node: IksNode)
        ensures
            node@ == tag_model(name@, Seq::empty()),
            well_formed(node@),
    {
        IksNode::new_tag(name)
    }

    /// The value of the first attribute named `name`.
    pub fn find_attrib(&self, name: &str) -> (value: Option<&str>)
        ensures
            found_text(value) == attribute_of(self@.attributes, name@),
    {
        let ghost all = pairs_model(self.attributes@);
        let mut i: usize = 0;
        assert(all.skip(0) =~= all);
        while i < self.attributes.len()
            invariant
                i <= self.attributes.len(),
                all == pairs_model(self.attributes@),
                attribute_of(all, name@) == attribute_of(all.skip(i as int), name@),
            decreases self.attributes.len() - i,
        {
            assert(all.skip(i as int)[0] == all[i as int]);
            assert(all.skip(i as int).skip(1) =~= all.skip(i + 1));
            if same_text(self.attributes[i].0.as_str(), name) {
                return Some(self.attributes[i].1.as_str());
            }
            i = i + 1;
        }
        None
    }

    /// Whether this node is what is looked for.
    fn answers(&self, query: &Query) -> (yes: bool)
        ensures
            yes == is_wanted(query.wanted(), self@),
    {
        match query {
            Query::AnyTag => self.node_type == IksType::Tag,
            Query::AnyCData => self.node_type == IksType::CData,
            Query::TagNamed(name) => self.node_type == IksType::Tag && self.is_named(name),
            Query::TagWith(tag_name, attr_name, value) => {
                if self.node_type != IksType::Tag {
                    return false;
                }
                let named = match tag_name {
                    Some(name) => self.is_named(name),
                    None => true,
                };
                if !named {
                    return false;
                }
                match self.find_attrib(attr_name) {
                    Some(found) => same_text(found, value),
                    None => false,
                }
            },
        }
    }

    /// Whether the node has the name `name`.
    pub(crate) fn is_named(&self, name: &str) -> (yes: bool)
        ensures
            yes == (self@.name == Some(name@)),
    {
        match &self.name {
            Some(own) => same_text(own.as_str(), name),
            None => false,
        }
    }

    /// The place of the first child at or after `from` that is looked for; the
    /// number of children where there is none.
    fn search(&self, query: &Query, from: usize) -> (place: usize)
        requires
            from <= self@.children.len(),
        ensures
            place == from + first_index(self@.children.skip(from as int), query.wanted()),
            from <= place <= self@.children.len(),
            place == self.children@.len() || self.children@[place as int]@ == self@.children[place as int],
            self.children@.len() == self@.children.len(),
    {
        proof {
            lemma_models_of(self.children@);
        }
        let ghost all = self@.children;
        let mut i: usize = from;
        while i < self.children.len()
            invariant
                from <= i <= self.children.len(),
                all == self@.children,
                all.len() == self.children@.len(),
                forall|k: int| 0 <= k < all.len() ==> #[trigger] all[k] == self.children@[k]@,
                from + first_index(all.skip(from as int), query.wanted()) == i + first_index(
                    all.skip(i as int),
                    query.wanted(),
                ),
            decreases self.children.len() - i,
        {
            assert(all.skip(i as int)[0] == all[i as int]);
            assert(all.skip(i as int).skip(1) =~= all.skip(i + 1));
            if self.children[i].answers(query) {
                return i;
            }
            i = i + 1;
        }
        i
    }

    /// The child at `place`, if there is one.
    fn child(&self, place: usize) -> (child: Option<&IksNode>)
        ensures
            found(child) == node_at_place(self@.children, place as int),
    {
        proof {
            lemma_models_of(self.children@);
        }
        if place < self.children.len() {
            Some(&self.children[place])
        } else {
            None
        }
    }

    /// The first child that is a tag named `name`.
    pub fn find(&self, name: &str) -> (child: Option<&IksNode>)
        ensures
            found(child) == first_child(self@, Wanted::TagNamed(name@)),
    {
        assert(self@.children.skip(0) =~= self@.children);
        let place = self.search(&Query::TagNamed(name), 0);
        self.child(place)
    }

    /// The first child that is a tag.
    pub fn first_tag(&self) -> (child: Option<&IksNode>)
        ensures
            found(child) == first_child(self@, Wanted::AnyTag),
    {
        assert(self@.children.skip(0) =~= self@.children);
        let place = self.search(&Query::AnyTag, 0);
        self.child(place)
    }

    /// The first child that is a tag, named `tag_name` where a name is given,
    /// and whose attribute `attr_name` reads `value`.
    pub fn find_with_attrib(&self, tag_name: Option<&str>, attr_name: &str, value: &str) -> (child:
        Option<&IksNode>)
        ensures
            found(child) == first_child(
                self@,
                Wanted::TagWith(found_text(tag_name), attr_name@, value@),
            ),
    {
        assert(self@.children.skip(0) =~= self@.children);
        let place = self.search(&Query::TagWith(tag_name, attr_name, value), 0);
        self.child(place)
    }

    /// The content of the first character data in the first child that is a
    /// tag named `name`.
    pub fn find_cdata(&self, name: &str) -> (content: Option<String>)
        ensures
            text_model(content) == match first_child(self@, Wanted::TagNamed(name@)) {
                Some(tag) => match first_child(tag, Wanted::AnyCData) {
                    Some(cdata) => cdata.content,
                    None => None,
                },
                None => None,
            },
    {
        match self.find(name) {
            Some(tag) => {
                assert(tag@.children.skip(0) =~= tag@.children);
                let place = tag.search(&Query::AnyCData, 0);
                match tag.child(place) {
                    Some(cdata) => match &cdata.content {
                        Some(text) => Some(text.clone()),
                        None => None,
                    },
                    None => None,
                }
            },
            None => None,
        }
    }

    /// Adds `child` after the children of the node that the steps of `path`
    /// from `from` on lead to. Where they lead nowhere, nothing changes.
    pub(crate) fn attach_at(&mut self, path: &Vec<usize>, from: usize, child: IksNode)
        requires
            from <= path.len(),
        ensures
            final(self)@ == attached(old(self)@, places(path@).skip(from as int), child@),
        decreases path.len() - from,
    {
        let ghost rest = places(path@).skip(from as int);
        if from == path.len() {
            self.attach(child);
        } else {
            let place = path[from];
            assert(rest[0] == place);
            assert(rest.skip(1) =~= places(path@).skip(from + 1));
            proof {
                lemma_models_of(self.children@);
            }
            if place < self.children.len() {
                let ghost before = self.children@;
                self.children[place].attach_at(path, from + 1, child);
                proof {
                    lemma_models_update(before, place as int, self.children@[place as int]);
                    assert(self.children@ =~= before.update(
                        place as int,
                        self.children@[place as int],
                    ));
                }
            }
        }
    }

    /// The node that `path` leads to from this node. Each step of the path is
    /// the place of a child; the empty path leads to this node.
    pub fn node_at(&self, path: &[usize]) -> (node: Option<&IksNode>)
        ensures
            found(node) == descend(self@, places(path@)),
    {
        let ghost all = places(path@);
        let mut node = self;
        let mut i: usize = 0;
        assert(all.skip(0) =~= all);
        while i < path.len()
            invariant
                i <= path.len(),
                all == places(path@),
                descend(self@, all) == descend(node@, all.skip(i as int)),
            decreases path.len() - i,
        {
            proof {
                lemma_models_of(node.children@);
            }
            assert(all.skip(i as int)[0] == path@[i as int]);
            assert(all.skip(i as int).skip(1) =~= all.skip(i + 1));
            if path[i] < node.children.len() {
                node = &node.children[path[i]];
            } else {
                return None;
            }
            i = i + 1;
        }
        Some(node)
    }

    /// The parent of the node that `path` leads to from this node. There is
    /// none where the path is empty or leads nowhere.
    pub fn parent(&self, path: &[usize]) -> (node: Option<&IksNode>)
        ensures
            found(node) == parent_of(self@, places(path@)),
    {
        if path.len() == 0 {
            return None;
        }
        let last = path[path.len() - 1];
        let up = vstd::slice::slice_subrange(path, 0, path.len() - 1);
        assert(places(up@) =~= places(path@).drop_last());
        match self.node_at(up) {
            Some(parent) => {
                proof {
                    lemma_models_of(parent.children@);
                }
                if last < parent.children.len() {
                    Some(parent)
                } else {
                    None
                }
            },
            None => None,
        }
    }

    /// The sibling next after the node that `path` leads to from this node.
    pub fn next(&self, path: &[usize]) -> (node: Option<&IksNode>)
        ensures
            found(node) == next_of(self@, places(path@)),
    {
        match self.parent(path) {
            Some(parent) => {
                let last = path[path.len() - 1];
                proof {
                    lemma_models_of(parent.children@);
                    assert(parent_of(self@, places(path@)) == Some(parent@));
                    assert(last == places(path@).last());
                    assert(last < parent@.children.len());
                }
                let count = parent.children.len();
                assert(last < count);
                parent.child(last + 1)
            },
            None => None,
        }
    }

    /// The sibling just before the node that `path` leads to from this node.
    pub fn prev(&self, path: &[usize]) -> (node: Option<&IksNode>)
        ensures
            found(node) == prev_of(self@, places(path@)),
    {
        match self.parent(path) {
            Some(parent) => {
                let last = path[path.len() - 1];
                if last > 0 {
                    parent.child(last - 1)
                } else {
                    None
                }
            },
            None => None,
        }
    }

    /// The first tag among the siblings after the node that `path` leads to
    /// from this node.
    pub fn next_tag(&self, path: &[usize]) -> (node: Option<&IksNode>)
        ensures
            found(node) == next_tag_of(self@, places(path@)),
    {
        match self.parent(path) {
            Some(parent) => {
                let last = path[path.len() - 1];
                proof {
                    lemma_models_of(parent.children@);
                    assert(parent_of(self@, places(path@)) == Some(parent@));
                    assert(last == places(path@).last());
                    assert(last < parent@.children.len());
                }
                let count = parent.children.len();
                assert(last < count);
                let place = parent.search(&Query::AnyTag, last + 1);
                let ghost later = parent@.children.skip(last + 1);
                assert(node_at_place(parent@.children, place as int) == node_at_place(
                    later,
                    place - (last + 1),
                ));
                parent.child(place)
            },
            None => None,
        }
    }
}

/// Escapes `&`, `<` and `>`, as character data needs it.
pub fn escape_text(s: &str) -> (out: String)
    ensures
        out@ == escaped_text(s@),
{
    let mut out = String::new();
    append_escaped_text(&mut out, s);
    assert(Seq::<char>::empty() + escaped_text(s@) =~= escaped_text(s@));
    out
}

/// Escapes `&`, `<`, `>`, `"` and `'`, as an attribute value needs it.
pub fn escape_attr(s: &str) -> (out: String)
    ensures
        out@ == escaped(s@),
{
    escape(s)
}

/// Appends `s` to `out`, escaped as character data.
fn append_escaped_text(out: &mut String, s: &str)
    ensures
        final(out)@ == old(out)@ + escaped_text(s@),
{
    let chars = chars_of(s);
    let mut i: usize = 0;
    proof {
        reveal_strlit("&amp;");
        reveal_strlit("&lt;");
        reveal_strlit("&gt;");
    }
    assert(old(out)@ + escaped_text(chars@.take(0)) =~= old(out)@);
    while i < chars.len()
        invariant
            i <= chars.len(),
            chars@ == s@,
            out@ == old(out)@ + escaped_text(chars@.take(i as int)),
            "&amp;"@ =~= escape_text_char('&'),
            "&lt;"@ =~= escape_text_char('<'),
            "&gt;"@ =~= escape_text_char('>'),
        decreases chars.len() - i,
    {
        let c = chars[i];
        let ghost before = out@;
        proof {
            assert(chars@.take(i + 1).drop_last() =~= chars@.take(i as int));
            assert(chars@.take(i + 1).last() == c);
        }
        if c == '&' {
            out.append("&amp;");
        } else if c == '<' {
            out.append("&lt;");
        } else if c == '>' {
            out.append("&gt;");
        } else {
            push_char(out, c);
            assert(out@ =~= before + seq![c]);
        }
        assert(out@ =~= old(out)@ + (escaped_text(chars@.take(i as int)) + escape_text_char(c)));
        i = i + 1;
    }
    assert(chars@.take(i as int) =~= chars@);
}

/// Appends the text to `out`, if there is any.
fn append_optional(out: &mut String, text: &Option<String>)
    ensures
        final(out)@ == old(out)@ + text_or_empty(text_model(*text)),
{
    match text {
        Some(s) => {
            out.append(s.as_str());
        },
        None => {
            assert(out@ + Seq::<char>::empty() =~= out@);
        },
    }
}

impl IksNode {
    /// The node, with all that is below it, as markup.
    pub fn to_string(&self) -> (text: String)
        ensures
            text@ == markup(self@),
    {
        let mut text = String::new();
        self.render(&mut text);
        assert(Seq::<char>::empty() + markup(self@) =~= markup(self@));
        text
    }

    /// Appends the attributes to `out` as they stand in a tag.
    fn render_attributes(&self, out: &mut String)
        ensures
            final(out)@ == old(out)@ + attributes_markup(self@.attributes),
    {
        let ghost all = pairs_model(self.attributes@);
        let mut i: usize = 0;
        assert(old(out)@ + attributes_markup(all.take(0)) =~= old(out)@);
        while i < self.attributes.len()
            invariant
                i <= self.attributes.len(),
                all == pairs_model(self.attributes@),
                out@ == old(out)@ + attributes_markup(all.take(i as int)),
            decreases self.attributes.len() - i,
        {
            let ghost before = out@;
            let value = escape(self.attributes[i].1.as_str());
            push_char(out, ' ');
            out.append(self.attributes[i].0.as_str());
            push_char(out, '=');
            push_char(out, '"');
            out.append(value.as_str());
            push_char(out, '"');
            proof {
                assert(all.take(i + 1).drop_last() =~= all.take(i as int));
                assert(all.take(i + 1).last() == all[i as int]);
                assert(out@ =~= old(out)@ + (attributes_markup(all.take(i as int)) + seq![' ']
                    + all[i as int].0 + seq!['=', '"'] + escaped(all[i as int].1) + seq!['"']));
            }
            i = i + 1;
        }
        assert(all.take(i as int) =~= all);
    }

    /// Appends the children to `out` as markup.
    fn render_children(&self, out: &mut String)
        ensures
            final(out)@ == old(out)@ + markup_all(self@.children),
        decreases self, 0nat,
    {
        let ghost all = self@.children;
        proof {
            lemma_models_of(self.children@);
        }
        let mut i: usize = 0;
        assert(old(out)@ + markup_all(all.take(0)) =~= old(out)@);
        while i < self.children.len()
            invariant
                i <= self.children.len(),
                all == self@.children,
                all.len() == self.children@.len(),
                forall|k: int| 0 <= k < all.len() ==> #[trigger] all[k] == self.children@[k]@,
                out@ == old(out)@ + markup_all(all.take(i as int)),
            decreases self.children.len() - i,
        {
            self.children[i].render(out);
            proof {
                assert(all.take(i + 1).drop_last() =~= all.take(i as int));
                assert(all.take(i + 1).last() == all[i as int]);
                assert(out@ =~= old(out)@ + (markup_all(all.take(i as int)) + markup(all[i as int])));
            }
            i = i + 1;
        }
        assert(all.take(i as int) =~= all);
    }

    /// Appends the node to `out` as markup.
    fn render(&self, out: &mut String)
        ensures
            final(out)@ == old(out)@ + markup(self@),
        decreases self, 1nat,
    {
        match self.node_type {
            IksType::Tag => {
                proof {
                    lemma_models_of(self.children@);
                }
                let ghost name = text_or_empty(self@.name);
                let ghost head = seq!['<'] + name + attributes_markup(self@.attributes);
                push_char(out, '<');
                append_optional(out, &self.name);
                self.render_attributes(out);
                assert(out@ =~= old(out)@ + head);
                if self.children.len() == 0 && self.content.is_none() {
                    push_char(out, '/');
                    push_char(out, '>');
                    assert(out@ =~= old(out)@ + (head + seq!['/', '>']));
                } else {
                    push_char(out, '>');
                    match &self.content {
                        Some(content) => {
                            append_escaped_text(out, content.as_str());
                        },
                        None => {
                            assert(escaped_text(Seq::<char>::empty()) =~= Seq::<char>::empty());
                        },
                    }
                    assert(out@ =~= old(out)@ + (head + seq!['>'] + escaped_text(
                        text_or_empty(self@.content),
                    )));
                    self.render_children(out);
                    push_char(out, '<');
                    push_char(out, '/');
                    append_optional(out, &self.name);
                    push_char(out, '>');
                    assert(out@ =~= old(out)@ + (head + seq!['>'] + escaped_text(
                        text_or_empty(self@.content),
                    ) + markup_all(self@.children) + seq!['<', '/'] + name + seq!['>']));
                }
            },
            IksType::CData => {
                match &self.content {
                    Some(content) => {
                        append_escaped_text(out, content.as_str());
                    },
                    None => {
                        assert(escaped_text(Seq::<char>::empty()) =~= Seq::<char>::empty());
                        assert(out@ + Seq::<char>::empty() =~= out@);
                    },
                }
            },
            _ => {
                assert(out@ + Seq::<char>::empty() =~= out@);
            },
        }
    }
}

impl Clone for IksNode {
    /// A copy of the node itself: its kind, name, content and attributes. The
    /// children stay with the node they belong to.
    fn clone(&self) -> (copy: Self)
        ensures
            copy@ == (NodeModel { children: Seq::empty(), ..self@ }),
    {
        let mut attributes: Vec<(String, String)> = Vec::new();
        let mut i: usize = 0;
        while i < self.attributes.len()
            invariant
                i <= self.attributes.len(),
                pairs_model(attributes@) == pairs_model(self.attributes@).take(i as int),
            decreases self.attributes.len() - i,
        {
            let ghost before = attributes@;
            let ghost all = pairs_model(self.attributes@);
            let name = self.attributes[i].0.clone();
            let value = self.attributes[i].1.clone();
            attributes.push((name, value));
            assert(pairs_model(attributes@) =~= pairs_model(before).push((name@, value@)));
            assert(all.take(i + 1) =~= all.take(i as int).push(all[i as int]));
            i = i + 1;
        }
        assert(pairs_model(self.attributes@).take(i as int) =~= pairs_model(self.attributes@));
        IksNode {
            node_type: self.node_type,
            name: match &self.name {
                Some(name) => Some(name.clone()),
                None => None,
            },
            content: match &self.content {
                Some(content) => Some(content.clone()),
                None => None,
            },
            attributes,
            children: Vec::new(),
        }
    }
}

} // verus!
