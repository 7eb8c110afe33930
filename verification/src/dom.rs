//! The document tree: elements and text, their markup, and the search by id.

use crate::error::ParseError;
use crate::html::{parse_fragment, parse_raw};
use crate::string_map::{map_of, StringMap};
use vstd::prelude::*;

verus! {

/// The attributes of an element, by name.
pub type AttrMap = StringMap<String>;

/// A run of text in the document.
#[derive(Debug, PartialEq)]
pub struct Text {
    pub data: String,
}

/// A tag with its attributes.
#[derive(Debug, PartialEq)]
pub struct Element {
    pub tag_name: String,
    pub attributes: AttrMap,
}

/// What a node is, apart from its children.
#[derive(Debug, PartialEq)]
pub enum NodeType {
    Element(Element),
    Text(Text),
}

/// A node of the document. It owns its children, in document order.
#[derive(Debug, PartialEq)]
pub struct Node {
    pub node_type: NodeType,
    pub children: Vec<Box<Node>>,
}

/// The mathematical content of a `NodeType`. The attributes stand in the order
/// in which the element's map walks them.
pub enum NodeKind {
    Element { tag_name: Seq<char>, attributes: Seq<(Seq<char>, Seq<char>)> },
    Text { data: Seq<char> },
}

/// The mathematical content of a `Node`: a finite ordered tree.
pub struct Tree {
    pub kind: NodeKind,
    pub children: Seq<Tree>,
}

impl View for NodeType {
    type V = NodeKind;

    open spec fn view(&self) -> NodeKind {
        match self {
            NodeType::Element(e) => NodeKind::Element {
                tag_name: e.tag_name@,
                attributes: e.attributes.pairs(),
            },
            NodeType::Text(t) => NodeKind::Text { data: t.data@ },
        }
    }
}

/// The tree that a node stands for.
pub open spec fn tree_of(node: Node) -> Tree
    decreases node,
{
    Tree { kind: node.node_type@, children: trees_of(node.children@) }
}

/// The trees that a list of nodes stands for.
pub open spec fn trees_of(nodes: Seq<Box<Node>>) -> Seq<Tree>
    decreases nodes,
{
    if nodes.len() == 0 {
        Seq::empty()
    } else {
        trees_of(nodes.drop_last()).push(tree_of(*nodes.last()))
    }
}

impl View for Node {
    type V = Tree;

    open spec fn view(&self) -> Tree {
        tree_of(*self)
    }
}

/// `trees_of` works node by node.
pub proof fn lemma_trees_of(nodes: Seq<Box<Node>>)
    ensures
        trees_of(nodes).len() == nodes.len(),
        forall|i: int| 0 <= i < nodes.len() ==> (#[trigger] trees_of(nodes)[i]) == nodes[i]@,
    decreases nodes.len(),
{
    if nodes.len() > 0 {
        lemma_trees_of(nodes.drop_last());
    }
}

/// Replacing one node of a list replaces its tree in the list of trees.
pub proof fn lemma_trees_of_update(nodes: Seq<Box<Node>>, i: int, node: Box<Node>)
    requires
        0 <= i < nodes.len(),
    ensures
        trees_of(nodes.update(i, node)) == trees_of(nodes).update(i, node@),
{
    lemma_trees_of(nodes);
    lemma_trees_of(nodes.update(i, node));
    assert(trees_of(nodes.update(i, node)) =~= trees_of(nodes).update(i, node@));
}

/// The text of a tree: a text node's own data, an element's descendants' text
/// in document order.
pub open spec fn text_of(tree: Tree) -> Seq<char>
    decreases tree,
{
    match tree.kind {
        NodeKind::Text { data } => data,
        NodeKind::Element { .. } => text_of_all(tree.children),
    }
}

/// The texts of the trees, one after the other.
pub open spec fn text_of_all(trees: Seq<Tree>) -> Seq<char>
    decreases trees,
{
    if trees.len() == 0 {
        Seq::empty()
    } else {
        text_of_all(trees.drop_last()) + text_of(trees.last())
    }
}

/// One attribute as it is written in a tag: `name="value"`, the value as it
/// is, with nothing escaped.
pub open spec fn attribute_markup(attribute: (Seq<char>, Seq<char>)) -> Seq<char> {
    attribute.0 + "=\""@ + attribute.1 + "\""@
}

/// The attributes as they are written in a tag, with one space between two of
/// them.
pub open spec fn attributes_markup(attributes: Seq<(Seq<char>, Seq<char>)>) -> Seq<char>
    decreases attributes.len(),
{
    if attributes.len() == 0 {
        Seq::empty()
    } else if attributes.len() == 1 {
        attribute_markup(attributes[0])
    } else {
        attributes_markup(attributes.drop_last()) + " "@ + attribute_markup(attributes.last())
    }
}

/// The markup of a tree. An element is written as its opening tag, its
/// children's markup and its closing tag; a text node as its data.
pub open spec fn markup_of(tree: Tree) -> Seq<char>
    decreases tree,
{
    match tree.kind {
        NodeKind::Text { data } => data,
        NodeKind::Element { tag_name, attributes } => {
            if attributes.len() == 0 {
                "<"@ + tag_name + ">"@ + markup_of_all(tree.children) + "</"@ + tag_name + ">"@
            } else {
                "<"@ + tag_name + " "@ + attributes_markup(attributes) + ">"@ + markup_of_all(
                    tree.children,
                ) + "</"@ + tag_name + ">"@
            }
        },
    }
}

/// The markup of the trees, one after the other.
pub open spec fn markup_of_all(trees: Seq<Tree>) -> Seq<char>
    decreases trees,
{
    if trees.len() == 0 {
        Seq::empty()
    } else {
        markup_of_all(trees.drop_last()) + markup_of(trees.last())
    }
}

/// The value of the `id` attribute of a node of this kind, if it has one.
pub open spec fn id_of(kind: NodeKind) -> Option<Seq<char>> {
    match kind {
        NodeKind::Element { tag_name, attributes } => {
            if map_of(attributes).contains_key("id"@) {
                Some(map_of(attributes)["id"@])
            } else {
                None
            }
        },
        NodeKind::Text { .. } => None,
    }
}

/// The path, as child indices from the top, of the first node in document
/// order (a node before its children, children from left to right) whose `id`
/// attribute is `id`.
pub open spec fn find_id(tree: Tree, id: Seq<char>) -> Option<Seq<int>>
    decreases tree,
{
    if id_of(tree.kind) == Some(id) {
        Some(Seq::empty())
    } else {
        find_id_in(tree.children, id)
    }
}

/// The path of the first node with that id in a list of trees; its first
/// index says in which tree it is.
pub open spec fn find_id_in(trees: Seq<Tree>, id: Seq<char>) -> Option<Seq<int>>
    decreases trees,
{
    if trees.len() == 0 {
        None
    } else {
        match find_id_in(trees.drop_last(), id) {
            Some(path) => Some(path),
            None => match find_id(trees.last(), id) {
                Some(path) => Some(seq![trees.len() - 1] + path),
                None => None,
            },
        }
    }
}

/// The tree that stands at `path` below `tree`.
pub open spec fn subtree(tree: Tree, path: Seq<int>) -> Option<Tree>
    decreases path.len(),
{
    if path.len() == 0 {
        Some(tree)
    } else if 0 <= path[0] < tree.children.len() {
        subtree(tree.children[path[0]], path.skip(1))
    } else {
        None
    }
}

/// `tree` with the tree at `path` replaced by `sub`. Where no tree stands at
/// `path`, nothing changes.
pub open spec fn graft(tree: Tree, path: Seq<int>, sub: Tree) -> Tree
    decreases path.len(),
{
    if path.len() == 0 {
        sub
    } else if 0 <= path[0] < tree.children.len() {
        Tree {
            kind: tree.kind,
            children: tree.children.update(
                path[0],
                graft(tree.children[path[0]], path.skip(1), sub),
            ),
        }
    } else {
        tree
    }
}

/// A path as it is held in memory, read as a path of the model.
pub open spec fn path_of(indices: Seq<usize>) -> Seq<int> {
    indices.map_values(|i: usize| i as int)
}

/// A node found among the first trees of a list is the one found in the
/// whole list.
pub proof fn lemma_find_id_in_prefix(trees: Seq<Tree>, k: int, id: Seq<char>)
    requires
        0 <= k <= trees.len(),
        find_id_in(trees.take(k), id) is Some,
    ensures
        find_id_in(trees, id) == find_id_in(trees.take(k), id),
    decreases trees.len(),
{
    if k < trees.len() {
        assert(trees.drop_last().take(k) =~= trees.take(k));
        lemma_find_id_in_prefix(trees.drop_last(), k, id);
    } else {
        assert(trees.take(k) =~= trees);
    }
}

/// The path that the search gives leads to a node, and that node has the id.
pub proof fn lemma_find_id_leads_to_id(tree: Tree, id: Seq<char>)
    requires
        find_id(tree, id) is Some,
    ensures
        subtree(tree, find_id(tree, id).unwrap()) is Some,
        id_of(subtree(tree, find_id(tree, id).unwrap()).unwrap().kind) == Some(id),
    decreases tree,
{
    if id_of(tree.kind) != Some(id) {
        lemma_find_id_in_leads_to_id(tree.children, id);
        let path = find_id(tree, id).unwrap();
        assert(path.skip(1) =~= find_id(tree.children[path[0]], id).unwrap());
    }
}

/// The path found in a list of trees starts with the index of a tree of the
/// list, and goes on with the path found in that tree.
pub proof fn lemma_find_id_in_leads_to_id(trees: Seq<Tree>, id: Seq<char>)
    requires
        find_id_in(trees, id) is Some,
    ensures
        find_id_in(trees, id).unwrap().len() > 0,
        0 <= find_id_in(trees, id).unwrap()[0] < trees.len(),
        find_id(trees[find_id_in(trees, id).unwrap()[0]], id) == Some(
            find_id_in(trees, id).unwrap().skip(1),
        ),
        subtree(
            trees[find_id_in(trees, id).unwrap()[0]],
            find_id_in(trees, id).unwrap().skip(1),
        ) is Some,
        id_of(
            subtree(
                trees[find_id_in(trees, id).unwrap()[0]],
                find_id_in(trees, id).unwrap().skip(1),
            ).unwrap().kind,
        ) == Some(id),
    decreases trees,
{
    if find_id_in(trees.drop_last(), id) is Some {
        lemma_find_id_in_leads_to_id(trees.drop_last(), id);
    } else {
        let path = find_id(trees.last(), id).unwrap();
        lemma_find_id_leads_to_id(trees.last(), id);
        assert((seq![trees.len() - 1] + path).skip(1) =~= path);
    }
}

/// Where the search finds nothing in a list of trees, it finds nothing in
/// any tree of the list.
pub proof fn lemma_find_id_in_none(trees: Seq<Tree>, id: Seq<char>, i: int)
    requires
        find_id_in(trees, id) is None,
        0 <= i < trees.len(),
    ensures
        find_id(trees[i], id) is None,
    decreases trees.len(),
{
    if i < trees.len() - 1 {
        assert(trees.drop_last()[i] == trees[i]);
        lemma_find_id_in_none(trees.drop_last(), id, i);
    }
}

/// Where the search finds nothing, no node of the tree has the id.
pub proof fn lemma_find_id_none(tree: Tree, id: Seq<char>, path: Seq<int>)
    requires
        find_id(tree, id) is None,
        subtree(tree, path) is Some,
    ensures
        id_of(subtree(tree, path).unwrap().kind) != Some(id),
    decreases path.len(),
{
    if path.len() > 0 {
        lemma_find_id_in_none(tree.children, id, path[0]);
        lemma_find_id_none(tree.children[path[0]], id, path.skip(1));
    }
}

/// Whether the place `earlier` comes before the place `later` in document
/// order: it is above it, or it branches off to the left of it.
pub open spec fn comes_before(earlier: Seq<int>, later: Seq<int>) -> bool
    decreases earlier.len(),
{
    if later.len() == 0 {
        false
    } else if earlier.len() == 0 {
        true
    } else if earlier[0] == later[0] {
        comes_before(earlier.skip(1), later.skip(1))
    } else {
        earlier[0] < later[0]
    }
}

/// In a list of trees the search finds nothing in the trees to the left of
/// the one that it finds the id in.
pub proof fn lemma_find_id_in_first(trees: Seq<Tree>, id: Seq<char>, j: int)
    requires
        find_id_in(trees, id) is Some,
        0 <= j < find_id_in(trees, id).unwrap()[0],
    ensures
        j < trees.len(),
        find_id(trees[j], id) is None,
    decreases trees.len(),
{
    lemma_find_id_in_leads_to_id(trees, id);
    let front = trees.drop_last();
    if find_id_in(front, id) is Some {
        lemma_find_id_in_first(front, id, j);
        assert(front[j] == trees[j]);
    } else {
        let path = find_id(trees.last(), id).unwrap();
        assert((seq![trees.len() - 1] + path)[0] == trees.len() - 1);
        lemma_find_id_in_none(front, id, j);
        assert(front[j] == trees[j]);
    }
}

/// The node that the search finds is the first with the id in document
/// order: no node at a place before it has the id.
pub proof fn lemma_find_id_is_first(tree: Tree, id: Seq<char>, place: Seq<int>)
    requires
        find_id(tree, id) is Some,
        comes_before(place, find_id(tree, id).unwrap()),
        subtree(tree, place) is Some,
    ensures
        id_of(subtree(tree, place).unwrap().kind) != Some(id),
    decreases tree,
{
    let found = find_id(tree, id).unwrap();
    if id_of(tree.kind) != Some(id) && place.len() > 0 {
        lemma_find_id_in_leads_to_id(tree.children, id);
        let k = found[0];
        if place[0] == k {
            lemma_find_id_is_first(tree.children[k], id, place.skip(1));
        } else {
            lemma_find_id_in_first(tree.children, id, place[0]);
            lemma_find_id_none(tree.children[place[0]], id, place.skip(1));
        }
    }
}

/// Whether the path `above` leads to `place` or to a node above it.
pub open spec fn is_prefix(above: Seq<int>, place: Seq<int>) -> bool {
    above.len() <= place.len() && place.take(above.len() as int) == above
}

/// What is grafted stands at the path.
pub proof fn lemma_graft_at(tree: Tree, path: Seq<int>, sub: Tree)
    requires
        subtree(tree, path) is Some,
    ensures
        subtree(graft(tree, path, sub), path) == Some(sub),
    decreases path.len(),
{
    if path.len() > 0 {
        lemma_graft_at(tree.children[path[0]], path.skip(1), sub);
    }
}

/// Grafting changes nothing apart from the path: a place that is neither at
/// the path, nor above it, nor below it, keeps its subtree.
pub proof fn lemma_graft_apart(tree: Tree, path: Seq<int>, sub: Tree, place: Seq<int>)
    requires
        !is_prefix(path, place),
        !is_prefix(place, path),
    ensures
        subtree(graft(tree, path, sub), place) == subtree(tree, place),
    decreases path.len(),
{
    if path.len() == 0 {
        assert(place.take(0) =~= path);
    } else if place.len() == 0 {
        assert(path.take(0) =~= place);
    } else if 0 <= path[0] < tree.children.len() && place[0] == path[0] {
        let p = path.skip(1);
        let q = place.skip(1);
        if is_prefix(p, q) {
            assert(place.take(path.len() as int) =~= path) by {
                assert forall|i: int| 0 <= i < path.len() implies place.take(
                    path.len() as int,
                )[i] == path[i] by {
                    if i > 0 {
                        assert(q.take(p.len() as int)[i - 1] == p[i - 1]);
                    }
                }
            }
        }
        if is_prefix(q, p) {
            assert(path.take(place.len() as int) =~= place) by {
                assert forall|i: int| 0 <= i < place.len() implies path.take(
                    place.len() as int,
                )[i] == place[i] by {
                    if i > 0 {
                        assert(p.take(q.len() as int)[i - 1] == q[i - 1]);
                    }
                }
            }
        }
        lemma_graft_apart(tree.children[path[0]], p, sub, q);
    }
}

impl Text {
    /// A text node with the given data and no children.
    pub fn new(text: String) -> (node: Box<Node>)
        ensures
            node@ == (Tree { kind: NodeKind::Text { data: text@ }, children: Seq::empty() }),
    {
        Box::new(Node { node_type: NodeType::Text(Text { data: text }), children: Vec::new() })
    }
}

impl Element {
    /// An element node with the given tag, attributes and children.
    pub fn new(name: String, attributes: AttrMap, children: Vec<Box<Node>>) -> (node: Box<Node>)
        ensures
            node@ == (Tree {
                kind: NodeKind::Element { tag_name: name@, attributes: attributes.pairs() },
                children: trees_of(children@),
            }),
    {
        Box::new(
            Node {
                node_type: NodeType::Element(Element { tag_name: name, attributes }),
                children,
            },
        )
    }

    /// The value of the element's `id` attribute.
    pub fn id(&self) -> (r: Option<&String>)
        ensures
            match r {
                Some(v) => id_of(NodeType::Element(*self)@) == Some(v@),
                None => id_of(NodeType::Element(*self)@) is None,
            },
    {
        self.attributes.get("id")
    }

    /// The attributes in the order in which the element's map walks them.
    pub fn attributes(&self) -> (r: Vec<(String, String)>)
        ensures
            r@.len() == self.attributes.pairs().len(),
            forall|i: int|
                0 <= i < r@.len() ==> (#[trigger] r@[i]).0@ == self.attributes.pairs()[i].0
                    && r@[i].1@ == self.attributes.pairs()[i].1,
    {
        let mut out: Vec<(String, String)> = Vec::new();
        let n = self.attributes.len();
        let mut i: usize = 0;
        while i < n
            invariant
                i <= n,
                n == self.attributes.pairs().len(),
                out@.len() == i,
                forall|j: int|
                    0 <= j < i ==> (#[trigger] out@[j]).0@ == self.attributes.pairs()[j].0
                        && out@[j].1@ == self.attributes.pairs()[j].1,
            decreases n - i,
        {
            out.push((self.attributes.key_at(i).clone(), self.attributes.value_at(i).clone()));
            i += 1;
        }
        out
    }

    /// The attributes as they are written in a tag.
    fn attributes_to_string(&self) -> (r: String)
        ensures
            r@ == attributes_markup(self.attributes.pairs()),
    {
        let mut out = String::new();
        let n = self.attributes.len();
        let ghost pairs = self.attributes.pairs();
        let mut i: usize = 0;
        while i < n
            invariant
                i <= n,
                n == pairs.len(),
                pairs == self.attributes.pairs(),
                out@ == attributes_markup(pairs.take(i as int)),
            decreases n - i,
        {
            proof {
                let next = pairs.take(i + 1);
                assert(next.drop_last() =~= pairs.take(i as int));
                assert(next.last() == pairs[i as int]);
                assert(next[0] == pairs[0]);
            }
            if i > 0 {
                out.append(" ");
            }
            out.append(self.attributes.key_at(i).as_str());
            out.append("=\"");
            out.append(self.attributes.value_at(i).as_str());
            out.append("\"");
            i += 1;
        }
        proof {
            assert(pairs.take(n as int) =~= pairs);
        }
        out
    }
}

impl Node {
    /// The text of the node's descendants in document order.
    pub fn inner_text(&self) -> (r: String)
        ensures
            r@ == text_of_all(self@.children),
        decreases self,
    {
        let mut out = String::new();
        let ghost trees = self@.children;
        proof {
            lemma_trees_of(self.children@);
        }
        let mut i: usize = 0;
        while i < self.children.len()
            invariant
                i <= self.children.len(),
                trees == self@.children,
                trees.len() == self.children.len(),
                forall|j: int| 0 <= j < trees.len() ==> (#[trigger] trees[j]) == self.children@[j]@,
                out@ == text_of_all(trees.take(i as int)),
            decreases self.children.len() - i,
        {
            let child = &self.children[i];
            let piece = match &child.node_type {
                NodeType::Text(t) => t.data.clone(),
                NodeType::Element(_) => child.inner_text(),
            };
            proof {
                let next = trees.take(i + 1);
                assert(next.drop_last() =~= trees.take(i as int));
                assert(next.last() == trees[i as int]);
                assert(piece@ == text_of(child@));
            }
            out.append(piece.as_str());
            i += 1;
        }
        proof {
            assert(trees.take(i as int) =~= trees);
        }
        out
    }

    /// The markup of the node's children.
    pub fn inner_html(&self) -> (r: String)
        ensures
            r@ == markup_of_all(self@.children),
        decreases self, 1int,
    {
        let mut out = String::new();
        let ghost trees = self@.children;
        proof {
            lemma_trees_of(self.children@);
        }
        let mut i: usize = 0;
        while i < self.children.len()
            invariant
                i <= self.children.len(),
                trees == self@.children,
                trees.len() == self.children.len(),
                forall|j: int| 0 <= j < trees.len() ==> (#[trigger] trees[j]) == self.children@[j]@,
                out@ == markup_of_all(trees.take(i as int)),
            decreases self.children.len() - i,
        {
            let piece = self.children[i].to_string();
            proof {
                let next = trees.take(i + 1);
                assert(next.drop_last() =~= trees.take(i as int));
                assert(next.last() == trees[i as int]);
            }
            out.append(piece.as_str());
            i += 1;
        }
        proof {
            assert(trees.take(i as int) =~= trees);
        }
        out
    }

    /// The markup of the node itself.
    pub fn to_string(&self) -> (r: String)
        ensures
            r@ == markup_of(self@),
        decreases self, 2int,
    {
        match &self.node_type {
            NodeType::Element(el) => {
                let attrs = el.attributes_to_string();
                let children = self.inner_html();
                let mut out = String::from_str("<");
                out.append(el.tag_name.as_str());
                if !el.attributes.is_empty() {
                    out.append(" ");
                    out.append(attrs.as_str());
                }
                out.append(">");
                out.append(children.as_str());
                out.append("</");
                out.append(el.tag_name.as_str());
                out.append(">");
                out
            },
            NodeType::Text(text) => text.data.clone(),
        }
    }

    /// Tells whether the node is an element whose `id` attribute is `id`.
    pub fn has_id(&self, id: &String) -> (b: bool)
        ensures
            b == (id_of(self@.kind) == Some(id@)),
    {
        match &self.node_type {
            NodeType::Element(el) => match el.id() {
                Some(v) => *v == *id,
                None => false,
            },
            NodeType::Text(_) => false,
        }
    }

    /// Searches the node and its descendants for `id`, and on success leaves
    /// behind `path` the way from this node to the node found.
    fn search(&self, id: &String, path: &mut Vec<usize>) -> (found: bool)
        ensures
            match find_id(self@, id@) {
                Some(p) => found && path_of(final(path)@) == path_of(old(path)@) + p,
                None => !found && final(path)@ == old(path)@,
            },
        decreases self,
    {
        if self.has_id(id) {
            assert(path_of(path@) + Seq::<int>::empty() =~= path_of(path@));
            return true;
        }
        let ghost start = path@;
        let ghost trees = self@.children;
        proof {
            lemma_trees_of(self.children@);
            assert(trees.take(0) =~= Seq::<Tree>::empty());
        }
        let mut i: usize = 0;
        while i < self.children.len()
            invariant
                i <= self.children.len(),
                trees == self@.children,
                trees.len() == self.children.len(),
                forall|j: int| 0 <= j < trees.len() ==> (#[trigger] trees[j]) == self.children@[j]@,
                path@ == start,
                start == old(path)@,
                id_of(self@.kind) != Some(id@),
                find_id_in(trees.take(i as int), id@) is None,
            decreases self.children.len() - i,
        {
            path.push(i);
            let hit = self.children[i].search(id, path);
            proof {
                let next = trees.take(i + 1);
                assert(next.drop_last() =~= trees.take(i as int));
                assert(next.last() == trees[i as int]);
                assert(path_of(start.push(i)) =~= path_of(start).push(i as int));
            }
            if hit {
                proof {
                    let p = find_id(trees[i as int], id@).unwrap();
                    let next = trees.take(i + 1);
                    assert(find_id_in(next, id@) == Some(seq![next.len() - 1] + p));
                    lemma_find_id_in_prefix(trees, i + 1, id@);
                    assert(find_id(self@, id@) == Some(seq![i as int] + p));
                    assert(path_of(start).push(i as int) + p =~= path_of(start) + (seq![
                        i as int,
                    ] + p));
                }
                return true;
            }
            path.pop();
            assert(path@ =~= start);
            i += 1;
        }
        proof {
            assert(trees.take(i as int) =~= trees);
        }
        false
    }

    /// The path of the first node in document order whose `id` attribute is
    /// `id`.
    pub fn find_path(&self, id: &str) -> (r: Option<Vec<usize>>)
        ensures
            match r {
                Some(p) => find_id(self@, id@) == Some(path_of(p@)),
                None => find_id(self@, id@) is None,
            },
    {
        let owned = String::from_str(id);
        let mut path: Vec<usize> = Vec::new();
        if self.search(&owned, &mut path) {
            proof {
                let p = find_id(self@, id@).unwrap();
                assert(path_of(Seq::<usize>::empty()) + p =~= p);
            }
            Some(path)
        } else {
            None
        }
    }

    /// The child at place `i`, for changing it.
    fn child_mut<'a>(node: &'a mut Box<Node>, i: usize) -> (r: &'a mut Box<Node>)
        requires
            i < old(node)@.children.len(),
        ensures
            r@ == old(node)@.children[i as int],
            final(node)@.kind == old(node)@.kind,
            final(node)@.children == old(node)@.children.update(i as int, final(r)@),
        no_unwind
    {
        let ghost kids = node.children@;
        proof {
            lemma_trees_of(kids);
            assert forall|c: Box<Node>|
                trees_of(#[trigger] kids.update(i as int, c)) == trees_of(kids).update(
                    i as int,
                    c@,
                ) by {
                lemma_trees_of_update(kids, i as int, c);
            }
        }
        &mut node.children[i]
    }

    /// The node that stands at `path[from..]` below this node, for changing it.
    fn node_at_mut<'a>(node: &'a mut Box<Node>, path: &Vec<usize>, from: usize) -> (r:
        &'a mut Box<Node>)
        requires
            from <= path@.len(),
            subtree(old(node)@, path_of(path@).skip(from as int)) is Some,
        ensures
            Some(r@) == subtree(old(node)@, path_of(path@).skip(from as int)),
            final(node)@ == graft(old(node)@, path_of(path@).skip(from as int), final(r)@),
        decreases path@.len() - from,
        no_unwind
    {
        if from == path.len() {
            assert(path_of(path@).skip(from as int).len() == 0);
            node
        } else {
            let i = path[from];
            proof {
                let tail = path_of(path@).skip(from as int);
                assert(tail[0] == i as int);
                assert(tail.skip(1) =~= path_of(path@).skip(from + 1));
            }
            let child = Node::child_mut(node, i);
            Node::node_at_mut(child, path, from + 1)
        }
    }

    /// The first node in document order whose `id` attribute is `id`, for
    /// changing it. The rest of the tree stays as it is.
    pub fn get_element_by_id<'a>(self: &'a mut Box<Node>, id: &str) -> (r: Option<
        &'a mut Box<Node>,
    >)
        ensures
            match find_id(old(self)@, id@) {
                Some(path) => r matches Some(node) && Some(node@) == subtree(old(self)@, path)
                    && id_of(node@.kind) == Some(id@) && final(self)@ == graft(
                    old(self)@,
                    path,
                    final(node)@,
                ),
                None => r is None && final(self)@ == old(self)@,
            },
    {
        match self.find_path(id) {
            Some(path) => {
                proof {
                    lemma_find_id_leads_to_id(self@, id@);
                    assert(path_of(path@).skip(0) =~= path_of(path@));
                }
                Some(Node::node_at_mut(self, &path, 0))
            },
            None => None,
        }
    }

    /// Replaces the node's children by the given nodes.
    pub fn set_children(&mut self, nodes: Vec<Box<Node>>)
        ensures
            final(self)@ == (Tree { kind: old(self)@.kind, children: trees_of(nodes@) }),
        no_unwind
    {
        self.children = nodes;
    }

    /// Replaces the node's children by the nodes that the text is the markup
    /// of. Where the text is no markup, the node stays as it is.
    pub fn set_inner_html(&mut self, html: &str) -> (r: Result<(), ParseError>)
        ensures
            match r {
                Ok(_) => parse_fragment(html@) matches Some(children) && final(self)@ == (Tree {
                    kind: old(self)@.kind,
                    children,
                }),
                Err(e) => e == ParseError::Markup && parse_fragment(html@) is None && final(self)@
                    == old(self)@,
            },
    {
        match parse_raw(html) {
            Ok(nodes) => {
                self.set_children(nodes);
                Ok(())
            },
            Err(e) => Err(e),
        }
    }

    /// The node that stands at `path` below this node, if one stands there.
    pub fn get(&self, path: &Vec<usize>) -> (r: Option<&Node>)
        ensures
            match r {
                Some(node) => subtree(self@, path_of(path@)) == Some(node@),
                None => subtree(self@, path_of(path@)) is None,
            },
    {
        let mut node: &Node = self;
        let mut i: usize = 0;
        proof {
            assert(path_of(path@).skip(0) =~= path_of(path@));
        }
        while i < path.len()
            invariant
                i <= path@.len(),
                subtree(self@, path_of(path@)) == subtree(node@, path_of(path@).skip(i as int)),
            decreases path@.len() - i,
        {
            let k = path[i];
            proof {
                let tail = path_of(path@).skip(i as int);
                assert(tail[0] == k as int);
                assert(tail.skip(1) =~= path_of(path@).skip(i + 1));
                lemma_trees_of(node.children@);
            }
            if k >= node.children.len() {
                return None;
            }
            node = &node.children[k];
            i += 1;
        }
        Some(node)
    }

    /// Replaces the children of the node at `path` by the given nodes. The
    /// rest of the tree stays as it is.
    pub(crate) fn replace_children_at(node: &mut Box<Node>, path: &Vec<usize>, nodes: Vec<Box<Node>>)
        requires
            subtree(old(node)@, path_of(path@)) is Some,
        ensures
            final(node)@ == graft(
                old(node)@,
                path_of(path@),
                Tree {
                    kind: subtree(old(node)@, path_of(path@)).unwrap().kind,
                    children: trees_of(nodes@),
                },
            ),
        no_unwind
    {
        proof {
            assert(path_of(path@).skip(0) =~= path_of(path@));
        }
        let target = Node::node_at_mut(node, path, 0);
        target.set_children(nodes);
    }
}

} // verus!
