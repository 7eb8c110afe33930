//! The box tree: one box per styled node, and anonymous boxes around the runs
//! of inline boxes.

use crate::dom::{NodeKind, NodeType};
use crate::style::{
    all_shown, display_of, lemma_styled_trees_of, Display, PropertyMap, StyledNode, StyledTree,
};
use vstd::pervasive::unreached;
use vstd::prelude::*;

verus! {

/// What a block or inline box was made from.
#[derive(Debug, PartialEq)]
pub struct BoxProps<'a> {
    pub node_type: &'a NodeType,
    pub properties: PropertyMap,
}

/// The kind of a box.
#[derive(Debug, PartialEq)]
pub enum BoxType<'a> {
    BlockBox(BoxProps<'a>),
    InlineBox(BoxProps<'a>),
    /// A box that no node stands behind: it holds a run of inline boxes.
    AnonymousBox,
}

/// A box with the boxes inside it, in order.
#[derive(Debug, PartialEq)]
pub struct LayoutBox<'a> {
    pub box_type: BoxType<'a>,
    pub children: Vec<LayoutBox<'a>>,
}

/// The mathematical content of a `BoxType`.
pub enum BoxKind {
    Block { node: NodeKind, properties: Seq<(Seq<char>, Seq<char>)> },
    Inline { node: NodeKind, properties: Seq<(Seq<char>, Seq<char>)> },
    Anonymous,
}

/// The mathematical content of a `LayoutBox`.
pub struct BoxTree {
    pub kind: BoxKind,
    pub children: Seq<BoxTree>,
}

impl<'a> View for BoxType<'a> {
    type V = BoxKind;

    open spec fn view(&self) -> BoxKind {
        match self {
            BoxType::BlockBox(props) => BoxKind::Block {
                node: props.node_type@,
                properties: props.properties.pairs(),
            },
            BoxType::InlineBox(props) => BoxKind::Inline {
                node: props.node_type@,
                properties: props.properties.pairs(),
            },
            BoxType::AnonymousBox => BoxKind::Anonymous,
        }
    }
}

/// The box tree that a layout box stands for.
pub open spec fn box_tree_of(layout: LayoutBox) -> BoxTree
    decreases layout,
{
    BoxTree { kind: layout.box_type@, children: box_trees_of(layout.children@) }
}

/// The box trees that a list of layout boxes stands for.
pub open spec fn box_trees_of(boxes: Seq<LayoutBox>) -> Seq<BoxTree>
    decreases boxes,
{
    if boxes.len() == 0 {
        Seq::empty()
    } else {
        box_trees_of(boxes.drop_last()).push(box_tree_of(boxes.last()))
    }
}

impl<'a> View for LayoutBox<'a> {
    type V = BoxTree;

    open spec fn view(&self) -> BoxTree {
        box_tree_of(*self)
    }
}

/// `box_trees_of` works box by box.
pub proof fn lemma_box_trees_of(boxes: Seq<LayoutBox>)
    ensures
        box_trees_of(boxes).len() == boxes.len(),
        forall|i: int| 0 <= i < boxes.len() ==> (#[trigger] box_trees_of(boxes)[i]) == boxes[i]@,
    decreases boxes.len(),
{
    if boxes.len() > 0 {
        lemma_box_trees_of(boxes.drop_last());
    }
}

/// An anonymous box around the given boxes.
pub open spec fn anonymous(children: Seq<BoxTree>) -> BoxTree {
    BoxTree { kind: BoxKind::Anonymous, children }
}

/// The boxes with every run of inline boxes put into an anonymous box of its
/// own. Walking from the left, a box that is not inline stays where it is; an
/// inline box joins the anonymous box that stands last, or opens one.
pub open spec fn wrap_inline_runs(boxes: Seq<BoxTree>) -> Seq<BoxTree>
    decreases boxes.len(),
{
    if boxes.len() == 0 {
        Seq::empty()
    } else {
        let before = wrap_inline_runs(boxes.drop_last());
        let next = boxes.last();
        if !(next.kind is Inline) {
            before.push(next)
        } else if before.len() > 0 && before.last().kind is Anonymous {
            before.update(before.len() - 1, anonymous(before.last().children.push(next)))
        } else {
            before.push(anonymous(seq![next]))
        }
    }
}

/// The box tree of a styled tree. A node whose display is `block` gives a
/// block box, any other an inline box; inside it stand its children's boxes
/// with the inline runs wrapped.
pub open spec fn box_of(tree: StyledTree) -> BoxTree
    decreases tree,
{
    BoxTree {
        kind: if display_of(tree.properties) == Display::Block {
            BoxKind::Block { node: tree.kind, properties: tree.properties }
        } else {
            BoxKind::Inline { node: tree.kind, properties: tree.properties }
        },
        children: wrap_inline_runs(boxes_of(tree.children)),
    }
}

/// The box trees of the styled trees, one for each.
pub open spec fn boxes_of(trees: Seq<StyledTree>) -> Seq<BoxTree>
    decreases trees,
{
    if trees.len() == 0 {
        Seq::empty()
    } else {
        boxes_of(trees.drop_last()).push(box_of(trees.last()))
    }
}

/// The boxes that stand directly inside the anonymous boxes of the list,
/// together with the boxes of the list that are not anonymous, in order.
pub open spec fn unwrapped(boxes: Seq<BoxTree>) -> Seq<BoxTree>
    decreases boxes.len(),
{
    if boxes.len() == 0 {
        Seq::empty()
    } else if boxes.last().kind is Anonymous {
        unwrapped(boxes.drop_last()) + boxes.last().children
    } else {
        unwrapped(boxes.drop_last()).push(boxes.last())
    }
}

/// What holds of a list of boxes whose inline runs are wrapped: an anonymous
/// box holds inline boxes only, and at least one; a box outside an anonymous
/// box is not inline; and no two anonymous boxes stand side by side.
pub open spec fn runs_wrapped(boxes: Seq<BoxTree>) -> bool {
    &&& forall|i: int|
        0 <= i < boxes.len() && (#[trigger] boxes[i]).kind is Anonymous ==> {
            &&& boxes[i].children.len() > 0
            &&& forall|j: int|
                0 <= j < boxes[i].children.len() ==> (#[trigger] boxes[i].children[j]).kind is Inline
        }
    &&& forall|i: int|
        0 <= i < boxes.len() && !((#[trigger] boxes[i]).kind is Anonymous) ==> !(boxes[i].kind
            is Inline)
    &&& forall|i: int, j: int|
        0 <= i < boxes.len() && j == i + 1 && j < boxes.len() ==> !((#[trigger] boxes[i]).kind
            is Anonymous && (#[trigger] boxes[j]).kind is Anonymous)
}

/// Wrapping loses nothing and keeps the order: taking the boxes out of their
/// anonymous boxes gives the list back. And the wrapped list is as
/// `runs_wrapped` says, so that every anonymous box holds a whole run.
pub proof fn lemma_wrap_inline_runs(boxes: Seq<BoxTree>)
    requires
        forall|i: int| 0 <= i < boxes.len() ==> !((#[trigger] boxes[i]).kind is Anonymous),
    ensures
        unwrapped(wrap_inline_runs(boxes)) == boxes,
        runs_wrapped(wrap_inline_runs(boxes)),
        wrap_inline_runs(boxes).len() <= boxes.len(),
        boxes.len() > 0 ==> wrap_inline_runs(boxes).len() > 0,
        boxes.len() > 0 ==> (wrap_inline_runs(boxes).last().kind is Anonymous <==> boxes.last().kind
            is Inline),
    decreases boxes.len(),
{
    if boxes.len() > 0 {
        let front = boxes.drop_last();
        let before = wrap_inline_runs(front);
        let next = boxes.last();
        let after = wrap_inline_runs(boxes);
        assert forall|i: int| 0 <= i < front.len() implies !((#[trigger] front[i]).kind
            is Anonymous) by {
            assert(front[i] == boxes[i]);
        }
        lemma_wrap_inline_runs(front);
        assert(front.push(next) =~= boxes);
        if !(next.kind is Inline) {
            assert(after.drop_last() =~= before);
        } else if before.len() > 0 && before.last().kind is Anonymous {
            let merged = anonymous(before.last().children.push(next));
            assert(after.drop_last() =~= before.drop_last());
            assert(before.drop_last().push(before.last()) =~= before);
            assert(unwrapped(before) == unwrapped(before.drop_last()) + before.last().children);
            assert(unwrapped(after) =~= unwrapped(before).push(next));
            assert forall|i: int| 0 <= i < after.len() && (#[trigger] after[i]).kind
                is Anonymous implies after[i].children.len() > 0 && forall|j: int|
                0 <= j < after[i].children.len() ==> (#[trigger] after[i].children[j]).kind
                    is Inline by {
                if i < after.len() - 1 {
                    assert(after[i] == before[i]);
                } else {
                    assert forall|j: int| 0 <= j < after[i].children.len() implies (
                    #[trigger] after[i].children[j]).kind is Inline by {
                        if j < before.last().children.len() {
                            assert(after[i].children[j] == before.last().children[j]);
                        }
                    }
                }
            }
            assert forall|i: int| 0 <= i < after.len() implies (#[trigger] after[i]).kind
                == before[i].kind by {}
        } else {
            assert(after.drop_last() =~= before);
            assert(unwrapped(after) =~= unwrapped(before) + seq![next]);
            assert(unwrapped(before) + seq![next] =~= unwrapped(before).push(next));
        }
    }
}

/// The boxes of styled trees are never anonymous.
pub proof fn lemma_boxes_of(trees: Seq<StyledTree>)
    ensures
        boxes_of(trees).len() == trees.len(),
        forall|i: int| 0 <= i < trees.len() ==> (#[trigger] boxes_of(trees)[i]) == box_of(trees[i]),
        forall|i: int| 0 <= i < trees.len() ==> !((#[trigger] boxes_of(trees)[i]).kind is Anonymous),
    decreases trees.len(),
{
    if trees.len() > 0 {
        lemma_boxes_of(trees.drop_last());
        assert forall|i: int| 0 <= i < trees.len() implies !((#[trigger] boxes_of(trees)[i]).kind
            is Anonymous) by {
            assert(boxes_of(trees)[i] == box_of(trees[i]));
        }
    }
}

/// Inside every box that a styled tree gives, the inline runs are wrapped and
/// the children's boxes are all there, in the order of the children.
pub proof fn lemma_box_of_children(tree: StyledTree)
    ensures
        runs_wrapped(box_of(tree).children),
        unwrapped(box_of(tree).children) == boxes_of(tree.children),
{
    lemma_boxes_of(tree.children);
    lemma_wrap_inline_runs(boxes_of(tree.children));
}

/// What holds of every box of a list also holds of the boxes of the wrapped
/// list that are not anonymous, and of the boxes inside those that are.
pub proof fn lemma_wrap_keeps(boxes: Seq<BoxTree>, holds: spec_fn(BoxTree) -> bool)
    requires
        forall|i: int| 0 <= i < boxes.len() ==> !((#[trigger] boxes[i]).kind is Anonymous),
        forall|i: int| 0 <= i < boxes.len() ==> holds(#[trigger] boxes[i]),
    ensures
        forall|i: int|
            0 <= i < wrap_inline_runs(boxes).len() ==> {
                let wrapped = #[trigger] wrap_inline_runs(boxes)[i];
                if wrapped.kind is Anonymous {
                    forall|j: int|
                        0 <= j < wrapped.children.len() ==> holds(#[trigger] wrapped.children[j])
                } else {
                    holds(wrapped)
                }
            },
    decreases boxes.len(),
{
    if boxes.len() > 0 {
        let front = boxes.drop_last();
        let before = wrap_inline_runs(front);
        let after = wrap_inline_runs(boxes);
        let next = boxes.last();
        assert forall|i: int| 0 <= i < front.len() implies !((#[trigger] front[i]).kind
            is Anonymous) && holds(front[i]) by {
            assert(front[i] == boxes[i]);
        }
        lemma_wrap_keeps(front, holds);
        assert(holds(boxes[boxes.len() - 1]));
        assert forall|i: int| 0 <= i < after.len() implies {
            let wrapped = #[trigger] after[i];
            if wrapped.kind is Anonymous {
                forall|j: int|
                    0 <= j < wrapped.children.len() ==> holds(#[trigger] wrapped.children[j])
            } else {
                holds(wrapped)
            }
        } by {
            if i < before.len() && after[i] == before[i] {
            } else if next.kind is Inline && before.len() > 0 && before.last().kind
                is Anonymous {
                let inside = before.last().children;
                assert forall|j: int| 0 <= j < after[i].children.len() implies holds(
                    #[trigger] after[i].children[j],
                ) by {
                    if j < inside.len() {
                        assert(after[i].children[j] == inside[j]);
                    }
                }
            }
        }
    }
}

/// Whether the inline runs are wrapped in the box and in every box below it.
/// In an anonymous box nothing is wrapped: it holds the run itself.
pub open spec fn wrapped_throughout(layout: BoxTree) -> bool
    decreases layout,
{
    &&& layout.kind is Anonymous || runs_wrapped(layout.children)
    &&& forall|i: int|
        0 <= i < layout.children.len() ==> wrapped_throughout(#[trigger] layout.children[i])
}

/// In every box of the box tree of a styled tree, the inline runs are
/// wrapped.
pub proof fn lemma_box_of_wrapped_throughout(tree: StyledTree)
    ensures
        wrapped_throughout(box_of(tree)),
    decreases tree,
{
    let boxes = boxes_of(tree.children);
    let wrapped = wrap_inline_runs(boxes);
    let holds = |layout: BoxTree| wrapped_throughout(layout);
    lemma_boxes_of(tree.children);
    lemma_box_of_children(tree);
    assert forall|i: int| 0 <= i < boxes.len() implies holds(#[trigger] boxes[i]) by {
        lemma_box_of_wrapped_throughout(tree.children[i]);
    }
    lemma_wrap_keeps(boxes, holds);
    assert forall|i: int| 0 <= i < wrapped.len() implies wrapped_throughout(
        #[trigger] wrapped[i],
    ) by {
        if wrapped[i].kind is Anonymous {
            assert forall|j: int| 0 <= j < wrapped[i].children.len() implies wrapped_throughout(
                #[trigger] wrapped[i].children[j],
            ) by {
                assert(holds(wrapped[i].children[j]));
            }
        } else {
            assert(holds(wrapped[i]));
        }
    }
}

/// The box of a styled node. The node's children keep their order; every run
/// of inline children comes to stand in an anonymous box, in the box and in
/// every box below it.
pub fn to_layout_box<'a>(snode: StyledNode<'a>) -> (layout: LayoutBox<'a>)
    requires
        all_shown(snode@),
    ensures
        layout@ == box_of(snode@),
        wrapped_throughout(layout@),
    decreases snode,
{
    proof {
        lemma_box_of_wrapped_throughout(snode@);
    }
    let display = snode.display();
    let ghost tree = snode@;
    let ghost trees = tree.children;
    proof {
        lemma_styled_trees_of(snode.children@);
    }
    let StyledNode { node_type, children, properties } = snode;
    let props = BoxProps { node_type, properties };
    let box_type = match display {
        Display::Block => BoxType::BlockBox(props),
        Display::Inline => BoxType::InlineBox(props),
        Display::Hidden => unreached(),
    };
    let mut boxes: Vec<LayoutBox<'a>> = Vec::new();
    proof {
        assert(trees.take(0) =~= Seq::<StyledTree>::empty());
    }
    for child in it: children
        invariant
            trees.len() == it.seq().len(),
            forall|j: int| 0 <= j < trees.len() ==> (#[trigger] trees[j]) == it.seq()[j]@,
            forall|j: int| 0 <= j < trees.len() ==> all_shown(#[trigger] trees[j]),
            forall|j: int| 0 <= j < it.seq().len() ==> decreases_to!(snode => #[trigger] it.seq()[j]),
            box_trees_of(boxes@) == wrap_inline_runs(boxes_of(trees.take(it.index() as int))),
    {
        let ghost index = it.index() as int;
        let ghost before = boxes@;
        proof {
            let next = trees.take(index + 1);
            assert(next.drop_last() =~= trees.take(index));
            assert(next.last() == trees[index]);
            assert(child@ == trees[index]);
            lemma_box_trees_of(before);
        }
        let inline = match child.display() {
            Display::Block => false,
            _ => true,
        };
        let child_box = to_layout_box(child);
        proof {
            assert(boxes_of(trees.take(index + 1)).drop_last() =~= boxes_of(trees.take(index)));
            assert(boxes_of(trees.take(index + 1)).last() == child_box@);
            assert(child_box@.kind is Inline <==> inline);
        }
        if !inline {
            boxes.push(child_box);
            assert(boxes@.drop_last() =~= before);
        } else {
            let n = boxes.len();
            let open = n > 0 && match boxes[n - 1].box_type {
                BoxType::AnonymousBox => true,
                _ => false,
            };
            if open {
                let mut last = boxes.pop().unwrap();
                let ghost inside = last.children@;
                last.children.push(child_box);
                proof {
                    assert(last.children@.drop_last() =~= inside);
                    lemma_box_trees_of(before.drop_last());
                }
                boxes.push(last);
                proof {
                    lemma_box_trees_of(boxes@);
                    assert(box_trees_of(boxes@) =~= box_trees_of(before).update(
                        n - 1,
                        anonymous(box_trees_of(before)[n - 1].children.push(child_box@)),
                    ));
                }
            } else {
                let mut inside: Vec<LayoutBox<'a>> = Vec::new();
                inside.push(child_box);
                boxes.push(LayoutBox { box_type: BoxType::AnonymousBox, children: inside });
                proof {
                    assert(boxes@.drop_last() =~= before);
                    lemma_box_trees_of(inside@);
                    assert(box_trees_of(inside@) =~= seq![child_box@]);
                    assert(boxes@.last()@ == anonymous(seq![child_box@]));
                }
            }
        }
    }
    proof {
        assert(trees.take(trees.len() as int) =~= trees);
    }
    LayoutBox { box_type, children: boxes }
}

} // verus!
