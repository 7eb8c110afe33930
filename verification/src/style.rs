//! The cascade: which declarations a node ends up with, and the tree of the
//! nodes that are shown.

use crate::css::{
    best_match, lemma_best_match, selector_matches, CSSValue, RuleView, Stylesheet,
};
use crate::dom::{lemma_trees_of, Node, NodeKind, NodeType, Tree};
use crate::string_map::{
    keys_distinct, lemma_map_of_concat, lemma_map_of_contains, lemma_map_of_last_occurrence,
    lemma_map_of_put_all, lemma_position_of, lemma_put_all, map_of, put_all, StringMap,
};
use vstd::prelude::*;

verus! {

/// The resolved properties of a node, by name.
pub type PropertyMap = StringMap<CSSValue>;

/// How a node takes part in layout.
#[derive(Debug, PartialEq, Eq, Clone, Copy)]
pub enum Display {
    /// The default: the node flows with its neighbours.
    Inline,
    /// The value `block`.
    Block,
    /// The value `none`: the node is not shown, nor anything below it.
    Hidden,
}

/// A node that is shown, with its resolved properties and those of its
/// children that are shown too.
#[derive(Debug, PartialEq)]
pub struct StyledNode<'a> {
    pub node_type: &'a NodeType,
    pub children: Vec<StyledNode<'a>>,
    pub properties: PropertyMap,
}

/// The mathematical content of a `StyledNode`.
pub struct StyledTree {
    pub kind: NodeKind,
    pub properties: Seq<(Seq<char>, Seq<char>)>,
    pub children: Seq<StyledTree>,
}

/// The styled tree that a styled node stands for.
pub open spec fn styled_tree_of(node: StyledNode) -> StyledTree
    decreases node,
{
    StyledTree {
        kind: node.node_type@,
        properties: node.properties.pairs(),
        children: styled_trees_of(node.children@),
    }
}

/// The styled trees that a list of styled nodes stands for.
pub open spec fn styled_trees_of(nodes: Seq<StyledNode>) -> Seq<StyledTree>
    decreases nodes,
{
    if nodes.len() == 0 {
        Seq::empty()
    } else {
        styled_trees_of(nodes.drop_last()).push(styled_tree_of(nodes.last()))
    }
}

impl<'a> View for StyledNode<'a> {
    type V = StyledTree;

    open spec fn view(&self) -> StyledTree {
        styled_tree_of(*self)
    }
}

/// `styled_trees_of` works node by node.
pub proof fn lemma_styled_trees_of(nodes: Seq<StyledNode>)
    ensures
        styled_trees_of(nodes).len() == nodes.len(),
        forall|i: int|
            0 <= i < nodes.len() ==> (#[trigger] styled_trees_of(nodes)[i]) == nodes[i]@,
    decreases nodes.len(),
{
    if nodes.len() > 0 {
        lemma_styled_trees_of(nodes.drop_last());
    }
}

/// The declarations, in source order, of the rules that apply to a node of
/// this kind with exactly the priority `rank`.
pub open spec fn declared(rules: Seq<RuleView>, kind: NodeKind, rank: nat) -> Seq<
    (Seq<char>, Seq<char>),
>
    decreases rules.len(),
{
    if rules.len() == 0 {
        Seq::empty()
    } else if best_match(rules.last().selectors, kind) == Some(rank) {
        declared(rules.drop_last(), kind, rank) + rules.last().declarations
    } else {
        declared(rules.drop_last(), kind, rank)
    }
}

/// Every declaration that applies to a node of this kind, from the weakest to
/// the strongest: by ascending priority of its rule, and within one priority
/// in source order.
pub open spec fn cascade(rules: Seq<RuleView>, kind: NodeKind) -> Seq<(Seq<char>, Seq<char>)> {
    declared(rules, kind, 0) + declared(rules, kind, 1) + declared(rules, kind, 2)
}

/// The resolved properties of a node of this kind: the declarations of the
/// cascade laid over one another, a stronger one replacing a weaker one of the
/// same name.
pub open spec fn resolve(rules: Seq<RuleView>, kind: NodeKind) -> Seq<(Seq<char>, Seq<char>)> {
    put_all(Seq::empty(), cascade(rules, kind))
}

/// The display that the properties give: `block` and `none` by name, `inline`
/// for any other value and where the property is not set.
pub open spec fn display_of(properties: Seq<(Seq<char>, Seq<char>)>) -> Display {
    let by_name = map_of(properties);
    if !by_name.contains_key("display"@) {
        Display::Inline
    } else if by_name["display"@] == "block"@ {
        Display::Block
    } else if by_name["display"@] == "none"@ {
        Display::Hidden
    } else {
        Display::Inline
    }
}

/// The styled tree of a document tree: nothing where the node's display is
/// `none`, else the node with its resolved properties and the styled trees of
/// its children, those left out that give nothing.
pub open spec fn styled(tree: Tree, rules: Seq<RuleView>) -> Option<StyledTree>
    decreases tree,
{
    let properties = resolve(rules, tree.kind);
    if display_of(properties) == Display::Hidden {
        None
    } else {
        Some(
            StyledTree {
                kind: tree.kind,
                properties,
                children: styled_all(tree.children, rules),
            },
        )
    }
}

/// The styled trees of those trees of the list that are shown, in order.
pub open spec fn styled_all(trees: Seq<Tree>, rules: Seq<RuleView>) -> Seq<StyledTree>
    decreases trees,
{
    if trees.len() == 0 {
        Seq::empty()
    } else {
        match styled(trees.last(), rules) {
            Some(s) => styled_all(trees.drop_last(), rules).push(s),
            None => styled_all(trees.drop_last(), rules),
        }
    }
}

/// No node of the styled tree has the display `none`.
pub open spec fn all_shown(tree: StyledTree) -> bool
    decreases tree,
{
    &&& display_of(tree.properties) != Display::Hidden
    &&& forall|i: int| 0 <= i < tree.children.len() ==> all_shown(#[trigger] tree.children[i])
}

/// A node whose display is `none` is absent from the styled tree, with all
/// that is below it: whatever `styled` gives has no such node.
pub proof fn lemma_styled_all_shown(tree: Tree, rules: Seq<RuleView>)
    requires
        styled(tree, rules) is Some,
    ensures
        all_shown(styled(tree, rules).unwrap()),
    decreases tree,
{
    lemma_styled_all_all_shown(tree.children, rules);
    let s = styled(tree, rules).unwrap();
    assert(s.children == styled_all(tree.children, rules));
    assert forall|i: int| 0 <= i < s.children.len() implies all_shown(
        #[trigger] s.children[i],
    ) by {}
}

/// Every styled tree that `styled_all` gives has no node with the display
/// `none`.
pub proof fn lemma_styled_all_all_shown(trees: Seq<Tree>, rules: Seq<RuleView>)
    ensures
        forall|i: int|
            0 <= i < styled_all(trees, rules).len() ==> all_shown(
                #[trigger] styled_all(trees, rules)[i],
            ),
    decreases trees,
{
    if trees.len() > 0 {
        let front = styled_all(trees.drop_last(), rules);
        lemma_styled_all_all_shown(trees.drop_last(), rules);
        if styled(trees.last(), rules) is Some {
            lemma_styled_all_shown(trees.last(), rules);
        }
        assert forall|i: int| 0 <= i < styled_all(trees, rules).len() implies all_shown(
            #[trigger] styled_all(trees, rules)[i],
        ) by {
            if i < front.len() {
                assert(styled_all(trees, rules)[i] == front[i]);
            }
        }
    }
}

/// Whether any selector of the rule matches a node of this kind.
pub open spec fn applies(rule: RuleView, kind: NodeKind) -> bool {
    exists|i: int| 0 <= i < rule.selectors.len() && selector_matches(#[trigger] rule.selectors[i], kind)
}

/// The resolved properties, as a map, are the cascade read as a map: of the
/// declarations of one name, the last in the cascade decides.
pub proof fn lemma_resolve_is_cascade(rules: Seq<RuleView>, kind: NodeKind)
    ensures
        map_of(resolve(rules, kind)) == map_of(cascade(rules, kind)),
        keys_distinct(resolve(rules, kind)),
{
    let none = Seq::<(Seq<char>, Seq<char>)>::empty();
    lemma_map_of_put_all(none, cascade(rules, kind));
    lemma_put_all(none, cascade(rules, kind));
    assert(none + cascade(rules, kind) =~= cascade(rules, kind));
}

/// Where no rule of the stylesheet applies to a node, the node has no
/// property, and its display is `inline`.
pub proof fn lemma_unmatched_node_has_no_properties(rules: Seq<RuleView>, kind: NodeKind)
    requires
        forall|i: int| 0 <= i < rules.len() ==> !applies(#[trigger] rules[i], kind),
    ensures
        resolve(rules, kind) == Seq::<(Seq<char>, Seq<char>)>::empty(),
        display_of(resolve(rules, kind)) == Display::Inline,
{
    assert forall|rank: nat| #[trigger]
        declared(rules, kind, rank) == Seq::<(Seq<char>, Seq<char>)>::empty() by {
        lemma_declared_of_unmatched(rules, kind, rank);
    }
    assert(cascade(rules, kind) =~= Seq::<(Seq<char>, Seq<char>)>::empty());
}

/// Rules that do not apply declare nothing.
proof fn lemma_declared_of_unmatched(rules: Seq<RuleView>, kind: NodeKind, rank: nat)
    requires
        forall|i: int| 0 <= i < rules.len() ==> !applies(#[trigger] rules[i], kind),
    ensures
        declared(rules, kind, rank) == Seq::<(Seq<char>, Seq<char>)>::empty(),
    decreases rules.len(),
{
    if rules.len() > 0 {
        let front = rules.drop_last();
        assert forall|i: int| 0 <= i < front.len() implies !applies(#[trigger] front[i], kind) by {
            assert(front[i] == rules[i]);
        }
        lemma_declared_of_unmatched(front, kind, rank);
        assert(!applies(rules[rules.len() - 1], kind));
        lemma_best_match(rules.last().selectors, kind);
    }
}

/// A text node has no property, whatever the stylesheet.
pub proof fn lemma_text_has_no_properties(rules: Seq<RuleView>, data: Seq<char>)
    ensures
        resolve(rules, NodeKind::Text { data }) == Seq::<(Seq<char>, Seq<char>)>::empty(),
        display_of(resolve(rules, NodeKind::Text { data })) == Display::Inline,
{
    lemma_unmatched_node_has_no_properties(rules, NodeKind::Text { data });
}

/// Whether the rule applies with the priority `rank` and declares the name.
pub open spec fn declares_at(rule: RuleView, kind: NodeKind, rank: nat, name: Seq<char>) -> bool {
    best_match(rule.selectors, kind) == Some(rank) && exists|e: int|
        0 <= e < rule.declarations.len() && (#[trigger] rule.declarations[e]).0 == name
}

/// If no rule declares the name at the priority `rank`, the declarations of
/// that priority do not hold the name.
proof fn lemma_declared_lacks(rules: Seq<RuleView>, kind: NodeKind, rank: nat, name: Seq<char>)
    requires
        forall|q: int| 0 <= q < rules.len() ==> !declares_at(#[trigger] rules[q], kind, rank, name),
    ensures
        !map_of(declared(rules, kind, rank)).contains_key(name),
    decreases rules.len(),
{
    if rules.len() > 0 {
        let front = rules.drop_last();
        let last = rules.last();
        assert forall|q: int| 0 <= q < front.len() implies !declares_at(
            #[trigger] front[q],
            kind,
            rank,
            name,
        ) by {
            assert(front[q] == rules[q]);
        }
        lemma_declared_lacks(front, kind, rank, name);
        if best_match(last.selectors, kind) == Some(rank) {
            assert(!declares_at(rules[rules.len() - 1], kind, rank, name));
            lemma_map_of_concat(declared(front, kind, rank), last.declarations);
            lemma_map_of_contains(last.declarations, name);
            lemma_position_of(last.declarations, name);
        }
    }
}

/// Within one priority the later rule wins, and within one rule the later
/// declaration.
proof fn lemma_declared_winner(
    rules: Seq<RuleView>,
    kind: NodeKind,
    rank: nat,
    r: int,
    d: int,
)
    requires
        0 <= r < rules.len(),
        best_match(rules[r].selectors, kind) == Some(rank),
        0 <= d < rules[r].declarations.len(),
        forall|e: int|
            d < e < rules[r].declarations.len() ==> (#[trigger] rules[r].declarations[e]).0
                != rules[r].declarations[d].0,
        forall|q: int|
            r < q < rules.len() ==> !declares_at(
                #[trigger] rules[q],
                kind,
                rank,
                rules[r].declarations[d].0,
            ),
    ensures
        map_of(declared(rules, kind, rank)).contains_key(rules[r].declarations[d].0),
        map_of(declared(rules, kind, rank))[rules[r].declarations[d].0]
            == rules[r].declarations[d].1,
    decreases rules.len(),
{
    let name = rules[r].declarations[d].0;
    let front = rules.drop_last();
    let last = rules.last();
    if r == rules.len() - 1 {
        lemma_map_of_concat(declared(front, kind, rank), last.declarations);
        lemma_map_of_last_occurrence(last.declarations, d);
    } else {
        assert(front[r] == rules[r]);
        assert forall|q: int| r < q < front.len() implies !declares_at(
            #[trigger] front[q],
            kind,
            rank,
            name,
        ) by {
            assert(front[q] == rules[q]);
        }
        lemma_declared_winner(front, kind, rank, r, d);
        if best_match(last.selectors, kind) == Some(rank) {
            assert(!declares_at(rules[rules.len() - 1], kind, rank, name));
            lemma_map_of_concat(declared(front, kind, rank), last.declarations);
            lemma_map_of_contains(last.declarations, name);
            lemma_position_of(last.declarations, name);
        }
    }
}

/// The cascade: a declaration decides its property unless a stronger one
/// names the same property. Stronger is, in this order, a declaration of a
/// rule that applies with a higher priority, wherever that rule stands; one
/// of a later rule of the same priority; a later one of the same rule.
pub proof fn lemma_cascade_winner(rules: Seq<RuleView>, kind: NodeKind, r: int, d: int)
    requires
        0 <= r < rules.len(),
        best_match(rules[r].selectors, kind) is Some,
        0 <= d < rules[r].declarations.len(),
        forall|e: int|
            d < e < rules[r].declarations.len() ==> (#[trigger] rules[r].declarations[e]).0
                != rules[r].declarations[d].0,
        forall|q: int|
            r < q < rules.len() ==> !declares_at(
                #[trigger] rules[q],
                kind,
                best_match(rules[r].selectors, kind).unwrap(),
                rules[r].declarations[d].0,
            ),
        forall|q: int, higher: nat|
            0 <= q < rules.len() && higher > best_match(rules[r].selectors, kind).unwrap()
                ==> !#[trigger] declares_at(rules[q], kind, higher, rules[r].declarations[d].0),
    ensures
        map_of(resolve(rules, kind)).contains_key(rules[r].declarations[d].0),
        map_of(resolve(rules, kind))[rules[r].declarations[d].0] == rules[r].declarations[d].1,
{
    let name = rules[r].declarations[d].0;
    let rank = best_match(rules[r].selectors, kind).unwrap();
    let low = declared(rules, kind, 0);
    let mid = declared(rules, kind, 1);
    let high = declared(rules, kind, 2);
    lemma_resolve_is_cascade(rules, kind);
    lemma_best_match(rules[r].selectors, kind);
    lemma_map_of_concat(low, mid);
    lemma_map_of_concat(low + mid, high);
    lemma_declared_winner(rules, kind, rank, r, d);
    if rank < 2 {
        lemma_declared_lacks(rules, kind, 2, name);
    }
    if rank < 1 {
        lemma_declared_lacks(rules, kind, 1, name);
    }
}

/// Tells whether the string is the given text.
fn is_text(s: &String, text: &str) -> (b: bool)
    ensures
        b == (s@ == text@),
{
    *s == String::from_str(text)
}

/// The display that the properties give.
pub fn display_of_properties(properties: &PropertyMap) -> (d: Display)
    ensures
        d == display_of(properties.pairs()),
{
    match properties.get("display") {
        Some(CSSValue::Keyword(keyword)) => {
            if is_text(keyword, "block") {
                Display::Block
            } else if is_text(keyword, "none") {
                Display::Hidden
            } else {
                Display::Inline
            }
        },
        None => Display::Inline,
    }
}

/// The resolved properties of the node under the stylesheet.
pub fn resolve_properties(node: &NodeType, stylesheet: &Stylesheet) -> (properties: PropertyMap)
    ensures
        properties.pairs() == resolve(stylesheet@, node@),
{
    let mut properties = PropertyMap::new();
    let ghost rules = stylesheet@;
    let ghost mut below: Seq<(Seq<char>, Seq<char>)> = Seq::empty();
    let mut rank: u8 = 0;
    while rank < 3
        invariant
            rank <= 3,
            rules == stylesheet@,
            properties.pairs() == put_all(Seq::empty(), below),
            below == if rank == 0 {
                Seq::empty()
            } else if rank == 1 {
                declared(rules, node@, 0)
            } else if rank == 2 {
                declared(rules, node@, 0) + declared(rules, node@, 1)
            } else {
                cascade(rules, node@)
            },
        decreases 3 - rank,
    {
        let mut i: usize = 0;
        proof {
            assert(rules.take(0) =~= Seq::<RuleView>::empty());
            assert(below + Seq::<(Seq<char>, Seq<char>)>::empty() =~= below);
        }
        while i < stylesheet.rules.len()
            invariant
                i <= stylesheet.rules.len(),
                rank < 3,
                rules == stylesheet@,
                properties.pairs() == put_all(
                    Seq::empty(),
                    below + declared(rules.take(i as int), node@, rank as nat),
                ),
            decreases stylesheet.rules.len() - i,
        {
            let rule = &stylesheet.rules[i];
            let ghost before = declared(rules.take(i as int), node@, rank as nat);
            proof {
                let next = rules.take(i + 1);
                assert(next.drop_last() =~= rules.take(i as int));
                assert(next.last() == rule@);
            }
            let applies = match rule.specificity_for(node) {
                Some(n) => n == rank,
                None => false,
            };
            if applies {
                let ghost declarations = rule@.declarations;
                let mut j: usize = 0;
                proof {
                    assert(declarations.take(0) =~= Seq::<(Seq<char>, Seq<char>)>::empty());
                    assert(below + before + declarations.take(0) =~= below + before);
                }
                while j < rule.declarations.len()
                    invariant
                        j <= rule.declarations.len(),
                        declarations == rule@.declarations,
                        declarations.len() == rule.declarations.len(),
                        properties.pairs() == put_all(
                            Seq::empty(),
                            below + before + declarations.take(j as int),
                        ),
                    decreases rule.declarations.len() - j,
                {
                    let declaration = &rule.declarations[j];
                    proof {
                        let sofar = below + before + declarations.take(j as int);
                        let next = below + before + declarations.take(j + 1);
                        assert(next.drop_last() =~= sofar);
                        assert(next.last() == declaration@);
                    }
                    properties.insert(declaration.name.clone(), declaration.value.clone());
                    j += 1;
                }
                proof {
                    assert(declarations.take(j as int) =~= declarations);
                    assert(below + before + declarations =~= below + (before + declarations));
                }
            }
            i += 1;
        }
        proof {
            assert(rules.take(i as int) =~= rules);
            below = below + declared(rules, node@, rank as nat);
            assert(Seq::<(Seq<char>, Seq<char>)>::empty() + declared(rules, node@, 0)
                =~= declared(rules, node@, 0));
        }
        rank += 1;
    }
    properties
}

impl<'a> StyledNode<'a> {
    /// The node's display.
    pub fn display(&self) -> (d: Display)
        ensures
            d == display_of(self@.properties),
    {
        display_of_properties(&self.properties)
    }
}

/// The styled node of a document node under the stylesheet, or nothing where
/// the node's display is `none`. What is returned holds no node with that
/// display.
pub fn to_styled_node<'a>(node: &'a Box<Node>, stylesheet: &Stylesheet) -> (r: Option<
    StyledNode<'a>,
>)
    ensures
        match r {
            Some(s) => styled(node@, stylesheet@) == Some(s@) && all_shown(s@),
            None => styled(node@, stylesheet@) is None,
        },
    decreases node,
{
    let properties = resolve_properties(&node.node_type, stylesheet);
    match display_of_properties(&properties) {
        Display::Hidden => {
            return None;
        },
        _ => {},
    }
    let ghost trees = node@.children;
    let ghost rules = stylesheet@;
    proof {
        lemma_trees_of(node.children@);
        assert(trees.take(0) =~= Seq::<Tree>::empty());
    }
    let mut children: Vec<StyledNode<'a>> = Vec::new();
    let mut i: usize = 0;
    while i < node.children.len()
        invariant
            i <= node.children.len(),
            rules == stylesheet@,
            trees == node@.children,
            trees.len() == node.children.len(),
            forall|j: int| 0 <= j < trees.len() ==> (#[trigger] trees[j]) == node.children@[j]@,
            styled_trees_of(children@) == styled_all(trees.take(i as int), rules),
        decreases node.children.len() - i,
    {
        let ghost before = children@;
        proof {
            let next = trees.take(i + 1);
            assert(next.drop_last() =~= trees.take(i as int));
            assert(next.last() == trees[i as int]);
        }
        match to_styled_node(&node.children[i], stylesheet) {
            Some(child) => {
                children.push(child);
                assert(children@.drop_last() =~= before);
            },
            None => {},
        }
        i += 1;
    }
    proof {
        assert(trees.take(i as int) =~= trees);
        lemma_styled_all_shown(node@, rules);
    }
    Some(StyledNode { node_type: &node.node_type, children, properties })
}

} // verus!
