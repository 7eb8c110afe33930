//! Markup: reading a text as nodes.
//!
//! The markup that is read is the markup that `Node::to_string` writes: an
//! element is `<name>`, its children and `</name>`, with attributes as
//! ` name="value"` behind the name; everything between tags is text, kept as
//! it is. Nothing is escaped, so a text cannot hold `<` and a value cannot
//! hold `"`.

use crate::dom::{
    attribute_markup, attributes_markup, markup_of, markup_of_all, trees_of, AttrMap, Element,
    Node, NodeKind, Text, Tree,
};
use crate::error::ParseError;
use crate::string_map::{keys_distinct, lemma_position_of, position_of, put_all, views_of};
use crate::text::{chars_of, in_class, is_name_char, run_len, scan, string_of, Class};
use vstd::prelude::*;

verus! {

/// The attributes at the start of the text, each written as a space, a name,
/// `="`, a value and `"`, together with what follows them in the text.
/// Nothing where what follows a space is not an attribute.
pub open spec fn parse_attributes(s: Seq<char>) -> Option<
    (Seq<(Seq<char>, Seq<char>)>, Seq<char>),
>
    decreases s.len(),
{
    if s.len() > 0 && s[0] == ' ' {
        let n = run_len(s.skip(1), Class::Name) as int;
        let sign = 1 + n;
        let v = run_len(s.skip(sign + 2), Class::Value) as int;
        let quote = sign + 2 + v;
        if n == 0 || !(sign + 1 < s.len() && s[sign] == '=' && s[sign + 1] == '"') || !(quote
            < s.len()) {
            None
        } else {
            match parse_attributes(s.skip(quote + 1)) {
                Some((more, rest)) => Some(
                    (seq![(s.subrange(1, sign), s.subrange(sign + 2, quote))] + more, rest),
                ),
                None => None,
            }
        }
    } else {
        Some((Seq::empty(), s))
    }
}

/// The closing tag of an element with the given name.
pub open spec fn closing_tag(name: Seq<char>) -> Seq<char> {
    seq!['<', '/'] + name + seq!['>']
}

/// A text node of the model.
pub open spec fn text_tree(data: Seq<char>) -> Tree {
    Tree { kind: NodeKind::Text { data }, children: Seq::empty() }
}

/// The nodes at the start of the text, up to its end or to a closing tag,
/// together with what follows them. Nothing where an element among them is
/// malformed.
pub open spec fn parse_nodes(s: Seq<char>) -> Option<(Seq<Tree>, Seq<char>)>
    decreases s.len(), 1int,
{
    if s.len() == 0 {
        Some((Seq::empty(), s))
    } else if s[0] == '<' {
        if s.len() >= 2 && s[1] == '/' {
            Some((Seq::empty(), s))
        } else {
            match parse_element(s) {
                Some((tree, rest)) => if rest.len() < s.len() {
                    match parse_nodes(rest) {
                        Some((more, end)) => Some((seq![tree] + more, end)),
                        None => None,
                    }
                } else {
                    None
                },
                None => None,
            }
        }
    } else {
        let n = run_len(s, Class::Text);
        if 0 < n <= s.len() {
            match parse_nodes(s.skip(n as int)) {
                Some((more, end)) => Some((seq![text_tree(s.take(n as int))] + more, end)),
                None => None,
            }
        } else {
            None
        }
    }
}

/// The element at the start of a text that begins with `<`, together with
/// what follows it. Nothing where the text does not begin with a whole
/// element: a tag with a name and attributes, nodes, and the closing tag with
/// the same name.
pub open spec fn parse_element(s: Seq<char>) -> Option<(Tree, Seq<char>)>
    decreases s.len(), 0int,
{
    let n = run_len(s.skip(1), Class::Name) as int;
    let name = s.subrange(1, 1 + n);
    if s.len() == 0 || n == 0 || 1 + n > s.len() {
        None
    } else {
        match parse_attributes(s.skip(1 + n)) {
            Some((attributes, rest)) => {
                if rest.len() > 0 && rest[0] == '>' && rest.len() - 1 < s.len() {
                    match parse_nodes(rest.skip(1)) {
                        Some((children, end)) => {
                            if crate::text::starts_with(end, closing_tag(name)) {
                                Some(
                                    (
                                        Tree {
                                            kind: NodeKind::Element {
                                                tag_name: name,
                                                attributes: put_all(Seq::empty(), attributes),
                                            },
                                            children,
                                        },
                                        end.skip(closing_tag(name).len() as int),
                                    ),
                                )
                            } else {
                                None
                            }
                        },
                        None => None,
                    }
                } else {
                    None
                }
            },
            None => None,
        }
    }
}

/// The nodes that the whole text is the markup of, or nothing where it is
/// the markup of none.
pub open spec fn parse_fragment(s: Seq<char>) -> Option<Seq<Tree>> {
    match parse_nodes(s) {
        Some((trees, rest)) => if rest.len() == 0 {
            Some(trees)
        } else {
            None
        },
        None => None,
    }
}

/// The document that the text is the markup of: the one element that the
/// whole text is.
pub open spec fn parse_document(s: Seq<char>) -> Option<Tree> {
    match parse_fragment(s) {
        Some(trees) => if trees.len() == 1 && trees[0].kind is Element {
            Some(trees[0])
        } else {
            None
        },
        None => None,
    }
}

/// Reads the attributes that start at `pos`, appends them to `out`, and
/// gives the place behind them.
fn read_attributes(s: &Vec<char>, pos: usize, out: &mut Vec<(String, String)>) -> (r: Option<
    usize,
>)
    requires
        pos <= s.len(),
    ensures
        match r {
            Some(end) => {
                &&& pos <= end <= s.len()
                &&& parse_attributes(s@.skip(pos as int)) matches Some((list, rest))
                &&& rest == s@.skip(end as int)
                &&& views_of(final(out)@) == views_of(old(out)@) + list
            },
            None => parse_attributes(s@.skip(pos as int)) is None,
        },
    decreases s.len() - pos,
{
    let ghost here = s@.skip(pos as int);
    if pos < s.len() && s[pos] == ' ' {
        let name_end = scan(s, pos + 1, Class::Name);
        proof {
            assert(here[0] == s@[pos as int]);
            assert(here.skip(1) =~= s@.skip(pos + 1));
        }
        if name_end == pos + 1 {
            return None;
        }
        if !(name_end < s.len() - 1 && s[name_end] == '=' && s[name_end + 1] == '"') {
            proof {
                if name_end + 1 < s.len() {
                    assert(here[name_end - pos] == s@[name_end as int]);
                    assert(here[name_end - pos + 1] == s@[name_end + 1]);
                }
            }
            return None;
        }
        let value_end = scan(s, name_end + 2, Class::Value);
        proof {
            assert(here[name_end - pos] == s@[name_end as int]);
            assert(here[name_end - pos + 1] == s@[name_end + 1]);
            assert(here.skip(name_end - pos + 2) =~= s@.skip(name_end + 2));
        }
        if value_end >= s.len() {
            return None;
        }
        let name = string_of(s, pos + 1, name_end);
        let value = string_of(s, name_end + 2, value_end);
        let ghost before = views_of(out@);
        out.push((name, value));
        proof {
            assert(here.skip(value_end - pos + 1) =~= s@.skip(value_end + 1));
            assert(here.subrange(1, name_end - pos) =~= name@);
            assert(here.subrange(name_end - pos + 2, value_end - pos) =~= value@);
            assert(views_of(out@) =~= before.push((name@, value@)));
        }
        let r = read_attributes(s, value_end + 1, out);
        proof {
            if r is Some {
                let more = parse_attributes(s@.skip(value_end + 1)).unwrap().0;
                assert(before.push((name@, value@)) + more =~= before + (seq![(name@, value@)]
                    + more));
            }
        }
        r
    } else {
        proof {
            if pos < s.len() {
                assert(here[0] == s@[pos as int]);
            }
            assert(views_of(out@) + Seq::<(Seq<char>, Seq<char>)>::empty() =~= views_of(out@));
        }
        Some(pos)
    }
}

/// Tells whether the closing tag with the name at `name_from..name_to` stands
/// at `at`.
fn closes_at(s: &Vec<char>, at: usize, name_from: usize, name_to: usize) -> (b: bool)
    requires
        at <= s.len(),
        name_from <= name_to <= s.len(),
    ensures
        b == crate::text::starts_with(
            s@.skip(at as int),
            closing_tag(s@.subrange(name_from as int, name_to as int)),
        ),
{
    let n = name_to - name_from;
    let ghost here = s@.skip(at as int);
    let ghost tag = closing_tag(s@.subrange(name_from as int, name_to as int));
    if s.len() - at < 3 || s.len() - at - 3 < n {
        return false;
    }
    if s[at] != '<' || s[at + 1] != '/' || s[at + 2 + n] != '>' {
        proof {
            assert(here.take(tag.len() as int)[0] == s@[at as int]);
            assert(here.take(tag.len() as int)[1] == s@[at + 1]);
            assert(here.take(tag.len() as int)[2 + n] == s@[at + 2 + n]);
        }
        return false;
    }
    let mut i: usize = 0;
    proof {
        assert(s@.subrange(at + 2, at + 2) =~= s@.subrange(name_from as int, name_from as int));
    }
    while i < n
        invariant
            i <= n,
            n == name_to - name_from,
            name_to <= s.len(),
            at + 3 + n <= s.len(),
            here == s@.skip(at as int),
            tag == closing_tag(s@.subrange(name_from as int, name_to as int)),
            s@.subrange(at + 2, at + 2 + i) == s@.subrange(name_from as int, name_from + i),
        decreases n - i,
    {
        if s[at + 2 + i] != s[name_from + i] {
            proof {
                assert(here.take(tag.len() as int)[2 + i] == s@[at + 2 + i]);
                assert(tag[2 + i] == s@[name_from + i]);
            }
            return false;
        }
        proof {
            assert(s@.subrange(at + 2, at + 2 + i + 1) =~= s@.subrange(at + 2, at + 2 + i).push(
                s@[at + 2 + i],
            ));
            assert(s@.subrange(name_from as int, name_from + i + 1) =~= s@.subrange(
                name_from as int,
                name_from + i,
            ).push(s@[name_from + i]));
        }
        i += 1;
    }
    proof {
        assert forall|j: int| 0 <= j < tag.len() implies here.take(tag.len() as int)[j]
            == tag[j] by {
            if 2 <= j < 2 + n {
                assert(s@.subrange(at + 2, at + 2 + n)[j - 2] == s@.subrange(
                    name_from as int,
                    name_from + n,
                )[j - 2]);
            }
        }
        assert(here.take(tag.len() as int) =~= tag);
    }
    true
}

/// What the parse gives when `before` stands in front of its nodes.
spec fn with_front(before: Seq<Tree>, parsed: Option<(Seq<Tree>, Seq<char>)>) -> Option<
    (Seq<Tree>, Seq<char>),
> {
    match parsed {
        Some((more, rest)) => Some((before + more, rest)),
        None => None,
    }
}

/// Reads the nodes that start at `pos`, up to the end of the text or to a
/// closing tag, appends them to `out`, and gives the place behind them.
fn read_nodes(s: &Vec<char>, pos: usize, out: &mut Vec<Box<Node>>) -> (r: Option<usize>)
    requires
        pos <= s.len(),
    ensures
        match r {
            Some(end) => {
                &&& pos <= end <= s.len()
                &&& parse_nodes(s@.skip(pos as int)) matches Some((trees, rest))
                &&& rest == s@.skip(end as int)
                &&& trees_of(final(out)@) == trees_of(old(out)@) + trees
            },
            None => parse_nodes(s@.skip(pos as int)) is None,
        },
    decreases s.len() - pos, 1int,
{
    let ghost start = trees_of(out@);
    let ghost whole = parse_nodes(s@.skip(pos as int));
    let ghost mut read: Seq<Tree> = Seq::empty();
    let mut at: usize = pos;
    proof {
        match whole {
            Some((more, rest)) => {
                assert(read + more =~= more);
            },
            None => {},
        }
        assert(start + read =~= start);
    }
    loop
        invariant
            pos <= at <= s.len(),
            whole == parse_nodes(s@.skip(pos as int)),
            whole == with_front(read, parse_nodes(s@.skip(at as int))),
            trees_of(out@) == start + read,
            start == trees_of(old(out)@),
        decreases s.len() - at,
    {
        let ghost here = s@.skip(at as int);
        if at == s.len() {
            proof {
                assert(read + Seq::<Tree>::empty() =~= read);
            }
            return Some(at);
        }
        proof {
            assert(here[0] == s@[at as int]);
        }
        if s[at] == '<' {
            if at + 1 < s.len() && s[at + 1] == '/' {
                proof {
                    assert(here[1] == s@[at + 1]);
                    assert(read + Seq::<Tree>::empty() =~= read);
                }
                return Some(at);
            }
            proof {
                if at + 1 < s.len() {
                    assert(here[1] == s@[at + 1]);
                }
            }
            match read_element(s, at) {
                Some((node, next)) => {
                    let ghost tree = node@;
                    let ghost before = out@;
                    out.push(node);
                    proof {
                        assert(out@.drop_last() =~= before);
                        match parse_nodes(s@.skip(next as int)) {
                            Some((more, rest)) => {
                                assert(read + (seq![tree] + more) =~= read.push(tree) + more);
                            },
                            None => {},
                        }
                        assert(start + read.push(tree) =~= (start + read).push(tree));
                        read = read.push(tree);
                    }
                    at = next;
                },
                None => {
                    return None;
                },
            }
        } else {
            let next = scan(s, at, Class::Text);
            proof {
                assert(next > at);
            }
            let text = string_of(s, at, next);
            let node = Text::new(text);
            let ghost tree = node@;
            let ghost before = out@;
            out.push(node);
            proof {
                assert(here.take(next - at) =~= s@.subrange(at as int, next as int));
                assert(here.skip(next - at) =~= s@.skip(next as int));
                assert(tree == text_tree(here.take(next - at)));
                assert(out@.drop_last() =~= before);
                match parse_nodes(s@.skip(next as int)) {
                    Some((more, rest)) => {
                        assert(read + (seq![tree] + more) =~= read.push(tree) + more);
                    },
                    None => {},
                }
                assert(start + read.push(tree) =~= (start + read).push(tree));
                read = read.push(tree);
            }
            at = next;
        }
    }
}

/// Reads the element that starts at `pos`, and gives it with the place
/// behind it.
fn read_element(s: &Vec<char>, pos: usize) -> (r: Option<(Box<Node>, usize)>)
    requires
        pos < s.len(),
        s@[pos as int] == '<',
    ensures
        match r {
            Some((node, end)) => {
                &&& pos < end <= s.len()
                &&& parse_element(s@.skip(pos as int)) == Some((node@, s@.skip(end as int)))
            },
            None => parse_element(s@.skip(pos as int)) is None,
        },
    decreases s.len() - pos, 0int,
{
    let ghost here = s@.skip(pos as int);
    let name_end = scan(s, pos + 1, Class::Name);
    proof {
        assert(here.skip(1) =~= s@.skip(pos + 1));
        assert(here.skip(name_end - pos) =~= s@.skip(name_end as int));
    }
    if name_end == pos + 1 {
        return None;
    }
    let mut list: Vec<(String, String)> = Vec::new();
    let tag_end = match read_attributes(s, name_end, &mut list) {
        Some(end) => end,
        None => {
            return None;
        },
    };
    let ghost attributes = parse_attributes(s@.skip(name_end as int)).unwrap().0;
    proof {
        assert(views_of(Seq::<(String, String)>::empty()) + attributes =~= attributes);
        if tag_end < s.len() {
            assert(s@.skip(tag_end as int)[0] == s@[tag_end as int]);
            assert(s@.skip(tag_end as int).skip(1) =~= s@.skip(tag_end + 1));
        }
    }
    if !(tag_end < s.len() && s[tag_end] == '>') {
        return None;
    }
    let mut children: Vec<Box<Node>> = Vec::new();
    let inner_end = match read_nodes(s, tag_end + 1, &mut children) {
        Some(end) => end,
        None => {
            return None;
        },
    };
    let ghost trees = parse_nodes(s@.skip(tag_end + 1)).unwrap().0;
    proof {
        assert(trees_of(Seq::<Box<Node>>::empty()) + trees =~= trees);
        assert(here.subrange(1, name_end - pos) =~= s@.subrange(pos + 1, name_end as int));
    }
    if !closes_at(s, inner_end, pos + 1, name_end) {
        return None;
    }
    let name = string_of(s, pos + 1, name_end);
    let end = inner_end + 3 + (name_end - pos - 1);
    proof {
        assert(closing_tag(name@).len() == 3 + (name_end - pos - 1));
        assert(s@.skip(inner_end as int).skip(closing_tag(name@).len() as int) =~= s@.skip(
            end as int,
        ));
    }
    let node = Element::new(name, AttrMap::from_entries(list), children);
    Some((node, end))
}

/// Reads the whole text as nodes.
pub fn parse_raw(source: &str) -> (r: Result<Vec<Box<Node>>, ParseError>)
    ensures
        match r {
            Ok(nodes) => parse_fragment(source@) == Some(trees_of(nodes@)),
            Err(e) => e == ParseError::Markup && parse_fragment(source@) is None,
        },
{
    let s = chars_of(source);
    let mut nodes: Vec<Box<Node>> = Vec::new();
    proof {
        assert(s@.skip(0) =~= s@);
    }
    match read_nodes(&s, 0, &mut nodes) {
        Some(end) => {
            proof {
                let trees = parse_nodes(s@).unwrap().0;
                assert(trees_of(Seq::<Box<Node>>::empty()) + trees =~= trees);
            }
            if end == s.len() {
                Ok(nodes)
            } else {
                Err(ParseError::Markup)
            }
        },
        None => Err(ParseError::Markup),
    }
}

/// Reads the whole text as a document: as one element.
pub fn parse(source: &str) -> (r: Result<Box<Node>, ParseError>)
    ensures
        match r {
            Ok(node) => parse_document(source@) == Some(node@),
            Err(e) => e == ParseError::Markup && parse_document(source@) is None,
        },
{
    match parse_raw(source) {
        Ok(mut nodes) => {
            proof {
                crate::dom::lemma_trees_of(nodes@);
            }
            if nodes.len() != 1 {
                return Err(ParseError::Markup);
            }
            let node = nodes.pop().unwrap();
            match &node.node_type {
                crate::dom::NodeType::Element(_) => Ok(node),
                crate::dom::NodeType::Text(_) => Err(ParseError::Markup),
            }
        },
        Err(e) => Err(e),
    }
}

/// Whether every character of the text may stand in a run of the class.
pub open spec fn all_in_class(s: Seq<char>, class: Class) -> bool {
    forall|i: int| 0 <= i < s.len() ==> in_class(#[trigger] s[i], class)
}

/// Whether the attributes can be written and read again: no name twice,
/// every name a name, no value with `"` in it.
pub open spec fn writable_attributes(attributes: Seq<(Seq<char>, Seq<char>)>) -> bool {
    &&& keys_distinct(attributes)
    &&& forall|i: int|
        0 <= i < attributes.len() ==> {
            &&& (#[trigger] attributes[i]).0.len() > 0
            &&& all_in_class(attributes[i].0, Class::Name)
            &&& all_in_class(attributes[i].1, Class::Value)
        }
}

/// Whether the tree can be written and read again. A text node has text
/// without `<`, not empty, and no children; an element has a name for its
/// tag, attributes that can be written, and children that can be written.
pub open spec fn writable(tree: Tree) -> bool
    decreases tree,
{
    match tree.kind {
        NodeKind::Text { data } => data.len() > 0 && all_in_class(data, Class::Text)
            && tree.children.len() == 0,
        NodeKind::Element { tag_name, attributes } => tag_name.len() > 0 && all_in_class(
            tag_name,
            Class::Name,
        ) && writable_attributes(attributes) && writable_all(tree.children),
    }
}

/// Whether the trees can be written one after the other and read again: each
/// of them can, and no text node stands next to another.
pub open spec fn writable_all(trees: Seq<Tree>) -> bool
    decreases trees,
{
    &&& forall|i: int| 0 <= i < trees.len() ==> writable(#[trigger] trees[i])
    &&& forall|i: int, j: int|
        0 <= i && j == i + 1 && j < trees.len() ==> !((#[trigger] trees[i]).kind is Text && (
        #[trigger] trees[j]).kind is Text)
}

/// One attribute as it stands in a tag, with the space in front of it.
pub open spec fn attribute_text(attribute: (Seq<char>, Seq<char>)) -> Seq<char> {
    seq![' '] + attribute.0 + seq!['=', '"'] + attribute.1 + seq!['"']
}

/// The attributes as they stand in a tag, each with a space in front of it.
pub open spec fn attributes_text(attributes: Seq<(Seq<char>, Seq<char>)>) -> Seq<char>
    decreases attributes.len(),
{
    if attributes.len() == 0 {
        Seq::empty()
    } else {
        attribute_text(attributes[0]) + attributes_text(attributes.skip(1))
    }
}

/// What the literals of the markup hold.
proof fn lemma_literals()
    ensures
        "<"@ == seq!['<'],
        ">"@ == seq!['>'],
        "</"@ == seq!['<', '/'],
        " "@ == seq![' '],
        "=\""@ == seq!['=', '"'],
        "\""@ == seq!['"'],
{
    reveal_strlit("<");
    reveal_strlit(">");
    reveal_strlit("</");
    reveal_strlit(" ");
    reveal_strlit("=\"");
    reveal_strlit("\"");
    assert("<"@ =~= seq!['<']);
    assert(">"@ =~= seq!['>']);
    assert("</"@ =~= seq!['<', '/']);
    assert(" "@ =~= seq![' ']);
    assert("=\""@ =~= seq!['=', '"']);
    assert("\""@ =~= seq!['"']);
}

/// A run of the class that is followed by the end of the text, or by a
/// character that is not of the class, is read whole and no further.
proof fn lemma_run_of(run: Seq<char>, rest: Seq<char>, class: Class)
    requires
        all_in_class(run, class),
        rest.len() == 0 || !in_class(rest[0], class),
    ensures
        run_len(run + rest, class) == run.len(),
    decreases run.len(),
{
    if run.len() == 0 {
        assert(run + rest =~= rest);
    } else {
        assert((run + rest)[0] == run[0]);
        assert((run + rest).skip(1) =~= run.skip(1) + rest);
        assert(all_in_class(run.skip(1), class)) by {
            assert forall|i: int| 0 <= i < run.skip(1).len() implies in_class(
                #[trigger] run.skip(1)[i],
                class,
            ) by {
                assert(run.skip(1)[i] == run[i + 1]);
            }
        }
        lemma_run_of(run.skip(1), rest, class);
    }
}

/// The attributes of a tag are read as they were written.
proof fn lemma_parse_attributes(attributes: Seq<(Seq<char>, Seq<char>)>, rest: Seq<char>)
    requires
        writable_attributes(attributes),
        rest.len() == 0 || rest[0] != ' ',
    ensures
        parse_attributes(attributes_text(attributes) + rest) == Some((attributes, rest)),
    decreases attributes.len(),
{
    let s = attributes_text(attributes) + rest;
    if attributes.len() == 0 {
        assert(s =~= rest);
    } else {
        let name = attributes[0].0;
        let value = attributes[0].1;
        let tail = attributes.skip(1);
        let after = attributes_text(tail) + rest;
        assert(s =~= seq![' '] + name + seq!['=', '"'] + value + seq!['"'] + after);
        assert(s[0] == ' ');
        assert(s.skip(1) =~= name + (seq!['=', '"'] + value + seq!['"'] + after));
        lemma_run_of(name, seq!['=', '"'] + value + seq!['"'] + after, Class::Name);
        let sign: int = 1 + name.len() as int;
        assert(s[sign] == '=');
        assert(s[sign + 1] == '"');
        assert(s.skip(sign + 2) =~= value + (seq!['"'] + after));
        lemma_run_of(value, seq!['"'] + after, Class::Value);
        let quote: int = sign + 2 + value.len() as int;
        assert(s[quote] == '"');
        assert(s.skip(quote + 1) =~= after);
        assert(s.subrange(1, sign) =~= name);
        assert(s.subrange(sign + 2, quote) =~= value);
        assert(writable_attributes(tail)) by {
            assert forall|i: int| 0 <= i < tail.len() implies (#[trigger] tail[i]).0.len() > 0
                && all_in_class(tail[i].0, Class::Name) && all_in_class(
                tail[i].1,
                Class::Value,
            ) by {
                assert(tail[i] == attributes[i + 1]);
            }
            assert forall|i: int, j: int| 0 <= i < j < tail.len() implies (#[trigger] tail[i]).0
                != (#[trigger] tail[j]).0 by {
                assert(tail[i] == attributes[i + 1]);
                assert(tail[j] == attributes[j + 1]);
            }
        }
        lemma_parse_attributes(tail, rest);
        assert(seq![(name, value)] + tail =~= attributes);
    }
}

/// The attributes with one more behind them.
proof fn lemma_attributes_text_push(
    attributes: Seq<(Seq<char>, Seq<char>)>,
    last: (Seq<char>, Seq<char>),
)
    ensures
        attributes_text(attributes.push(last)) == attributes_text(attributes) + attribute_text(
            last,
        ),
    decreases attributes.len(),
{
    let all = attributes.push(last);
    if attributes.len() == 0 {
        assert(all.skip(1) =~= Seq::<(Seq<char>, Seq<char>)>::empty());
        assert(attributes_text(all.skip(1)) =~= Seq::<char>::empty());
        assert(all[0] == last);
        assert(attributes_text(all) =~= attribute_text(last));
        assert(attributes_text(attributes) + attribute_text(last) =~= attribute_text(last));
    } else {
        assert(all.skip(1) =~= attributes.skip(1).push(last));
        assert(all[0] == attributes[0]);
        lemma_attributes_text_push(attributes.skip(1), last);
        assert(attribute_text(attributes[0]) + (attributes_text(attributes.skip(1))
            + attribute_text(last)) =~= attribute_text(attributes[0]) + attributes_text(
            attributes.skip(1),
        ) + attribute_text(last));
    }
}

/// The attributes as a tag holds them are the attributes as they are
/// written, with a space in front.
proof fn lemma_attributes_markup(attributes: Seq<(Seq<char>, Seq<char>)>)
    requires
        attributes.len() > 0,
    ensures
        seq![' '] + attributes_markup(attributes) == attributes_text(attributes),
    decreases attributes.len(),
{
    lemma_literals();
    let last = attributes.last();
    assert(attribute_text(last) =~= seq![' '] + attribute_markup(last));
    if attributes.len() == 1 {
        assert(attributes.skip(1) =~= Seq::<(Seq<char>, Seq<char>)>::empty());
        assert(attributes_text(attributes.skip(1)) =~= Seq::<char>::empty());
        assert(attributes_text(attributes) =~= attribute_text(attributes[0]));
    } else {
        let front = attributes.drop_last();
        lemma_attributes_markup(front);
        lemma_attributes_text_push(front, last);
        assert(front.push(last) =~= attributes);
        assert(seq![' '] + (attributes_markup(front) + seq![' '] + attribute_markup(last)) =~= (
        seq![' '] + attributes_markup(front)) + (seq![' '] + attribute_markup(last)));
    }
}

/// The markup of a list of trees is the markup of the first and then the
/// markup of the others.
proof fn lemma_markup_of_all_front(trees: Seq<Tree>)
    requires
        trees.len() > 0,
    ensures
        markup_of_all(trees) == markup_of(trees[0]) + markup_of_all(trees.skip(1)),
    decreases trees.len(),
{
    if trees.len() == 1 {
        assert(trees.drop_last() =~= Seq::<Tree>::empty());
        assert(trees.skip(1) =~= Seq::<Tree>::empty());
        assert(markup_of_all(trees.drop_last()) =~= Seq::<char>::empty());
        assert(markup_of_all(trees) =~= markup_of(trees[0]));
        assert(markup_of(trees[0]) + markup_of_all(trees.skip(1)) =~= markup_of(trees[0]));
    } else {
        let front = trees.drop_last();
        lemma_markup_of_all_front(front);
        assert(front[0] == trees[0]);
        assert(trees.skip(1).drop_last() =~= front.skip(1));
        assert(trees.skip(1).last() == trees.last());
        assert(markup_of(trees[0]) + markup_of_all(front.skip(1)) + markup_of(trees.last())
            =~= markup_of(trees[0]) + (markup_of_all(front.skip(1)) + markup_of(trees.last())));
    }
}

/// Putting pairs with distinct keys into a list appends them.
proof fn lemma_put_all_distinct(
    acc: Seq<(Seq<char>, Seq<char>)>,
    pairs: Seq<(Seq<char>, Seq<char>)>,
)
    requires
        keys_distinct(acc + pairs),
    ensures
        put_all(acc, pairs) == acc + pairs,
    decreases pairs.len(),
{
    if pairs.len() == 0 {
        assert(acc + pairs =~= acc);
    } else {
        let front = pairs.drop_last();
        let last = pairs.last();
        let whole = acc + pairs;
        assert(keys_distinct(acc + front)) by {
            assert forall|i: int, j: int| 0 <= i < j < (acc + front).len() implies (#[trigger] (acc
                + front)[i]).0 != (#[trigger] (acc + front)[j]).0 by {
                assert((acc + front)[i] == whole[i]);
                assert((acc + front)[j] == whole[j]);
            }
        }
        lemma_put_all_distinct(acc, front);
        lemma_position_of(acc + front, last.0);
        if position_of(acc + front, last.0) is Some {
            let i = position_of(acc + front, last.0).unwrap();
            assert((acc + front)[i] == whole[i]);
            assert(whole[whole.len() - 1] == last);
        }
        assert((acc + front).push(last) =~= acc + pairs);
    }
}

/// The markup of an element, part by part.
proof fn lemma_markup_of_element(tree: Tree)
    requires
        tree.kind is Element,
    ensures
        markup_of(tree) == seq!['<'] + tree.kind->tag_name + attributes_text(
            tree.kind->attributes,
        ) + seq!['>'] + markup_of_all(tree.children) + closing_tag(tree.kind->tag_name),
{
    lemma_literals();
    let name = tree.kind->tag_name;
    let attributes = tree.kind->attributes;
    let inner = markup_of_all(tree.children);
    if attributes.len() == 0 {
        assert(markup_of(tree) =~= seq!['<'] + name + attributes_text(attributes) + seq!['>']
            + inner + closing_tag(name));
    } else {
        lemma_attributes_markup(attributes);
        assert(markup_of(tree) =~= seq!['<'] + name + (seq![' '] + attributes_markup(attributes))
            + seq!['>'] + inner + closing_tag(name));
    }
}

/// The start of an element's markup: the tag's name is read whole, and the
/// attributes follow it.
proof fn lemma_element_head(tree: Tree, rest: Seq<char>)
    requires
        writable(tree),
        tree.kind is Element,
    ensures
        ({
            let s = markup_of(tree) + rest;
            let name = tree.kind->tag_name;
            let n = name.len() as int;
            &&& n > 0
            &&& s.len() > 1 + n
            &&& s[0] == '<'
            &&& s[1] == name[0]
            &&& run_len(s.skip(1), Class::Name) == n
            &&& s.subrange(1, 1 + n) == name
            &&& s.skip(1 + n) == attributes_text(tree.kind->attributes) + (seq!['>']
                + markup_of_all(tree.children) + (closing_tag(name) + rest))
        }),
{
    let name = tree.kind->tag_name;
    let attributes = tree.kind->attributes;
    let s = markup_of(tree) + rest;
    let after_tag = seq!['>'] + markup_of_all(tree.children) + (closing_tag(name) + rest);
    let after_name = attributes_text(attributes) + after_tag;
    lemma_markup_of_element(tree);
    assert(s =~= seq!['<'] + name + after_name);
    assert(s.skip(1) =~= name + after_name);
    assert(after_name.len() > 0 && !is_name_char(after_name[0])) by {
        if attributes.len() == 0 {
            assert(after_name =~= after_tag);
        } else {
            assert(after_name[0] == attribute_text(attributes[0])[0]);
        }
    }
    lemma_run_of(name, after_name, Class::Name);
    let n = name.len() as int;
    assert(s.subrange(1, 1 + n) =~= name);
    assert(s.skip(1 + n) =~= after_name);
}

/// An element that can be written is read as it was written, whatever
/// follows it.
#[verifier::spinoff_prover]
#[verifier::rlimit(40)]
pub proof fn lemma_parse_element(tree: Tree, rest: Seq<char>)
    requires
        writable(tree),
        tree.kind is Element,
    ensures
        parse_element(markup_of(tree) + rest) == Some((tree, rest)),
    decreases tree, 0int,
{
    let name = tree.kind->tag_name;
    let attributes = tree.kind->attributes;
    let inner = markup_of_all(tree.children);
    let s = markup_of(tree) + rest;
    let close = closing_tag(name) + rest;
    let after_tag = seq!['>'] + inner + close;
    let n = name.len() as int;
    lemma_element_head(tree, rest);
    assert(parse_attributes(s.skip(1 + n)) == Some((attributes, after_tag))) by {
        assert(after_tag[0] == '>');
        lemma_parse_attributes(attributes, after_tag);
    }
    assert(after_tag.len() > 0 && after_tag[0] == '>' && after_tag.len() - 1 < s.len());
    assert(parse_nodes(after_tag.skip(1)) == Some((tree.children, close))) by {
        assert(after_tag.skip(1) =~= inner + close);
        assert(close.len() >= 2 && close[0] == '<' && close[1] == '/');
        lemma_parse_nodes(tree.children, close);
    }
    assert(crate::text::starts_with(close, closing_tag(name)) && close.skip(
        closing_tag(name).len() as int,
    ) == rest) by {
        assert(close.take(closing_tag(name).len() as int) =~= closing_tag(name));
        assert(close.skip(closing_tag(name).len() as int) =~= rest);
    }
    assert(put_all(Seq::empty(), attributes) == attributes) by {
        assert(Seq::<(Seq<char>, Seq<char>)>::empty() + attributes =~= attributes);
        lemma_put_all_distinct(Seq::empty(), attributes);
    }
    assert(tree == (Tree {
        kind: NodeKind::Element { tag_name: name, attributes },
        children: tree.children,
    }));
}

/// Nodes that can be written are read as they were written, up to the end
/// of the text or to the closing tag that follows them.
pub proof fn lemma_parse_nodes(trees: Seq<Tree>, rest: Seq<char>)
    requires
        writable_all(trees),
        rest.len() == 0 || (rest.len() >= 2 && rest[0] == '<' && rest[1] == '/'),
    ensures
        parse_nodes(markup_of_all(trees) + rest) == Some((trees, rest)),
    decreases trees, 1int,
{
    let s = markup_of_all(trees) + rest;
    if trees.len() == 0 {
        assert(s =~= rest);
    } else {
        let first = trees[0];
        let tail = trees.skip(1);
        let after = markup_of_all(tail) + rest;
        lemma_markup_of_all_front(trees);
        assert(s =~= markup_of(first) + after);
        assert(writable_all(tail)) by {
            assert forall|i: int| 0 <= i < tail.len() implies writable(#[trigger] tail[i]) by {
                assert(tail[i] == trees[i + 1]);
            }
            assert forall|i: int, j: int| 0 <= i && j == i + 1 && j < tail.len() implies !((
            #[trigger] tail[i]).kind is Text && (#[trigger] tail[j]).kind is Text) by {
                assert(tail[i] == trees[i + 1]);
                assert(tail[j] == trees[j + 1]);
            }
        }
        lemma_parse_nodes(tail, rest);
        assert(seq![first] + tail =~= trees);
        match first.kind {
            NodeKind::Text { data } => {
                assert(markup_of(first) == data);
                assert(after.len() == 0 || after[0] == '<') by {
                    if tail.len() > 0 {
                        assert(trees[1] == tail[0]);
                        assert(tail[0].kind is Element);
                        lemma_markup_of_all_front(tail);
                        lemma_markup_of_element(tail[0]);
                        assert(markup_of(tail[0])[0] == '<');
                        assert(after[0] == markup_of(tail[0])[0]);
                    } else {
                        assert(after =~= rest);
                    }
                }
                lemma_run_of(data, after, Class::Text);
                assert(s[0] == data[0]);
                assert(s.skip(data.len() as int) =~= after);
                assert(s.take(data.len() as int) =~= data);
                assert(first.children =~= Seq::<Tree>::empty());
                assert(first == text_tree(data));
            },
            NodeKind::Element { tag_name, attributes } => {
                lemma_markup_of_element(first);
                assert(s[0] == '<');
                assert(s[1] == tag_name[0]);
                assert(is_name_char(tag_name[0]));
                lemma_parse_element(first, after);
            },
        }
    }
}

/// Writing nodes and reading the markup gives the nodes back, where the
/// nodes can be written at all.
pub proof fn lemma_written_is_read(trees: Seq<Tree>)
    requires
        writable_all(trees),
    ensures
        parse_fragment(markup_of_all(trees)) == Some(trees),
{
    lemma_parse_nodes(trees, Seq::empty());
    assert(markup_of_all(trees) + Seq::<char>::empty() =~= markup_of_all(trees));
}

} // verus!
