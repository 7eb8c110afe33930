//! Style rules: selectors, declarations, and which rule applies to which node
//! with what priority.

use crate::dom::{NodeKind, NodeType};
use crate::error::ParseError;
use crate::string_map::{map_of, Value};
use crate::text::{chars_of, run_len, scan, string_of, Class};
use vstd::prelude::*;

verus! {

/// The value of a declaration.
#[derive(Debug, PartialEq)]
pub enum CSSValue {
    Keyword(String),
}

impl View for CSSValue {
    type V = Seq<char>;

    /// A value is known by its keyword.
    open spec fn view(&self) -> Seq<char> {
        match self {
            CSSValue::Keyword(keyword) => keyword@,
        }
    }
}

impl Clone for CSSValue {
    fn clone(&self) -> (r: Self)
        ensures
            r@ == self@,
    {
        match self {
            CSSValue::Keyword(keyword) => CSSValue::Keyword(keyword.clone()),
        }
    }
}

impl Value for CSSValue {
    fn same(&self, other: &Self) -> (r: bool) {
        match (self, other) {
            (CSSValue::Keyword(a), CSSValue::Keyword(b)) => *a == *b,
        }
    }
}

/// One `name: value` pair of a rule.
#[derive(Debug, PartialEq)]
pub struct Declaration {
    pub name: String,
    pub value: CSSValue,
}

impl View for Declaration {
    type V = (Seq<char>, Seq<char>);

    open spec fn view(&self) -> (Seq<char>, Seq<char>) {
        (self.name@, self.value@)
    }
}

/// How an attribute selector compares the attribute's value with its own.
#[derive(Debug, PartialEq, Eq, Clone, Copy)]
pub enum AttributeSelectorOp {
    /// The two are the same string.
    Eq,
}

/// A selector without combinators.
#[derive(Debug, PartialEq)]
pub enum SimpleSelector {
    UniversalSelector,
    TypeSelector { tag_name: String },
    AttributeSelector { tag_name: String, op: AttributeSelectorOp, attribute: String, value: String },
}

/// The mathematical content of a `SimpleSelector`.
pub enum Selector {
    Universal,
    Type { tag_name: Seq<char> },
    Attribute { tag_name: Seq<char>, op: AttributeSelectorOp, attribute: Seq<char>, value: Seq<char> },
}

impl View for SimpleSelector {
    type V = Selector;

    open spec fn view(&self) -> Selector {
        match self {
            SimpleSelector::UniversalSelector => Selector::Universal,
            SimpleSelector::TypeSelector { tag_name } => Selector::Type { tag_name: tag_name@ },
            SimpleSelector::AttributeSelector { tag_name, op, attribute, value } => {
                Selector::Attribute {
                    tag_name: tag_name@,
                    op: *op,
                    attribute: attribute@,
                    value: value@,
                }
            },
        }
    }
}

/// The selectors as the model has them.
pub open spec fn selector_views(selectors: Seq<SimpleSelector>) -> Seq<Selector> {
    selectors.map_values(|s: SimpleSelector| s@)
}

/// The declarations as the model has them.
pub open spec fn declaration_views(declarations: Seq<Declaration>) -> Seq<(Seq<char>, Seq<char>)> {
    declarations.map_values(|d: Declaration| d@)
}

/// A rule: its declarations apply to a node that any of its selectors matches.
#[derive(Debug, PartialEq)]
pub struct Rule {
    pub selectors: Vec<SimpleSelector>,
    pub declarations: Vec<Declaration>,
}

/// The mathematical content of a `Rule`.
pub struct RuleView {
    pub selectors: Seq<Selector>,
    pub declarations: Seq<(Seq<char>, Seq<char>)>,
}

impl View for Rule {
    type V = RuleView;

    open spec fn view(&self) -> RuleView {
        RuleView {
            selectors: selector_views(self.selectors@),
            declarations: declaration_views(self.declarations@),
        }
    }
}

/// The rules as the model has them.
pub open spec fn rule_views(rules: Seq<Rule>) -> Seq<RuleView> {
    rules.map_values(|r: Rule| r@)
}

/// The rules of a document, in source order.
#[derive(Debug, PartialEq)]
pub struct Stylesheet {
    pub rules: Vec<Rule>,
}

impl View for Stylesheet {
    type V = Seq<RuleView>;

    open spec fn view(&self) -> Seq<RuleView> {
        rule_views(self.rules@)
    }
}

impl Stylesheet {
    /// The stylesheet with the given rules.
    pub fn new(rules: Vec<Rule>) -> (sheet: Self)
        ensures
            sheet.rules == rules,
    {
        Stylesheet { rules }
    }
}

/// Whether the selector matches a node of this kind. A text node matches no
/// selector, the universal one included. An attribute selector asks for the
/// attribute and its value, whatever the element's tag.
pub open spec fn selector_matches(selector: Selector, kind: NodeKind) -> bool {
    match kind {
        NodeKind::Text { .. } => false,
        NodeKind::Element { tag_name: tag, attributes } => match selector {
            Selector::Universal => true,
            Selector::Type { tag_name } => tag == tag_name,
            Selector::Attribute { tag_name, op, attribute, value } => match op {
                AttributeSelectorOp::Eq => map_of(attributes).contains_key(attribute) && map_of(
                    attributes,
                )[attribute] == value,
            },
        },
    }
}

/// The priority of a selector: attribute over type over universal.
pub open spec fn specificity(selector: Selector) -> nat {
    match selector {
        Selector::Universal => 0,
        Selector::Type { .. } => 1,
        Selector::Attribute { .. } => 2,
    }
}

/// The highest priority among the selectors that match a node of this kind, or
/// nothing if none of them matches.
pub open spec fn best_match(selectors: Seq<Selector>, kind: NodeKind) -> Option<nat>
    decreases selectors.len(),
{
    if selectors.len() == 0 {
        None
    } else {
        let before = best_match(selectors.drop_last(), kind);
        if selector_matches(selectors.last(), kind) {
            match before {
                Some(n) if n >= specificity(selectors.last()) => before,
                _ => Some(specificity(selectors.last())),
            }
        } else {
            before
        }
    }
}

/// `best_match` is the priority of a matching selector, and no matching
/// selector has a higher one; it is nothing exactly when no selector matches.
pub proof fn lemma_best_match(selectors: Seq<Selector>, kind: NodeKind)
    ensures
        match best_match(selectors, kind) {
            Some(n) => {
                &&& exists|i: int|
                    0 <= i < selectors.len() && selector_matches(#[trigger] selectors[i], kind)
                        && specificity(selectors[i]) == n
                &&& forall|i: int|
                    0 <= i < selectors.len() && selector_matches(#[trigger] selectors[i], kind)
                        ==> specificity(selectors[i]) <= n
            },
            None => forall|i: int|
                0 <= i < selectors.len() ==> !selector_matches(#[trigger] selectors[i], kind),
        },
    decreases selectors.len(),
{
    if selectors.len() > 0 {
        let front = selectors.drop_last();
        lemma_best_match(front, kind);
        assert forall|i: int| 0 <= i < front.len() implies #[trigger] selectors[i] == front[i] by {}
        match best_match(selectors, kind) {
            Some(n) => {
                if best_match(front, kind) == Some(n) {
                    let i = choose|i: int|
                        0 <= i < front.len() && selector_matches(#[trigger] front[i], kind)
                            && specificity(front[i]) == n;
                    assert(selector_matches(selectors[i], kind));
                } else {
                    assert(selector_matches(selectors[selectors.len() - 1], kind));
                }
            },
            None => {},
        }
    }
}

impl SimpleSelector {
    /// Tells whether the selector matches the node.
    pub fn matches(&self, node: &NodeType) -> (b: bool)
        ensures
            b == selector_matches(self@, node@),
    {
        match node {
            NodeType::Text(_) => false,
            NodeType::Element(element) => match self {
                SimpleSelector::UniversalSelector => true,
                SimpleSelector::TypeSelector { tag_name } => element.tag_name == *tag_name,
                SimpleSelector::AttributeSelector { tag_name, op, attribute, value } => match op {
                    AttributeSelectorOp::Eq => match element.attributes.get(attribute.as_str()) {
                        Some(found) => *found == *value,
                        None => false,
                    },
                },
            },
        }
    }

    /// The selector's priority.
    pub fn specificity(&self) -> (n: u8)
        ensures
            n == specificity(self@),
    {
        match self {
            SimpleSelector::UniversalSelector => 0,
            SimpleSelector::TypeSelector { .. } => 1,
            SimpleSelector::AttributeSelector { .. } => 2,
        }
    }
}

impl Rule {
    /// The priority with which the rule applies to the node, if it applies.
    pub fn specificity_for(&self, node: &NodeType) -> (r: Option<u8>)
        ensures
            match r {
                Some(n) => best_match(self@.selectors, node@) == Some(n as nat),
                None => best_match(self@.selectors, node@) is None,
            },
    {
        let mut best: Option<u8> = None;
        let ghost selectors = self@.selectors;
        let mut i: usize = 0;
        while i < self.selectors.len()
            invariant
                i <= self.selectors.len(),
                selectors == self@.selectors,
                selectors.len() == self.selectors.len(),
                match best {
                    Some(n) => best_match(selectors.take(i as int), node@) == Some(n as nat),
                    None => best_match(selectors.take(i as int), node@) is None,
                },
            decreases self.selectors.len() - i,
        {
            proof {
                let next = selectors.take(i + 1);
                assert(next.drop_last() =~= selectors.take(i as int));
                assert(next.last() == self.selectors@[i as int]@);
            }
            if self.selectors[i].matches(node) {
                let n = self.selectors[i].specificity();
                best =
                match best {
                    Some(m) if m >= n => Some(m),
                    _ => Some(n),
                };
            }
            i += 1;
        }
        proof {
            assert(selectors.take(i as int) =~= selectors);
        }
        best
    }

    /// Tells whether any selector of the rule matches the node.
    pub fn matches(&self, node: &NodeType) -> (b: bool)
        ensures
            b == best_match(self@.selectors, node@).is_some(),
    {
        self.specificity_for(node).is_some()
    }
}

/// The text without the blanks at its start.
pub open spec fn after_space(s: Seq<char>) -> Seq<char> {
    s.skip(run_len(s, Class::Space) as int)
}

/// The selector at the start of the text, together with what follows it: `*`,
/// a tag's name, a tag's name with `[attribute=value]` behind it, or a class
/// as `.name`, which stands for the attribute `class` with that value.
pub open spec fn parse_selector(s: Seq<char>) -> Option<(Selector, Seq<char>)> {
    let n = run_len(s, Class::Name) as int;
    if s.len() > 0 && s[0] == '*' {
        Some((Selector::Universal, s.skip(1)))
    } else if s.len() > 0 && s[0] == '.' {
        let v = run_len(s.skip(1), Class::Name) as int;
        if v == 0 {
            None
        } else {
            Some(
                (
                    Selector::Attribute {
                        tag_name: Seq::empty(),
                        op: AttributeSelectorOp::Eq,
                        attribute: "class"@,
                        value: s.subrange(1, 1 + v),
                    },
                    s.skip(1 + v),
                ),
            )
        }
    } else if n == 0 {
        None
    } else if n < s.len() && s[n] == '[' {
        let a = run_len(s.skip(n + 1), Class::Name) as int;
        let sign = n + 1 + a;
        let v = run_len(s.skip(sign + 1), Class::Name) as int;
        let close = sign + 1 + v;
        if a == 0 || v == 0 || !(sign < s.len() && s[sign] == '=') || !(close < s.len()
            && s[close] == ']') {
            None
        } else {
            Some(
                (
                    Selector::Attribute {
                        tag_name: s.take(n),
                        op: AttributeSelectorOp::Eq,
                        attribute: s.subrange(n + 1, sign),
                        value: s.subrange(sign + 1, close),
                    },
                    s.skip(close + 1),
                ),
            )
        }
    } else {
        Some((Selector::Type { tag_name: s.take(n) }, s.skip(n)))
    }
}

/// The selectors at the start of the text, with commas between them and
/// blanks where one likes, together with what follows them and the blanks
/// behind them.
pub open spec fn parse_selectors(s: Seq<char>) -> Option<(Seq<Selector>, Seq<char>)>
    decreases s.len(),
{
    match parse_selector(s) {
        Some((selector, rest)) => {
            let behind = after_space(rest);
            if behind.len() > 0 && behind[0] == ',' {
                let next = after_space(behind.skip(1));
                if next.len() < s.len() {
                    match parse_selectors(next) {
                        Some((more, end)) => Some((seq![selector] + more, end)),
                        None => None,
                    }
                } else {
                    None
                }
            } else {
                Some((seq![selector], behind))
            }
        },
        None => None,
    }
}

/// The declarations at the start of the text, each as `name: value;` with
/// blanks where one likes, up to the `}` that ends them, together with what
/// follows that `}`. The last declaration may do without its `;`.
pub open spec fn parse_declarations(s: Seq<char>) -> Option<
    (Seq<(Seq<char>, Seq<char>)>, Seq<char>),
>
    decreases s.len(),
{
    if s.len() > 0 && s[0] == '}' {
        Some((Seq::empty(), s.skip(1)))
    } else {
        let n = run_len(s, Class::Name) as int;
        let colon = after_space(s.skip(n));
        let value = after_space(colon.skip(1));
        let v = run_len(value, Class::Name) as int;
        let semicolon = after_space(value.skip(v));
        let next = if semicolon.len() > 0 && semicolon[0] == ';' {
            after_space(semicolon.skip(1))
        } else {
            semicolon
        };
        if n == 0 || v == 0 || !(colon.len() > 0 && colon[0] == ':') || !(semicolon.len() > 0 && (
        semicolon[0] == ';' || semicolon[0] == '}')) || !(next.len() < s.len()) {
            None
        } else {
            match parse_declarations(next) {
                Some((more, end)) => Some((seq![(s.take(n), value.take(v))] + more, end)),
                None => None,
            }
        }
    }
}

/// The rules that the text consists of, each as its selectors and its
/// declarations between `{` and `}`. The text starts with no blank.
pub open spec fn parse_rules(s: Seq<char>) -> Option<Seq<RuleView>>
    decreases s.len(),
{
    if s.len() == 0 {
        Some(Seq::empty())
    } else {
        match parse_selectors(s) {
            Some((selectors, rest)) => {
                if rest.len() > 0 && rest[0] == '{' {
                    match parse_declarations(after_space(rest.skip(1))) {
                        Some((declarations, behind)) => {
                            let next = after_space(behind);
                            if next.len() < s.len() {
                                match parse_rules(next) {
                                    Some(more) => Some(
                                        seq![RuleView { selectors, declarations }] + more,
                                    ),
                                    None => None,
                                }
                            } else {
                                None
                            }
                        },
                        None => None,
                    }
                } else {
                    None
                }
            },
            None => None,
        }
    }
}

/// The rules that the text is the stylesheet of, or nothing where it is the
/// stylesheet of none.
pub open spec fn parse_stylesheet(s: Seq<char>) -> Option<Seq<RuleView>> {
    parse_rules(after_space(s))
}

/// The place behind the blanks that start at `pos`.
fn skip_space(s: &Vec<char>, pos: usize) -> (end: usize)
    requires
        pos <= s.len(),
    ensures
        pos <= end <= s.len(),
        s@.skip(end as int) == after_space(s@.skip(pos as int)),
{
    let end = scan(s, pos, Class::Space);
    assert(s@.skip(pos as int).skip(end - pos) =~= s@.skip(end as int));
    end
}

/// Reads the selector that starts at `pos`, and gives it with the place
/// behind it.
fn read_selector(s: &Vec<char>, pos: usize) -> (r: Option<(SimpleSelector, usize)>)
    requires
        pos <= s.len(),
    ensures
        match r {
            Some((selector, end)) => {
                &&& pos < end <= s.len()
                &&& parse_selector(s@.skip(pos as int)) == Some((selector@, s@.skip(end as int)))
            },
            None => parse_selector(s@.skip(pos as int)) is None,
        },
{
    let ghost here = s@.skip(pos as int);
    if pos == s.len() {
        return None;
    }
    proof {
        assert(here[0] == s@[pos as int]);
        assert(here.skip(1) =~= s@.skip(pos + 1));
    }
    if s[pos] == '*' {
        return Some((SimpleSelector::UniversalSelector, pos + 1));
    }
    if s[pos] == '.' {
        let end = scan(s, pos + 1, Class::Name);
        if end == pos + 1 {
            return None;
        }
        let value = string_of(s, pos + 1, end);
        proof {
            assert(here.subrange(1, end - pos) =~= value@);
            assert(here.skip(end - pos) =~= s@.skip(end as int));
        }
        return Some(
            (
                SimpleSelector::AttributeSelector {
                    tag_name: String::new(),
                    op: AttributeSelectorOp::Eq,
                    attribute: String::from_str("class"),
                    value,
                },
                end,
            ),
        );
    }
    let name_end = scan(s, pos, Class::Name);
    if name_end == pos {
        return None;
    }
    let tag_name = string_of(s, pos, name_end);
    proof {
        assert(here.take(name_end - pos) =~= tag_name@);
        assert(here.skip(name_end - pos) =~= s@.skip(name_end as int));
        if name_end < s.len() {
            assert(here[name_end - pos] == s@[name_end as int]);
        }
    }
    if !(name_end < s.len() && s[name_end] == '[') {
        return Some((SimpleSelector::TypeSelector { tag_name }, name_end));
    }
    let sign = scan(s, name_end + 1, Class::Name);
    proof {
        assert(here.skip(name_end - pos + 1) =~= s@.skip(name_end + 1));
        if sign < s.len() {
            assert(here[sign - pos] == s@[sign as int]);
        }
    }
    if sign == name_end + 1 || !(sign < s.len() && s[sign] == '=') {
        return None;
    }
    let close = scan(s, sign + 1, Class::Name);
    proof {
        assert(here.skip(sign - pos + 1) =~= s@.skip(sign + 1));
        if close < s.len() {
            assert(here[close - pos] == s@[close as int]);
        }
    }
    if close == sign + 1 || !(close < s.len() && s[close] == ']') {
        return None;
    }
    let attribute = string_of(s, name_end + 1, sign);
    let value = string_of(s, sign + 1, close);
    proof {
        assert(here.subrange(name_end - pos + 1, sign - pos) =~= attribute@);
        assert(here.subrange(sign - pos + 1, close - pos) =~= value@);
        assert(here.skip(close - pos + 1) =~= s@.skip(close + 1));
    }
    Some(
        (
            SimpleSelector::AttributeSelector {
                tag_name,
                op: AttributeSelectorOp::Eq,
                attribute,
                value,
            },
            close + 1,
        ),
    )
}

/// What the reading of a list gives when `before` stands in front of it.
spec fn with_front<T>(before: Seq<T>, parsed: Option<(Seq<T>, Seq<char>)>) -> Option<
    (Seq<T>, Seq<char>),
> {
    match parsed {
        Some((more, rest)) => Some((before + more, rest)),
        None => None,
    }
}

/// Reads the selectors that start at `pos`, and gives them with the place
/// behind them and the blanks that follow.
fn read_selectors(s: &Vec<char>, pos: usize) -> (r: Option<(Vec<SimpleSelector>, usize)>)
    requires
        pos <= s.len(),
    ensures
        match r {
            Some((selectors, end)) => {
                &&& pos < end <= s.len()
                &&& parse_selectors(s@.skip(pos as int)) == Some(
                    (selector_views(selectors@), s@.skip(end as int)),
                )
            },
            None => parse_selectors(s@.skip(pos as int)) is None,
        },
{
    let mut selectors: Vec<SimpleSelector> = Vec::new();
    let ghost whole = parse_selectors(s@.skip(pos as int));
    let mut at: usize = pos;
    proof {
        match whole {
            Some((more, rest)) => {
                assert(selector_views(selectors@) + more =~= more);
            },
            None => {},
        }
    }
    loop
        invariant
            pos <= at <= s.len(),
            at == pos || selectors@.len() > 0,
            at > pos || selectors@.len() == 0,
            whole == parse_selectors(s@.skip(pos as int)),
            whole == with_front(selector_views(selectors@), parse_selectors(s@.skip(at as int))),
        decreases s.len() - at,
    {
        let (selector, end) = match read_selector(s, at) {
            Some(found) => found,
            None => {
                return None;
            },
        };
        let ghost before = selector_views(selectors@);
        let ghost view = selector@;
        selectors.push(selector);
        let behind = skip_space(s, end);
        proof {
            assert(selector_views(selectors@) =~= before.push(view));
            if behind < s.len() {
                assert(s@.skip(behind as int)[0] == s@[behind as int]);
                assert(s@.skip(behind as int).skip(1) =~= s@.skip(behind + 1));
            }
        }
        if !(behind < s.len() && s[behind] == ',') {
            proof {
                assert(before + seq![view] =~= before.push(view));
            }
            return Some((selectors, behind));
        }
        let next = skip_space(s, behind + 1);
        proof {
            match parse_selectors(s@.skip(next as int)) {
                Some((more, rest)) => {
                    assert(before + (seq![view] + more) =~= before.push(view) + more);
                },
                None => {},
            }
        }
        at = next;
    }
}

/// Reads the declarations that start at `pos`, up to the `}` that ends them,
/// and gives them with the place behind that `}`.
fn read_declarations(s: &Vec<char>, pos: usize) -> (r: Option<(Vec<Declaration>, usize)>)
    requires
        pos <= s.len(),
    ensures
        match r {
            Some((declarations, end)) => {
                &&& pos < end <= s.len()
                &&& parse_declarations(s@.skip(pos as int)) == Some(
                    (declaration_views(declarations@), s@.skip(end as int)),
                )
            },
            None => parse_declarations(s@.skip(pos as int)) is None,
        },
{
    let mut declarations: Vec<Declaration> = Vec::new();
    let ghost whole = parse_declarations(s@.skip(pos as int));
    let mut at: usize = pos;
    proof {
        match whole {
            Some((more, rest)) => {
                assert(declaration_views(declarations@) + more =~= more);
            },
            None => {},
        }
    }
    loop
        invariant
            pos <= at <= s.len(),
            whole == parse_declarations(s@.skip(pos as int)),
            whole == with_front(
                declaration_views(declarations@),
                parse_declarations(s@.skip(at as int)),
            ),
        decreases s.len() - at,
    {
        let ghost here = s@.skip(at as int);
        let ghost before = declaration_views(declarations@);
        proof {
            if at < s.len() {
                assert(here[0] == s@[at as int]);
                assert(here.skip(1) =~= s@.skip(at + 1));
            }
        }
        if at < s.len() && s[at] == '}' {
            proof {
                assert(before + Seq::<(Seq<char>, Seq<char>)>::empty() =~= before);
            }
            return Some((declarations, at + 1));
        }
        let name_end = scan(s, at, Class::Name);
        let colon = skip_space(s, name_end);
        proof {
            assert(here.skip(name_end - at) =~= s@.skip(name_end as int));
            if colon < s.len() {
                assert(s@.skip(colon as int)[0] == s@[colon as int]);
                assert(s@.skip(colon as int).skip(1) =~= s@.skip(colon + 1));
            }
        }
        if name_end == at || !(colon < s.len() && s[colon] == ':') {
            return None;
        }
        let value_start = skip_space(s, colon + 1);
        let value_end = scan(s, value_start, Class::Name);
        let semicolon = skip_space(s, value_end);
        proof {
            assert(s@.skip(value_start as int).skip(value_end - value_start) =~= s@.skip(
                value_end as int,
            ));
            if semicolon < s.len() {
                assert(s@.skip(semicolon as int)[0] == s@[semicolon as int]);
                assert(s@.skip(semicolon as int).skip(1) =~= s@.skip(semicolon + 1));
            }
        }
        if value_end == value_start || !(semicolon < s.len() && (s[semicolon] == ';'
            || s[semicolon] == '}')) {
            return None;
        }
        let next = if s[semicolon] == ';' {
            skip_space(s, semicolon + 1)
        } else {
            semicolon
        };
        let name = string_of(s, at, name_end);
        let value = string_of(s, value_start, value_end);
        proof {
            assert(here.take(name_end - at) =~= name@);
            assert(s@.skip(value_start as int).take(value_end - value_start) =~= value@);
        }
        declarations.push(Declaration { name, value: CSSValue::Keyword(value) });
        proof {
            let view = (name@, value@);
            assert(declaration_views(declarations@) =~= before.push(view));
            match parse_declarations(s@.skip(next as int)) {
                Some((more, rest)) => {
                    assert(before + (seq![view] + more) =~= before.push(view) + more);
                },
                None => {},
            }
        }
        at = next;
    }
}

/// What the reading of the rules gives when `before` stands in front of it.
spec fn with_rules(before: Seq<RuleView>, parsed: Option<Seq<RuleView>>) -> Option<Seq<RuleView>> {
    match parsed {
        Some(more) => Some(before + more),
        None => None,
    }
}

/// Reads the text as a stylesheet.
pub fn parse(source: &str) -> (r: Result<Stylesheet, ParseError>)
    ensures
        match r {
            Ok(stylesheet) => parse_stylesheet(source@) == Some(stylesheet@),
            Err(e) => e == ParseError::Stylesheet && parse_stylesheet(source@) is None,
        },
{
    let s = chars_of(source);
    let mut rules: Vec<Rule> = Vec::new();
    proof {
        assert(s@.skip(0) =~= s@);
    }
    let mut at: usize = skip_space(&s, 0);
    let ghost whole = parse_stylesheet(source@);
    proof {
        match whole {
            Some(more) => {
                assert(rule_views(rules@) + more =~= more);
            },
            None => {},
        }
    }
    while at < s.len()
        invariant
            at <= s.len(),
            s@ == source@,
            whole == parse_stylesheet(source@),
            whole == with_rules(rule_views(rules@), parse_rules(s@.skip(at as int))),
        decreases s.len() - at,
    {
        let ghost before = rule_views(rules@);
        let (selectors, brace) = match read_selectors(&s, at) {
            Some(found) => found,
            None => {
                return Err(ParseError::Stylesheet);
            },
        };
        proof {
            if brace < s.len() {
                assert(s@.skip(brace as int)[0] == s@[brace as int]);
                assert(s@.skip(brace as int).skip(1) =~= s@.skip(brace + 1));
            }
        }
        if !(brace < s.len() && s[brace] == '{') {
            return Err(ParseError::Stylesheet);
        }
        let start = skip_space(&s, brace + 1);
        let (declarations, end) = match read_declarations(&s, start) {
            Some(found) => found,
            None => {
                return Err(ParseError::Stylesheet);
            },
        };
        let next = skip_space(&s, end);
        let rule = Rule { selectors, declarations };
        let ghost view = rule@;
        rules.push(rule);
        proof {
            assert(rule_views(rules@) =~= before.push(view));
            match parse_rules(s@.skip(next as int)) {
                Some(more) => {
                    assert(before + (seq![view] + more) =~= before.push(view) + more);
                },
                None => {},
            }
        }
        at = next;
    }
    proof {
        assert(s@.skip(at as int).len() == 0);
        assert(rule_views(rules@) + Seq::<RuleView>::empty() =~= rule_views(rules@));
    }
    Ok(Stylesheet { rules })
}

} // verus!
