//! Strings as sequences of characters: the few operations that the parsers
//! and the display need.

use vstd::prelude::*;

verus! {

/// `String::push` of std appends the character to the end of the string.
pub assume_specification[ String::push ](s: &mut String, c: char)
    ensures
        final(s)@ == old(s)@.push(c),
;

/// Whether `text` begins with `pattern`.
pub open spec fn starts_with(text: Seq<char>, pattern: Seq<char>) -> bool {
    pattern.len() <= text.len() && text.take(pattern.len() as int) == pattern
}

/// The characters of the text.
pub(crate) fn chars_of(text: &str) -> (chars: Vec<char>)
    ensures
        chars@ == text@,
{
    let mut chars: Vec<char> = Vec::new();
    for c in it: text.chars()
        invariant
            it.seq() == text@,
            chars@ == text@.take(it.index() as int),
    {
        chars.push(c);
        assert(text@.take(it.index() + 1) =~= text@.take(it.index() as int).push(c));
    }
    assert(text@.take(text@.len() as int) =~= text@);
    chars
}

/// The string of the characters from `from` up to `to`.
pub(crate) fn string_of(chars: &Vec<char>, from: usize, to: usize) -> (text: String)
    requires
        from <= to <= chars@.len(),
    ensures
        text@ == chars@.subrange(from as int, to as int),
{
    let mut text = String::new();
    let mut i: usize = from;
    while i < to
        invariant
            from <= i <= to <= chars@.len(),
            text@ == chars@.subrange(from as int, i as int),
        decreases to - i,
    {
        text.push(chars[i]);
        assert(chars@.subrange(from as int, i + 1) =~= chars@.subrange(from as int, i as int).push(
            chars@[i as int],
        ));
        i += 1;
    }
    text
}

/// What a run of characters may be made of.
#[derive(Debug, PartialEq, Eq, Clone, Copy)]
pub enum Class {
    /// The characters of a tag's or attribute's name.
    Name,
    /// The characters of a text between tags: any but `<`.
    Text,
    /// The characters of an attribute's value: any but `"`.
    Value,
    /// Blanks: the space, the tab, the line feed and the carriage return.
    Space,
}

/// Whether the character may stand in a name: a letter or digit of ASCII,
/// `-` or `_`.
pub open spec fn is_name_char(c: char) -> bool {
    ('a' <= c && c <= 'z') || ('A' <= c && c <= 'Z') || ('0' <= c && c <= '9') || c == '-' || c
        == '_'
}

/// Whether the character may stand in a run of the class.
pub open spec fn in_class(c: char, class: Class) -> bool {
    match class {
        Class::Name => is_name_char(c),
        Class::Text => c != '<',
        Class::Value => c != '"',
        Class::Space => c == ' ' || c == '\t' || c == '\n' || c == '\r',
    }
}

/// The length of the longest run of the class at the start of the text.
pub open spec fn run_len(s: Seq<char>, class: Class) -> nat
    decreases s.len(),
{
    if s.len() > 0 && in_class(s[0], class) {
        1 + run_len(s.skip(1), class)
    } else {
        0
    }
}

/// Tells whether the character may stand in a name.
pub(crate) fn is_name_character(c: char) -> (b: bool)
    ensures
        b == is_name_char(c),
{
    ('a' <= c && c <= 'z') || ('A' <= c && c <= 'Z') || ('0' <= c && c <= '9') || c == '-' || c
        == '_'
}

/// Tells whether the character may stand in a run of the class.
pub(crate) fn is_in_class(c: char, class: Class) -> (b: bool)
    ensures
        b == in_class(c, class),
{
    match class {
        Class::Name => is_name_character(c),
        Class::Text => c != '<',
        Class::Value => c != '"',
        Class::Space => c == ' ' || c == '\t' || c == '\n' || c == '\r',
    }
}

/// The end of the longest run of the class that starts at `pos`.
pub(crate) fn scan(s: &Vec<char>, pos: usize, class: Class) -> (end: usize)
    requires
        pos <= s.len(),
    ensures
        pos <= end <= s.len(),
        end - pos == run_len(s@.skip(pos as int), class),
{
    let mut end: usize = pos;
    while end < s.len() && is_in_class(s[end], class)
        invariant
            pos <= end <= s.len(),
            run_len(s@.skip(pos as int), class) == (end - pos) + run_len(
                s@.skip(end as int),
                class,
            ),
        decreases s.len() - end,
    {
        proof {
            assert(s@.skip(end as int)[0] == s@[end as int]);
            assert(s@.skip(end as int).skip(1) =~= s@.skip(end + 1));
        }
        end += 1;
    }
    proof {
        if end < s.len() {
            assert(s@.skip(end as int)[0] == s@[end as int]);
        }
    }
    end
}

} // verus!
