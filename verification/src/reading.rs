//! How HTML reads: its tags with their attributes, and its text with the
//! character references replaced. What the library writes is stated by what a
//! reader finds in it.

use vstd::prelude::*;

use crate::entities::{blocks, lemma_escaped_blocks};
use crate::text::has_prefix;
use crate::utils::{escaped, escaped_char};

verus! {

/// What a reader meets: an opening tag with its attributes, a closing tag, or
/// one character of text.
pub enum HtmlEvent {
    Open(Seq<char>, Seq<(Seq<char>, Seq<char>)>),
    Close(Seq<char>),
    Text(Seq<char>),
}

/// The character that a text begins with, and how much of the text writes it.
pub open spec fn char_read(t: Seq<char>) -> (char, int) {
    if has_prefix(t, "&amp;"@) {
        ('&', 5)
    } else if has_prefix(t, "&lt;"@) {
        ('<', 4)
    } else if has_prefix(t, "&gt;"@) {
        ('>', 4)
    } else if has_prefix(t, "&quot;"@) {
        ('"', 6)
    } else if has_prefix(t, "&#39;"@) {
        ('\'', 5)
    } else {
        (t[0], 1)
    }
}

/// Whether a character ends a name in a tag.
pub open spec fn ends_name(c: char) -> bool {
    c == ' ' || c == '=' || c == '>' || c == '/'
}

/// The name that a text begins with, and the rest.
pub open spec fn name_read(t: Seq<char>) -> (Seq<char>, Seq<char>)
    decreases t.len(),
{
    if t.len() == 0 || ends_name(t[0]) {
        (Seq::empty(), t)
    } else {
        let (name, rest) = name_read(t.skip(1));
        (seq![t[0]] + name, rest)
    }
}

/// The attribute value that a text begins with, and what stands behind its
/// quotation mark.
pub open spec fn value_read(t: Seq<char>) -> (Seq<char>, Seq<char>)
    decreases t.len(),
{
    if t.len() == 0 {
        (Seq::empty(), t)
    } else if t[0] == '"' {
        (Seq::empty(), t.skip(1))
    } else {
        let (c, n) = char_read(t);
        if 0 < n <= t.len() {
            let (value, rest) = value_read(t.skip(n));
            (seq![c] + value, rest)
        } else {
            (Seq::empty(), t)
        }
    }
}

/// The attributes that a text begins with, and the rest.
pub open spec fn attributes_read(t: Seq<char>) -> (Seq<(Seq<char>, Seq<char>)>, Seq<char>)
    decreases t.len(),
{
    if t.len() > 0 && t[0] == ' ' {
        let (name, behind) = name_read(t.skip(1));
        if behind.len() >= 2 && behind[0] == '=' && behind[1] == '"' {
            let (value, rest) = value_read(behind.skip(2));
            if rest.len() < t.len() {
                let (more, end) = attributes_read(rest);
                (seq![(name, value)] + more, end)
            } else {
                (Seq::empty(), t)
            }
        } else {
            (Seq::empty(), t)
        }
    } else {
        (Seq::empty(), t)
    }
}

/// What a reader meets in a text, from left to right.
#[verifier::opaque]
pub open spec fn html_read(t: Seq<char>) -> Seq<HtmlEvent>
    decreases t.len(),
{
    if t.len() == 0 {
        Seq::empty()
    } else if t[0] == '<' && t.len() > 1 && t[1] == '/' {
        let (name, rest) = name_read(t.skip(2));
        if 0 < rest.len() < t.len() && rest[0] == '>' {
            seq![HtmlEvent::Close(name)] + html_read(rest.skip(1))
        } else {
            seq![HtmlEvent::Text(seq!['<'])] + html_read(t.skip(1))
        }
    } else if t[0] == '<' {
        let (name, behind) = name_read(t.skip(1));
        let (attrs, rest) = attributes_read(behind);
        if 0 < rest.len() < t.len() && rest[0] == '>' {
            seq![HtmlEvent::Open(name, attrs)] + html_read(rest.skip(1))
        } else if 2 < rest.len() < t.len() && rest[0] == ' ' && rest[1] == '/' && rest[2] == '>' {
            seq![HtmlEvent::Open(name, attrs), HtmlEvent::Close(name)] + html_read(rest.skip(3))
        } else {
            seq![HtmlEvent::Text(seq!['<'])] + html_read(t.skip(1))
        }
    } else {
        let (c, n) = char_read(t);
        if 0 < n <= t.len() {
            seq![HtmlEvent::Text(seq![c])] + html_read(t.skip(n))
        } else {
            Seq::empty()
        }
    }
}

/// The characters of a text as a reader meets them.
pub open spec fn letters(t: Seq<char>) -> Seq<HtmlEvent>
    decreases t.len(),
{
    if t.len() == 0 {
        Seq::empty()
    } else {
        seq![HtmlEvent::Text(seq![t[0]])] + letters(t.drop_first())
    }
}

/// Whether a text can be the name of an element or of an attribute.
pub open spec fn is_name(t: Seq<char>) -> bool {
    t.len() > 0 && forall|i: int| 0 <= i < t.len() ==> !ends_name(#[trigger] t[i])
}

// ── Reading what is written ────────────────────────────────────────

pub proof fn lemma_name_read(name: Seq<char>, rest: Seq<char>)
    requires
        forall|i: int| 0 <= i < name.len() ==> !ends_name(#[trigger] name[i]),
        rest.len() > 0,
        ends_name(rest[0]),
    ensures
        name_read(name + rest) == (name, rest),
    decreases name.len(),
{
    let t = name + rest;
    if name.len() == 0 {
        assert(t =~= rest);
        assert(name =~= Seq::empty());
    } else {
        assert(t[0] == name[0]);
        assert(t.skip(1) =~= name.skip(1) + rest);
        lemma_name_read(name.skip(1), rest);
        assert(seq![name[0]] + name.skip(1) =~= name);
    }
}

/// Whether a block of characters reads as one character.
pub open spec fn reads_as(block: Seq<char>, c: char) -> bool {
    ||| block == seq![c] && c != '&'
    ||| c == '&' && block == "&amp;"@
    ||| c == '<' && block == "&lt;"@
    ||| c == '>' && block == "&gt;"@
    ||| c == '"' && block == "&quot;"@
    ||| c == '\'' && block == "&#39;"@
}

proof fn lemma_char_read(block: Seq<char>, c: char, rest: Seq<char>)
    requires
        reads_as(block, c),
    ensures
        char_read(block + rest) == (c, block.len() as int),
        block.len() > 0,
        block.len() > 1 ==> block[0] == '&',
{
    reveal_strlit("&amp;");
    reveal_strlit("&lt;");
    reveal_strlit("&gt;");
    reveal_strlit("&quot;");
    reveal_strlit("&#39;");
    let t = block + rest;
    assert(t.subrange(0, block.len() as int) =~= block);
    assert(t[0] == block[0]);
    if block == seq![c] && c != '&' {
        assert(t[0] != '&');
        assert(!has_prefix(t, "&amp;"@)) by {
            if has_prefix(t, "&amp;"@) {
                assert(t.subrange(0, 5)[0] == '&');
            }
        }
        assert(!has_prefix(t, "&lt;"@)) by {
            if has_prefix(t, "&lt;"@) {
                assert(t.subrange(0, 4)[0] == '&');
            }
        }
        assert(!has_prefix(t, "&gt;"@)) by {
            if has_prefix(t, "&gt;"@) {
                assert(t.subrange(0, 4)[0] == '&');
            }
        }
        assert(!has_prefix(t, "&quot;"@)) by {
            if has_prefix(t, "&quot;"@) {
                assert(t.subrange(0, 6)[0] == '&');
            }
        }
        assert(!has_prefix(t, "&#39;"@)) by {
            if has_prefix(t, "&#39;"@) {
                assert(t.subrange(0, 5)[0] == '&');
            }
        }
    } else {
        assert(t[1] == block[1]);
        assert(!(c == '&') ==> !has_prefix(t, "&amp;"@)) by {
            if has_prefix(t, "&amp;"@) {
                assert(t.subrange(0, 5)[1] == 'a');
            }
        }
        assert(!(c == '<') ==> !has_prefix(t, "&lt;"@)) by {
            if has_prefix(t, "&lt;"@) {
                assert(t.subrange(0, 4)[1] == 'l');
            }
        }
        assert(!(c == '>') ==> !has_prefix(t, "&gt;"@)) by {
            if has_prefix(t, "&gt;"@) {
                assert(t.subrange(0, 4)[1] == 'g');
            }
        }
        assert(!(c == '"') ==> !has_prefix(t, "&quot;"@)) by {
            if has_prefix(t, "&quot;"@) {
                assert(t.subrange(0, 6)[1] == 'q');
            }
        }
    }
}

/// Whether what a function writes for the characters of an attribute value
/// reads as them.
pub open spec fn all_valued(v: Seq<char>, f: spec_fn(char) -> Seq<char>) -> bool {
    forall|i: int| 0 <= i < v.len() ==> reads_as(f(#[trigger] v[i]), v[i]) && f(v[i]) != seq!['"']
}

pub proof fn lemma_value_read(v: Seq<char>, f: spec_fn(char) -> Seq<char>, rest: Seq<char>)
    requires
        all_valued(v, f),
    ensures
        value_read(blocks(v, f) + "\""@ + rest) == (v, rest),
    decreases v.len(),
{
    reveal_strlit("\"");
    let t = blocks(v, f) + "\""@ + rest;
    if v.len() == 0 {
        assert(t[0] == '"');
        assert(t.skip(1) =~= rest);
        assert(v =~= Seq::empty());
    } else {
        let block = f(v[0]);
        let tail = blocks(v.drop_first(), f) + "\""@ + rest;
        assert(t =~= block + tail);
        lemma_char_read(block, v[0], tail);
        assert(block[0] != '"') by {
            if block[0] == '"' {
                assert(block =~= seq!['"']);
            }
        }
        assert(t.skip(block.len() as int) =~= tail);
        assert forall|i: int| 0 <= i < v.drop_first().len() implies reads_as(
            f(#[trigger] v.drop_first()[i]),
            v.drop_first()[i],
        ) && f(v.drop_first()[i]) != seq!['"'] by {
            assert(v.drop_first()[i] == v[i + 1]);
        }
        lemma_value_read(v.drop_first(), f, rest);
        assert(seq![v[0]] + v.drop_first() =~= v);
    }
}

/// Nothing is read where nothing is left.
pub proof fn lemma_end_read(t: Seq<HtmlEvent>)
    ensures
        html_read(Seq::<char>::empty()) == Seq::<HtmlEvent>::empty(),
        t + html_read(Seq::<char>::empty()) == t,
{
    reveal(html_read);
    assert(html_read(Seq::<char>::empty()) =~= Seq::empty());
    assert(t + html_read(Seq::<char>::empty()) =~= t);
}

/// A character reads as itself.
pub proof fn lemma_letter_read(block: Seq<char>, c: char, rest: Seq<char>)
    requires
        reads_as(block, c),
        block != seq!['<'],
    ensures
        html_read(block + rest) == seq![HtmlEvent::Text(seq![c])] + html_read(rest),
{
    reveal(html_read);
    let t = block + rest;
    lemma_char_read(block, c, rest);
    assert(t[0] == block[0]);
    assert(block[0] != '<') by {
        if block[0] == '<' {
            assert(block =~= seq!['<']);
        }
    }
    assert(t.skip(block.len() as int) =~= rest);
}

/// Whether what a function writes for the characters of a text reads as them.
pub open spec fn all_read(v: Seq<char>, f: spec_fn(char) -> Seq<char>) -> bool {
    forall|i: int| 0 <= i < v.len() ==> reads_as(f(#[trigger] v[i]), v[i]) && f(v[i]) != seq!['<']
}

pub proof fn lemma_letters_read(v: Seq<char>, f: spec_fn(char) -> Seq<char>, rest: Seq<char>)
    requires
        all_read(v, f),
    ensures
        html_read(blocks(v, f) + rest) == letters(v) + html_read(rest),
    decreases v.len(),
{
    let t = blocks(v, f) + rest;
    if v.len() == 0 {
        assert(t =~= rest);
        assert(letters(v) + html_read(rest) =~= html_read(rest));
    } else {
        let tail = blocks(v.drop_first(), f) + rest;
        assert(t =~= f(v[0]) + tail);
        lemma_letter_read(f(v[0]), v[0], tail);
        assert forall|i: int| 0 <= i < v.drop_first().len() implies reads_as(
            f(#[trigger] v.drop_first()[i]),
            v.drop_first()[i],
        ) && f(v.drop_first()[i]) != seq!['<'] by {
            assert(v.drop_first()[i] == v[i + 1]);
        }
        lemma_letters_read(v.drop_first(), f, rest);
        let head = seq![HtmlEvent::Text(seq![v[0]])];
        assert(html_read(t) == head + html_read(tail));
        assert(html_read(tail) == letters(v.drop_first()) + html_read(rest));
        assert(letters(v) == head + letters(v.drop_first()));
        assert(head + (letters(v.drop_first()) + html_read(rest)) =~= (head + letters(
            v.drop_first(),
        )) + html_read(rest));
    }
}

/// A closing tag reads as one.
pub proof fn lemma_close_read(name: Seq<char>, rest: Seq<char>)
    requires
        is_name(name),
    ensures
        html_read("</"@ + name + ">"@ + rest) == seq![HtmlEvent::Close(name)] + html_read(rest),
{
    reveal(html_read);
    reveal_strlit("</");
    reveal_strlit(">");
    let t = "</"@ + name + ">"@ + rest;
    let behind = ">"@ + rest;
    assert(t.skip(2) =~= name + behind);
    lemma_name_read(name, behind);
    assert(behind.skip(1) =~= rest);
}

/// Attributes and what ends their tag.
pub open spec fn ends_tag(t: Seq<char>) -> bool {
    ||| t.len() > 0 && t[0] == '>'
    ||| t.len() > 2 && t[0] == ' ' && t[1] == '/' && t[2] == '>'
}

pub proof fn lemma_no_attributes_read(rest: Seq<char>)
    requires
        ends_tag(rest),
    ensures
        attributes_read(rest) == (Seq::<(Seq<char>, Seq<char>)>::empty(), rest),
{
    if rest[0] == ' ' {
        assert(rest.skip(1)[0] == '/');
    }
}

/// One attribute in front of others.
pub proof fn lemma_attribute_read(
    name: Seq<char>,
    value: Seq<char>,
    f: spec_fn(char) -> Seq<char>,
    rest: Seq<char>,
)
    requires
        is_name(name),
        all_valued(value, f),
    ensures
        attributes_read(" "@ + name + "=\""@ + blocks(value, f) + "\""@ + rest) == (
            seq![(name, value)] + attributes_read(rest).0,
            attributes_read(rest).1,
        ),
{
    reveal_strlit(" ");
    reveal_strlit("=\"");
    let written = blocks(value, f) + "\""@ + rest;
    let behind = "=\""@ + written;
    let t = " "@ + name + "=\""@ + blocks(value, f) + "\""@ + rest;
    assert(t[0] == ' ');
    assert(t.skip(1) =~= name + behind);
    lemma_name_read(name, behind);
    assert(behind.skip(2) =~= written);
    lemma_value_read(value, f, rest);
}

/// An opening tag reads as one.
pub proof fn lemma_open_read(name: Seq<char>, attrs: Seq<char>, rest: Seq<char>)
    requires
        is_name(name),
        attributes_read(attrs + ">"@ + rest).1 == ">"@ + rest,
        attrs.len() == 0 || attrs[0] == ' ',
    ensures
        html_read("<"@ + name + attrs + ">"@ + rest) == seq![
            HtmlEvent::Open(name, attributes_read(attrs + ">"@ + rest).0),
        ] + html_read(rest),
{
    reveal(html_read);
    reveal_strlit("<");
    reveal_strlit(">");
    let t = "<"@ + name + attrs + ">"@ + rest;
    let behind = attrs + ">"@ + rest;
    assert(t[0] == '<' && t[1] == name[0]);
    assert(t.skip(1) =~= name + behind);
    assert(behind[0] == ' ' || behind[0] == '>');
    lemma_name_read(name, behind);
    assert((">"@ + rest).skip(1) =~= rest);
}

/// An element without content reads as one that opens and closes.
pub proof fn lemma_single_read(name: Seq<char>, attrs: Seq<char>, rest: Seq<char>)
    requires
        is_name(name),
        attributes_read(attrs + " />"@ + rest).1 == " />"@ + rest,
        attrs.len() == 0 || attrs[0] == ' ',
    ensures
        html_read("<"@ + name + attrs + " />"@ + rest) == seq![
            HtmlEvent::Open(name, attributes_read(attrs + " />"@ + rest).0),
            HtmlEvent::Close(name),
        ] + html_read(rest),
{
    reveal(html_read);
    reveal_strlit("<");
    reveal_strlit(" />");
    let t = "<"@ + name + attrs + " />"@ + rest;
    let behind = attrs + " />"@ + rest;
    assert(t[0] == '<' && t[1] == name[0]);
    assert(t.skip(1) =~= name + behind);
    assert(behind[0] == ' ');
    lemma_name_read(name, behind);
    assert((" />"@ + rest).skip(3) =~= rest);
}

// ── Escaped text ───────────────────────────────────────────────────

proof fn lemma_escaped_reads()
    ensures
        forall|c: char|
            reads_as(#[trigger] escaped_char(c), c) && escaped_char(c) != seq!['"']
                && escaped_char(c) != seq!['<'],
{
    reveal_strlit("&amp;");
    reveal_strlit("&lt;");
    reveal_strlit("&gt;");
    reveal_strlit("&quot;");
    reveal_strlit("&#39;");
    assert forall|c: char|
        reads_as(#[trigger] escaped_char(c), c) && escaped_char(c) != seq!['"'] && escaped_char(c)
            != seq!['<'] by {
        assert(escaped_char(c).len() > 1 || escaped_char(c)[0] == c);
        if escaped_char(c) == seq!['"'] {
            assert(seq!['"'][0] == '"');
        }
        if escaped_char(c) == seq!['<'] {
            assert(seq!['<'][0] == '<');
        }
    }
}

/// Escaped text reads as the text.
pub proof fn law_escaped_text_reads_back(t: Seq<char>, rest: Seq<char>)
    ensures
        html_read(escaped(t) + rest) == letters(t) + html_read(rest),
{
    let f = |c: char| escaped_char(c);
    lemma_escaped_blocks(t);
    lemma_escaped_reads();
    lemma_letters_read(t, f, rest);
}

/// An attribute with an escaped value reads as the attribute.
pub proof fn law_escaped_value_reads_back(name: Seq<char>, value: Seq<char>, rest: Seq<char>)
    requires
        is_name(name),
    ensures
        attributes_read(" "@ + name + "=\""@ + escaped(value) + "\""@ + rest) == (
            seq![(name, value)] + attributes_read(rest).0,
            attributes_read(rest).1,
        ),
{
    let f = |c: char| escaped_char(c);
    lemma_escaped_blocks(value);
    lemma_escaped_reads();
    assert(all_valued(value, f));
    lemma_attribute_read(name, value, f, rest);
}

// ── Tags ───────────────────────────────────────────────────────────

/// The opening tag of an element without attributes.
pub open spec fn opened(name: Seq<char>) -> HtmlEvent {
    HtmlEvent::Open(name, Seq::empty())
}

/// The opening tag of an element with one attribute.
pub open spec fn opened_with(name: Seq<char>, attr: Seq<char>, value: Seq<char>) -> HtmlEvent {
    HtmlEvent::Open(name, seq![(attr, value)])
}

pub proof fn lemma_plain_open_read(name: Seq<char>, rest: Seq<char>)
    requires
        is_name(name),
    ensures
        html_read("<"@ + name + ">"@ + rest) == seq![opened(name)] + html_read(rest),
{
    reveal_strlit(">");
    let none = Seq::<char>::empty();
    let tail = ">"@ + rest;
    assert(tail[0] == '>');
    lemma_no_attributes_read(tail);
    assert(none + ">"@ + rest =~= tail);
    lemma_open_read(name, none, rest);
    assert("<"@ + name + none + ">"@ + rest =~= "<"@ + name + ">"@ + rest);
}

pub proof fn lemma_open_with_read(
    name: Seq<char>,
    attr: Seq<char>,
    value: Seq<char>,
    rest: Seq<char>,
)
    requires
        is_name(name),
        is_name(attr),
    ensures
        html_read("<"@ + name + " "@ + attr + "=\""@ + escaped(value) + "\">"@ + rest) == seq![
            opened_with(name, attr, value),
        ] + html_read(rest),
{
    reveal_strlit(" ");
    reveal_strlit(">");
    reveal_strlit("\"");
    reveal_strlit("\">");
    let tail = ">"@ + rest;
    let attrs = " "@ + attr + "=\""@ + escaped(value) + "\""@;
    assert(tail[0] == '>');
    law_escaped_value_reads_back(attr, value, tail);
    lemma_no_attributes_read(tail);
    assert(attrs + ">"@ + rest =~= attrs + tail);
    assert(seq![(attr, value)] + Seq::<(Seq<char>, Seq<char>)>::empty() =~= seq![(attr, value)]);
    lemma_open_read(name, attrs, rest);
    assert("<"@ + name + " "@ + attr + "=\""@ + escaped(value) + "\">"@ + rest =~= "<"@ + name + attrs
        + ">"@ + rest);
}

} // verus!
