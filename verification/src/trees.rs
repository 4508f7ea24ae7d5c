//! Trees that are written as HTML read as the trees that they were.

use vstd::prelude::*;

use crate::dom::{
    attributes_html, children_html, content_char, content_escaped, is_block, is_container, new_line,
    node_html, tree_html, value_char, value_escaped, HtmlAttr, HtmlNode, NodeContent,
};
use crate::entities::{blocks, lemma_blocks_push};
use crate::reading::{
    attributes_read, ends_tag, html_read, is_name, lemma_attribute_read, lemma_close_read,
    lemma_end_read, lemma_letter_read, lemma_letters_read, lemma_no_attributes_read,
    lemma_open_read, letters, reads_as, HtmlEvent,
};
use crate::text::{has_prefix, has_suffix, is_white_space, skip};

verus! {

/// The attributes of an element as pairs of a name and a value.
pub open spec fn attribute_pairs(attrs: Seq<HtmlAttr>) -> Seq<(Seq<char>, Seq<char>)> {
    Seq::new(attrs.len(), |i: int| (attrs[i].name@, attrs[i].value@))
}

/// What a reader meets in a tree: each element with all of its attributes,
/// what is below it, and its end; each text with all of its characters.
pub open spec fn node_events<H>(node: HtmlNode<H>) -> Seq<HtmlEvent>
    decreases node, node.children@.len() + 1,
{
    let below = events_below(node, node.children@.len() as int);
    match node.content {
        NodeContent::Element { tag, attrs } => seq![
            HtmlEvent::Open(tag@, attribute_pairs(attrs@)),
        ] + below + seq![HtmlEvent::Close(tag@)],
        NodeContent::Text(s) => letters(s@),
        NodeContent::Other => below,
    }
}

/// What a reader meets in the first `n` children of a node.
pub open spec fn events_below<H>(node: HtmlNode<H>, n: int) -> Seq<HtmlEvent>
    decreases node, n,
{
    if n <= 0 || n > node.children@.len() {
        Seq::empty()
    } else {
        events_below(node, n - 1) + node_events(node.children@[n - 1])
    }
}

/// Whether the elements and attributes of a tree have names that can be read.
pub open spec fn is_readable<H>(node: HtmlNode<H>) -> bool
    decreases node,
{
    &&& node.content matches NodeContent::Element { tag, attrs } ==> is_name(tag@) && forall|i: int|
        0 <= i < attrs@.len() ==> is_name((#[trigger] attrs@[i]).name@)
    &&& forall|i: int| 0 <= i < node.children@.len() ==> is_readable(#[trigger] node.children@[i])
}

/// Whether a tag may have a line break and an indentation in front of it: the
/// tags of a table's elements, but not the closing tags of cells and columns.
pub open spec fn may_be_indented(e: HtmlEvent) -> bool {
    match e {
        HtmlEvent::Open(name, attrs) => name == "table"@ || name == "colgroup"@ || name == "thead"@
            || name == "tbody"@ || name == "tfoot"@ || name == "tr"@ || name == "col"@ || name
            == "th"@ || name == "td"@,
        HtmlEvent::Close(name) => name == "table"@ || name == "colgroup"@ || name == "thead"@ || name
            == "tbody"@ || name == "tfoot"@ || name == "tr"@,
        HtmlEvent::Text(c) => false,
    }
}

/// Events in front of others, without the white space in front of the tags
/// that may be indented.
pub open spec fn flush_before(e: Seq<HtmlEvent>, rest: Seq<HtmlEvent>) -> Seq<HtmlEvent>
    decreases e.len(),
{
    if e.len() == 0 {
        rest
    } else {
        let behind = flush_before(e.drop_first(), rest);
        if behind.len() > 0 && may_be_indented(behind[0]) && (e[0] matches HtmlEvent::Text(c)
            && c.len() == 1 && is_white_space(c[0])) {
            behind
        } else {
            seq![e[0]] + behind
        }
    }
}

/// Events without the white space in front of the tags that may be indented.
pub open spec fn flush(e: Seq<HtmlEvent>) -> Seq<HtmlEvent> {
    flush_before(e, Seq::empty())
}

proof fn lemma_flush_joined(a: Seq<HtmlEvent>, b: Seq<HtmlEvent>, rest: Seq<HtmlEvent>)
    ensures
        flush_before(a + b, rest) == flush_before(a, flush_before(b, rest)),
    decreases a.len(),
{
    if a.len() == 0 {
        assert(a + b =~= b);
    } else {
        lemma_flush_joined(a.drop_first(), b, rest);
        assert((a + b).drop_first() =~= a.drop_first() + b);
        assert((a + b)[0] == a[0]);
    }
}

proof fn lemma_flush_one(e: HtmlEvent, rest: Seq<HtmlEvent>)
    requires
        !(e is Text),
    ensures
        flush_before(seq![e], rest) == seq![e] + rest,
{
    assert(seq![e].drop_first() =~= Seq::empty());
    assert(flush_before(seq![e].drop_first(), rest) == rest);
}

/// White space in front of a tag that may be indented is passed over.
proof fn lemma_flush_white(t: Seq<char>, rest: Seq<HtmlEvent>)
    requires
        forall|i: int| 0 <= i < t.len() ==> is_white_space(#[trigger] t[i]),
        rest.len() > 0,
        may_be_indented(rest[0]),
    ensures
        flush_before(letters(t), rest) == rest,
    decreases t.len(),
{
    if t.len() > 0 {
        let head = HtmlEvent::Text(seq![t[0]]);
        let tail = letters(t.drop_first());
        assert forall|i: int| 0 <= i < t.drop_first().len() implies is_white_space(
            #[trigger] t.drop_first()[i],
        ) by {
            assert(t.drop_first()[i] == t[i + 1]);
        }
        lemma_flush_white(t.drop_first(), rest);
        assert(letters(t) == seq![head] + tail);
        assert(letters(t)[0] == head);
        assert(letters(t).drop_first() =~= tail);
    }
}

// ── Attributes ─────────────────────────────────────────────────────

spec fn attributes_from(attrs: Seq<HtmlAttr>, k: int) -> Seq<char>
    decreases attrs.len() - k,
{
    if k < 0 || k >= attrs.len() {
        Seq::empty()
    } else {
        " "@ + attrs[k].name@ + "=\""@ + value_escaped(attrs[k].value@) + "\""@ + attributes_from(
            attrs,
            k + 1,
        )
    }
}

proof fn lemma_attributes_split(attrs: Seq<HtmlAttr>, k: int)
    requires
        0 <= k <= attrs.len(),
    ensures
        attributes_html(attrs, attrs.len() as int) == attributes_html(attrs, k) + attributes_from(
            attrs,
            k,
        ),
    decreases attrs.len() - k,
{
    if k == attrs.len() {
        assert(attributes_html(attrs, k) + attributes_from(attrs, k) =~= attributes_html(attrs, k));
    } else {
        lemma_attributes_split(attrs, k + 1);
        assert(attributes_html(attrs, k + 1) + attributes_from(attrs, k + 1) =~= attributes_html(
            attrs,
            k,
        ) + attributes_from(attrs, k));
    }
}

proof fn lemma_value_blocks(t: Seq<char>)
    ensures
        value_escaped(t) == blocks(t, |c: char| value_char(c)),
    decreases t.len(),
{
    if t.len() > 0 {
        lemma_value_blocks(t.drop_last());
        lemma_blocks_push(t, |c: char| value_char(c));
    }
}

proof fn lemma_content_blocks(t: Seq<char>)
    ensures
        content_escaped(t) == blocks(t, |c: char| content_char(c)),
    decreases t.len(),
{
    if t.len() > 0 {
        lemma_content_blocks(t.drop_last());
        lemma_blocks_push(t, |c: char| content_char(c));
    }
}

proof fn lemma_value_char_reads(c: char)
    ensures
        reads_as(value_char(c), c),
        value_char(c) != seq!['"'],
{
    reveal_strlit("&amp;");
    reveal_strlit("&lt;");
    reveal_strlit("&quot;");
    assert(value_char(c).len() > 1 || value_char(c)[0] == c);
    if value_char(c) == seq!['"'] {
        assert(seq!['"'][0] == '"');
    }
}

proof fn lemma_content_char_reads(c: char)
    ensures
        reads_as(content_char(c), c),
        content_char(c) != seq!['<'],
{
    reveal_strlit("&amp;");
    reveal_strlit("&lt;");
    reveal_strlit("&gt;");
    assert(content_char(c).len() > 1 || content_char(c)[0] == c);
    if content_char(c) == seq!['<'] {
        assert(seq!['<'][0] == '<');
    }
}

proof fn lemma_attributes_from_read(attrs: Seq<HtmlAttr>, k: int, rest: Seq<char>)
    requires
        0 <= k <= attrs.len(),
        forall|i: int| 0 <= i < attrs.len() ==> is_name((#[trigger] attrs[i]).name@),
        ends_tag(rest),
    ensures
        attributes_read(attributes_from(attrs, k) + rest) == (attribute_pairs(attrs).skip(k), rest),
    decreases attrs.len() - k,
{
    let pairs = attribute_pairs(attrs);
    if k == attrs.len() {
        assert(attributes_from(attrs, k) + rest =~= rest);
        lemma_no_attributes_read(rest);
        assert(pairs.skip(k) =~= Seq::empty());
    } else {
        let f = |c: char| value_char(c);
        let name = attrs[k].name@;
        let value = attrs[k].value@;
        let tail = attributes_from(attrs, k + 1) + rest;
        lemma_attributes_from_read(attrs, k + 1, rest);
        lemma_value_blocks(value);
        assert forall|i: int| 0 <= i < value.len() implies reads_as(f(#[trigger] value[i]), value[i])
            && f(value[i]) != seq!['"'] by {
            lemma_value_char_reads(value[i]);
        }
        lemma_attribute_read(name, value, f, tail);
        assert(attributes_from(attrs, k) + rest =~= " "@ + name + "=\""@ + blocks(value, f) + "\""@
            + tail);
        assert(pairs.skip(k) =~= seq![(name, value)] + pairs.skip(k + 1));
    }
}

proof fn lemma_attributes_start(attrs: Seq<HtmlAttr>)
    ensures
        attributes_html(attrs, attrs.len() as int).len() == 0 || attributes_html(
            attrs,
            attrs.len() as int,
        )[0] == ' ',
{
    reveal_strlit(" ");
    lemma_attributes_split(attrs, 0);
    assert(attributes_html(attrs, 0) + attributes_from(attrs, 0) =~= attributes_from(attrs, 0));
}

proof fn lemma_tag_read(tag: Seq<char>, attrs: Seq<HtmlAttr>, rest: Seq<char>)
    requires
        is_name(tag),
        forall|i: int| 0 <= i < attrs.len() ==> is_name((#[trigger] attrs[i]).name@),
    ensures
        html_read("<"@ + tag + attributes_html(attrs, attrs.len() as int) + ">"@ + rest) == seq![
            HtmlEvent::Open(tag, attribute_pairs(attrs)),
        ] + html_read(rest),
{
    reveal_strlit(">");
    let written = attributes_html(attrs, attrs.len() as int);
    let tail = ">"@ + rest;
    assert(tail[0] == '>');
    lemma_attributes_split(attrs, 0);
    lemma_attributes_start(attrs);
    lemma_attributes_from_read(attrs, 0, tail);
    assert(written + ">"@ + rest =~= attributes_from(attrs, 0) + tail);
    assert(attribute_pairs(attrs).skip(0) =~= attribute_pairs(attrs));
    lemma_open_read(tag, written, rest);
}

proof fn lemma_content_read(t: Seq<char>, rest: Seq<char>)
    ensures
        html_read(content_escaped(t) + rest) == letters(t) + html_read(rest),
{
    let f = |c: char| content_char(c);
    lemma_content_blocks(t);
    assert forall|i: int| 0 <= i < t.len() implies reads_as(f(#[trigger] t[i]), t[i]) && f(t[i])
        != seq!['<'] by {
        lemma_content_char_reads(t[i]);
    }
    lemma_letters_read(t, f, rest);
}

/// Text without markup reads as its characters.
pub proof fn lemma_plain_read(t: Seq<char>, rest: Seq<char>)
    requires
        forall|i: int| 0 <= i < t.len() ==> #[trigger] t[i] != '<' && t[i] != '&',
    ensures
        html_read(t + rest) == letters(t) + html_read(rest),
    decreases t.len(),
{
    if t.len() == 0 {
        assert(t + rest =~= rest);
        assert(letters(t) + html_read(rest) =~= html_read(rest));
    } else {
        let tail = t.drop_first() + rest;
        assert(t + rest =~= seq![t[0]] + tail);
        assert(seq![t[0]] != seq!['<']) by {
            assert(seq![t[0]][0] != seq!['<'][0]);
        }
        lemma_letter_read(seq![t[0]], t[0], tail);
        assert forall|i: int| 0 <= i < t.drop_first().len() implies #[trigger] t.drop_first()[i]
            != '<' && t.drop_first()[i] != '&' by {
            assert(t.drop_first()[i] == t[i + 1]);
        }
        lemma_plain_read(t.drop_first(), rest);
        let head = seq![HtmlEvent::Text(seq![t[0]])];
        assert(letters(t) == head + letters(t.drop_first()));
        assert(head + (letters(t.drop_first()) + html_read(rest)) =~= letters(t) + html_read(rest));
    }
}

// ── Trees ──────────────────────────────────────────────────────────

/// Whether a text can indent a line.
pub open spec fn is_indent(t: Seq<char>) -> bool {
    forall|i: int| 0 <= i < t.len() ==> #[trigger] t[i] == ' '
}

proof fn lemma_new_line_read(indent: Seq<char>, wanted: bool, rest: Seq<char>)
    requires
        is_indent(indent),
        wanted ==> flush(html_read(rest)).len() > 0 && may_be_indented(flush(html_read(rest))[0]),
    ensures
        flush(html_read(new_line(indent, wanted) + rest)) == flush(html_read(rest)),
{
    reveal_strlit("\n");
    let t = new_line(indent, wanted);
    if wanted {
        assert forall|i: int| 0 <= i < t.len() implies #[trigger] t[i] == '\n' || t[i] == ' ' by {
            if i > 0 {
                assert(t[i] == indent[i - 1]);
            }
        }
        lemma_plain_read(t, rest);
        lemma_flush_joined(letters(t), html_read(rest), Seq::empty());
        lemma_flush_white(t, flush(html_read(rest)));
    } else {
        assert(t + rest =~= rest);
    }
}

/// The line of an opening tag.
proof fn lemma_opening_read(
    name: Seq<char>,
    attrs: Seq<HtmlAttr>,
    indent: Seq<char>,
    content: Seq<char>,
)
    requires
        is_name(name),
        forall|i: int| 0 <= i < attrs.len() ==> is_name((#[trigger] attrs[i]).name@),
        is_indent(indent),
    ensures
        flush(
            html_read(
                new_line(indent, is_block(name)) + ("<"@ + name + attributes_html(
                    attrs,
                    attrs.len() as int,
                ) + ">"@ + content),
            ),
        ) == seq![HtmlEvent::Open(name, attribute_pairs(attrs))] + flush(html_read(content)),
{
    let open = HtmlEvent::Open(name, attribute_pairs(attrs));
    let opening = "<"@ + name + attributes_html(attrs, attrs.len() as int) + ">"@ + content;
    lemma_tag_read(name, attrs, content);
    lemma_flush_joined(seq![open], html_read(content), Seq::empty());
    lemma_flush_one(open, flush(html_read(content)));
    assert((seq![open] + flush(html_read(content)))[0] == open);
    lemma_new_line_read(indent, is_block(name), opening);
}

/// The line of a closing tag.
proof fn lemma_closing_read(name: Seq<char>, indent: Seq<char>, rest: Seq<char>)
    requires
        is_name(name),
        is_indent(indent),
    ensures
        flush(html_read(new_line(indent, is_container(name)) + ("</"@ + name + ">"@ + rest)))
            == seq![HtmlEvent::Close(name)] + flush(html_read(rest)),
{
    let close = HtmlEvent::Close(name);
    lemma_close_read(name, rest);
    lemma_flush_joined(seq![close], html_read(rest), Seq::empty());
    lemma_flush_one(close, flush(html_read(rest)));
    assert((seq![close] + flush(html_read(rest)))[0] == close);
    lemma_new_line_read(indent, is_container(name), "</"@ + name + ">"@ + rest);
}

/// An element around what is below it.
proof fn lemma_flush_element(
    open: HtmlEvent,
    below: Seq<HtmlEvent>,
    close: HtmlEvent,
    end: Seq<HtmlEvent>,
)
    requires
        !(open is Text),
        !(close is Text),
    ensures
        flush_before(seq![open] + below + seq![close], end) == seq![open] + flush_before(
            below,
            seq![close] + end,
        ),
{
    lemma_flush_joined(seq![open] + below, seq![close], end);
    lemma_flush_one(close, end);
    lemma_flush_joined(seq![open], below, seq![close] + end);
    lemma_flush_one(open, flush_before(below, seq![close] + end));
}

proof fn lemma_regrouped(
    line: Seq<char>,
    open: Seq<char>,
    below: Seq<char>,
    last: Seq<char>,
    close: Seq<char>,
    rest: Seq<char>,
)
    ensures
        line + open + below + last + close + rest == line + (open + (below + (last + (close
            + rest)))),
{
    assert(line + open + below + last + close + rest =~= line + (open + (below + (last + (close
        + rest)))));
}

proof fn lemma_element_html<H>(node: HtmlNode<H>, indent: Seq<char>)
    requires
        node.content is Element,
    ensures
        node.content matches NodeContent::Element { tag, attrs } ==> node_html(node, indent)
            == new_line(indent, is_block(tag@)) + ("<"@ + tag@ + attributes_html(
            attrs@,
            attrs@.len() as int,
        ) + ">"@) + children_html(
            node,
            if is_block(tag@) {
                indent + "  "@
            } else {
                indent
            },
            node.children@.len() as int,
        ) + new_line(indent, is_container(tag@)) + ("</"@ + tag@ + ">"@),
{
    match node.content {
        NodeContent::Element { tag, attrs } => {
            let inner = if is_block(tag@) {
                indent + "  "@
            } else {
                indent
            };
            let line = new_line(indent, is_block(tag@));
            let written = attributes_html(attrs@, attrs@.len() as int);
            let below = children_html(node, inner, node.children@.len() as int);
            let last = new_line(indent, is_container(tag@));
            assert(line + "<"@ + tag@ + written + ">"@ + below + last + "</"@ + tag@ + ">"@
                =~= line + ("<"@ + tag@ + written + ">"@) + below + last + ("</"@ + tag@ + ">"@));
        },
        _ => {},
    }
}

proof fn lemma_node_read<H>(node: HtmlNode<H>, indent: Seq<char>, rest: Seq<char>)
    requires
        is_readable(node),
        is_indent(indent),
    ensures
        flush(html_read(node_html(node, indent) + rest)) == flush_before(
            node_events(node),
            flush(html_read(rest)),
        ),
    decreases node, node.children@.len() + 1,
{
    let n = node.children@.len() as int;
    match node.content {
        NodeContent::Element { tag, attrs } => {
            let name = tag@;
            let inner = if is_block(name) {
                indent + "  "@
            } else {
                indent
            };
            reveal_strlit("  ");
            assert(is_indent(inner));
            let last_line = new_line(indent, is_container(name)) + ("</"@ + name + ">"@ + rest);
            let content = children_html(node, inner, n) + last_line;
            lemma_closing_read(name, indent, rest);
            lemma_children_read(node, inner, n, last_line);
            lemma_opening_read(name, attrs@, indent, content);
            lemma_flush_element(
                HtmlEvent::Open(name, attribute_pairs(attrs@)),
                events_below(node, n),
                HtmlEvent::Close(name),
                flush(html_read(rest)),
            );
            lemma_regrouped(
                new_line(indent, is_block(name)),
                "<"@ + name + attributes_html(attrs@, attrs@.len() as int) + ">"@,
                children_html(node, inner, n),
                new_line(indent, is_container(name)),
                "</"@ + name + ">"@,
                rest,
            );
            lemma_element_html(node, indent);
        },
        NodeContent::Text(s) => {
            lemma_content_read(s@, rest);
            lemma_flush_joined(letters(s@), html_read(rest), Seq::empty());
        },
        NodeContent::Other => {
            lemma_children_read(node, indent, n, rest);
        },
    }
}

proof fn lemma_children_read<H>(node: HtmlNode<H>, indent: Seq<char>, n: int, rest: Seq<char>)
    requires
        is_readable(node),
        is_indent(indent),
        n <= node.children@.len(),
    ensures
        flush(html_read(children_html(node, indent, n) + rest)) == flush_before(
            events_below(node, n),
            flush(html_read(rest)),
        ),
    decreases node, n,
{
    if n <= 0 {
        assert(children_html(node, indent, n) + rest =~= rest);
    } else {
        let child = node.children@[n - 1];
        let tail = node_html(child, indent) + rest;
        assert(children_html(node, indent, n) + rest =~= children_html(node, indent, n - 1) + tail);
        assert(is_readable(child));
        lemma_children_read(node, indent, n - 1, tail);
        lemma_node_read(child, indent, rest);
        lemma_flush_joined(
            events_below(node, n - 1),
            node_events(child),
            flush(html_read(rest)),
        );
    }
}

/// A tree that is written as HTML reads as the tree: every element, whatever
/// its name and depth, with all of its attributes and their values, and every
/// text. Only line breaks and indentation in front of the tags of a table are
/// added.
pub proof fn law_tree_reads_back<H>(node: HtmlNode<H>, indent: Seq<char>)
    requires
        is_readable(node),
        is_indent(indent),
    ensures
        flush(html_read(node_html(node, indent))) == flush(node_events(node)),
{
    let none = Seq::<char>::empty();
    lemma_node_read(node, indent, none);
    assert(node_html(node, indent) + none =~= node_html(node, indent));
    lemma_end_read(Seq::empty());
    assert(flush(html_read(none)) =~= Seq::empty());
}

/// The first line of a written element begins with its tag.
proof fn lemma_first_line<H>(node: HtmlNode<H>)
    requires
        is_readable(node),
        node.content is Element,
    ensures
        flush(html_read(tree_html(node))) == flush(html_read(node_html(node, ""@))),
{
    reveal_strlit("");
    reveal_strlit("\n");
    reveal_strlit("<");
    match node.content {
        NodeContent::Element { tag, attrs } => {
            let name = tag@;
            let inner = if is_block(name) {
                ""@ + "  "@
            } else {
                ""@
            };
            let content = children_html(node, inner, node.children@.len() as int) + new_line(
                ""@,
                is_container(name),
            ) + "</"@ + name + ">"@;
            let opening = "<"@ + name + attributes_html(attrs@, attrs@.len() as int) + ">"@ + content;
            let line = new_line(""@, is_block(name));
            let t = node_html(node, ""@);
            assert(t =~= line + opening);
            lemma_opening_read(name, attrs@, ""@, content);
            lemma_tag_read(name, attrs@, content);
            lemma_flush_joined(
                seq![HtmlEvent::Open(name, attribute_pairs(attrs@))],
                html_read(content),
                Seq::empty(),
            );
            lemma_flush_one(
                HtmlEvent::Open(name, attribute_pairs(attrs@)),
                flush(html_read(content)),
            );
            assert(opening[0] == '<');
            assert(t[line.len() as int] == '<');
            assert(line.len() <= 1);
            reveal_with_fuel(skip, 2);
            assert(tree_html(node) =~= opening);
        },
        _ => {},
    }
}

/// An element that is written as HTML of its own reads as its tree.
pub proof fn law_serialized_reads_back<H>(node: HtmlNode<H>)
    requires
        is_readable(node),
        node.content is Element,
    ensures
        flush(html_read(tree_html(node))) == flush(node_events(node)),
{
    reveal_strlit("");
    law_tree_reads_back(node, ""@);
    lemma_first_line(node);
}

/// Whether a name is that of an element that holds the parts of a table.
pub open spec fn holds_table_parts(name: Seq<char>) -> bool {
    name == "table"@ || name == "colgroup"@ || name == "thead"@ || name == "tbody"@ || name
        == "tfoot"@ || name == "tr"@
}

/// The parts of a table stand on lines of their own, with the indentation of
/// their depth; so do the closing tags of those that hold others. What is
/// below a part is indented by two more, and any other element stands where
/// it is.
pub proof fn law_table_parts_stand_on_lines<H>(node: HtmlNode<H>, indent: Seq<char>)
    requires
        node.content is Element,
    ensures
        node.content matches NodeContent::Element { tag, attrs } ==> ({
            let part = holds_table_parts(tag@) || tag@ == "col"@ || tag@ == "th"@ || tag@ == "td"@;
            let html = node_html(node, indent);
            let below = children_html(
                node,
                if part {
                    indent + "  "@
                } else {
                    indent
                },
                node.children@.len() as int,
            );
            &&& part ==> has_prefix(html, "\n"@ + indent + "<"@ + tag@)
            &&& !part ==> has_prefix(html, "<"@ + tag@)
            &&& holds_table_parts(tag@) ==> has_suffix(
                html,
                below + "\n"@ + indent + "</"@ + tag@ + ">"@,
            )
            &&& !holds_table_parts(tag@) ==> has_suffix(html, below + "</"@ + tag@ + ">"@)
        }),
{
    match node.content {
        NodeContent::Element { tag, attrs } => {
            let name = tag@;
            let inner = if is_block(name) {
                indent + "  "@
            } else {
                indent
            };
            let written = attributes_html(attrs@, attrs@.len() as int);
            let below = children_html(node, inner, node.children@.len() as int);
            let line = new_line(indent, is_block(name));
            let last = new_line(indent, is_container(name));
            let html = node_html(node, indent);
            let start = line + "<"@ + name;
            let ending = below + last + "</"@ + name + ">"@;
            assert(html =~= start + (written + ">"@) + ending);
            assert(html.subrange(0, start.len() as int) =~= start);
            assert(html.subrange(html.len() - ending.len(), html.len() as int) =~= ending);
            if is_block(name) {
                assert(start =~= "\n"@ + indent + "<"@ + name);
            } else {
                assert(start =~= "<"@ + name);
            }
            if is_container(name) {
                assert(ending =~= below + "\n"@ + indent + "</"@ + name + ">"@);
            } else {
                assert(ending =~= below + "</"@ + name + ">"@);
            }
        },
        _ => {},
    }
}

} // verus!
